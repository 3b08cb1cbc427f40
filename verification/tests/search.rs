use punter::harness::InternalGameState;
use punter::mcts::{MCTS, SIMULATION_DEPTH};
use punter::tree::{ChildStats, MCTSNode, NodeStatus};
use punter::protocol::Move;
use punter::punter::{Punter, PunterType};
use punter::river::River;
use punter::setup::{Input, InputMap, Settings, Site};
use std::time::{Duration, Instant};

fn punter_of(
    me: usize,
    punters: usize,
    sites: &[usize],
    rivers: &[(usize, usize)],
    mines: &[usize],
    ai: PunterType,
) -> Punter {
    let input = Input {
        punter: me,
        punters,
        map: InputMap {
            sites: sites.iter().map(|id| Site { id: *id }).collect(),
            rivers: rivers.iter().map(|(s, t)| River::new(*s, *t)).collect(),
            mines: mines.to_vec(),
        },
        settings: Settings::default(),
    };
    Punter::new(input, ai).unwrap()
}

fn sample(ai: PunterType) -> Punter {
    punter_of(
        1,
        2,
        &[4, 0, 1, 7, 6, 5, 3, 2],
        &[(3, 4), (0, 1), (2, 3), (1, 3), (5, 6), (4, 5), (3, 5), (6, 7), (5, 7), (1, 7), (0, 7), (1, 2)],
        &[1, 5],
        ai,
    )
}

/// The upper confidence bound of every child, the first of the greatest.
fn uct(visits: u64, children: &Vec<ChildStats>) -> usize {
    let mut best = 0;
    let mut best_value = f64::NEG_INFINITY;
    for (at, child) in children.iter().enumerate() {
        let n = child.visits as f64;
        let value = child.score as f64 / n + 1.4 * (2.0 * (visits as f64).ln() / n).sqrt();
        if value > best_value {
            best_value = value;
            best = at;
        }
    }
    best
}

fn first(_visits: u64, _children: &Vec<ChildStats>) -> usize {
    0
}

fn beyond(_visits: u64, children: &Vec<ChildStats>) -> usize {
    children.len() + 3
}

fn check_tree(tree: &MCTS, steps: u64, free: usize) {
    let nodes = &tree.nodes;
    assert_eq!(nodes[0].count, steps);
    assert!(nodes[0].parent.is_none() && nodes[0].play.is_none());
    for (at, node) in nodes.iter().enumerate() {
        let below: u64 = node.children.iter().map(|c| nodes[*c].count).sum();
        if at > 0 {
            assert!(node.count >= 1);
            let parent = node.parent.unwrap();
            assert!(parent < at);
            assert!(nodes[parent].children.contains(&at));
        }
        if node.status != NodeStatus::Done {
            assert_eq!(node.count, below + if at == 0 { 0 } else { 1 });
        } else {
            assert!(node.children.is_empty());
        }
        let mut depth = 0;
        let mut up = node.parent;
        let mut path = vec![];
        while let Some(p) = up {
            depth += 1;
            path.push(nodes[p].play);
            up = nodes[p].parent;
        }
        assert!(!path.contains(&node.play) || at == 0);
        assert!(node.children.len() + depth <= free);
        if node.status == NodeStatus::Expanded {
            assert_eq!(node.children.len() + depth, free);
        }
        let mut plays: Vec<usize> = node.children.iter().map(|c| nodes[*c].play.unwrap()).collect();
        plays.sort();
        plays.dedup();
        assert_eq!(plays.len(), node.children.len());
        for child in &node.children {
            assert_eq!(nodes[*child].parent, Some(at));
        }
    }
}

#[test]
fn a_new_tree_is_a_bare_root() {
    let punter = sample(PunterType::MCTS);
    let tree = MCTS::new(&punter);
    assert_eq!(tree.nodes.len(), 1);
    assert_eq!(tree.nodes[0].count, 0);
    assert_eq!(tree.nodes[0].score, 0);
    assert_eq!(tree.nodes[0].status, NodeStatus::Expandable);
    assert_eq!(tree.best_move(), None);
    assert!(tree.can_step());
}

#[test]
fn a_new_node_has_neither_visits_nor_children() {
    let node = MCTSNode::new(Some(7));
    assert_eq!(node.play, Some(7));
    assert!(node.children.is_empty() && node.parent.is_none());
    assert_eq!((node.count, node.score), (0, 0));
    assert_eq!(node.status, NodeStatus::Expandable);
}

#[test]
fn one_step_gives_the_root_one_child() {
    let mut punter = sample(PunterType::MCTS);
    punter.add_move(0, 3, 5).unwrap();
    let mut tree = MCTS::new(&punter);
    let mut game = InternalGameState::new(&punter);
    game.reset_game();
    assert_eq!(game.available_actions().len(), 11);
    tree.step(&mut game, &uct);
    assert_eq!(tree.nodes.len(), 2);
    assert_eq!(tree.nodes[0].count, 1);
    assert_eq!(tree.nodes[0].children, vec![1]);
    assert_eq!(tree.nodes[1].count, 1);
    assert_eq!(tree.nodes[1].parent, Some(0));
    // The playout ran to the end of the match, and its lead is the score of
    // the child and of the root.
    assert!(game.available_actions().is_empty());
    let lead = game.score();
    assert_eq!(tree.nodes[1].score, lead);
    assert_eq!(tree.nodes[0].score, lead);
    let play = tree.nodes[1].play.unwrap();
    assert_ne!(play, 6);
    assert_eq!(game.rivers[play].owner, Some(1));
    assert_eq!(tree.best_move(), Some(play));
}

#[test]
fn counts_add_up_after_many_steps() {
    let punter = sample(PunterType::MCTS);
    let mut tree = MCTS::new(&punter);
    let mut game = InternalGameState::new(&punter);
    for steps in 1..=300 {
        game.reset_game();
        tree.step(&mut game, &uct);
        if steps % 50 == 0 {
            check_tree(&tree, steps, 12);
        }
    }
    // A step adds a node unless it ends at a leaf where the match is over.
    let done: u64 =
        tree.nodes.iter().filter(|n| n.status == NodeStatus::Done).map(|n| n.count - 1).sum();
    assert_eq!(tree.nodes.len() as u64 + done, 301);
    assert_eq!(tree.nodes[0].status, NodeStatus::Expanded);
    assert_eq!(tree.nodes[0].children.len(), 12);
}

#[test]
fn counts_never_fall() {
    let punter = sample(PunterType::MCTS);
    let mut tree = MCTS::new(&punter);
    let mut game = InternalGameState::new(&punter);
    let mut before: Vec<u64> = vec![0];
    for _ in 0..100 {
        game.reset_game();
        tree.step(&mut game, &uct);
        for (at, count) in before.iter().enumerate() {
            assert!(tree.nodes[at].count >= *count);
        }
        assert!(tree.nodes.len() <= before.len() + 1);
        before = tree.nodes.iter().map(|n| n.count).collect();
    }
}

#[test]
fn a_small_match_is_searched_to_its_leaves() {
    let punter = punter_of(0, 2, &[1, 2, 3], &[(1, 2), (2, 3)], &[1], PunterType::MCTS);
    let mut tree = MCTS::new(&punter);
    let mut game = InternalGameState::new(&punter);
    for _ in 0..2000 {
        game.reset_game();
        tree.step(&mut game, &uct);
    }
    check_tree(&tree, 2000, 2);
    // Root, two children, one grandchild each.
    assert_eq!(tree.nodes.len(), 5);
    let done = tree.nodes.iter().filter(|n| n.status == NodeStatus::Done).count();
    assert_eq!(done, 2);
    for node in &tree.nodes[1..] {
        // Claiming the river at the mine first wins by one, second loses by one.
        let first_own = node.play == Some(0) && node.parent == Some(0);
        let reply = node.play == Some(1) && node.parent != Some(0);
        let expected = if first_own || reply { 1 } else { -1 };
        assert_eq!(node.score, expected * node.count as i128);
    }
    assert_eq!(tree.best_move(), Some(0));
}

#[test]
fn a_single_river_is_expanded_once() {
    let punter = punter_of(0, 2, &[1, 2], &[(1, 2)], &[1], PunterType::MCTS);
    let mut tree = MCTS::new(&punter);
    let mut game = InternalGameState::new(&punter);
    game.reset_game();
    tree.step(&mut game, &uct);
    assert_eq!(tree.nodes.len(), 2);
    assert_eq!(tree.nodes[0].status, NodeStatus::Expanded);
    assert_eq!(tree.nodes[1].play, Some(0));
    for _ in 0..5 {
        game.reset_game();
        tree.step(&mut game, &uct);
    }
    assert_eq!(tree.nodes.len(), 2);
    assert_eq!(tree.nodes[1].status, NodeStatus::Done);
    assert_eq!(tree.nodes[1].count, 6);
    assert_eq!(tree.nodes[1].score, 6);
    assert_eq!(tree.best_move(), Some(0));
    let answer = punter.make_move(Instant::now(), 0, &uct);
    assert!(matches!(answer, Move::claim(c) if (c.punter, c.source, c.target) == (0, 1, 2)));
}

#[test]
fn an_exhausted_board_grows_no_tree() {
    let mut punter = punter_of(1, 2, &[1, 2], &[(1, 2)], &[1], PunterType::MCTS);
    punter.add_move(0, 1, 2).unwrap();
    let mut tree = MCTS::new(&punter);
    let mut game = InternalGameState::new(&punter);
    game.reset_game();
    tree.step(&mut game, &uct);
    assert_eq!(tree.nodes.len(), 1);
    assert_eq!(tree.nodes[0].status, NodeStatus::Done);
    assert_eq!(tree.nodes[0].count, 1);
    assert_eq!(tree.best_move(), None);
}

#[test]
fn an_exhausted_board_is_answered_with_a_pass() {
    for ai in [PunterType::MCTS, PunterType::Random] {
        let mut punter = punter_of(1, 2, &[1, 2], &[(1, 2)], &[1], ai);
        punter.add_move(0, 1, 2).unwrap();
        let begin = Instant::now();
        let answer = punter.make_move(begin, 1, &uct);
        assert!(matches!(answer, Move::pass(p) if p.punter == 1));
        assert!(begin.elapsed() < Duration::from_millis(500));
        assert_eq!(punter.move_random().map(|p| p.punter), None);
    }
}

#[test]
fn the_most_visited_child_is_preferred() {
    let punter = sample(PunterType::MCTS);
    let mut tree = MCTS::new(&punter);
    let mut game = InternalGameState::new(&punter);
    // Always descending to the first child piles the visits up on it.
    for _ in 0..40 {
        game.reset_game();
        tree.step(&mut game, &first);
    }
    check_tree(&tree, 40, 12);
    let first_child = tree.nodes[0].children[0];
    assert_eq!(tree.nodes[first_child].count, 40 - 11);
    assert_eq!(tree.best_move(), tree.nodes[first_child].play);
}

#[test]
fn of_equally_visited_children_the_first_is_preferred() {
    let punter = sample(PunterType::MCTS);
    let mut tree = MCTS::new(&punter);
    let mut game = InternalGameState::new(&punter);
    for _ in 0..12 {
        game.reset_game();
        tree.step(&mut game, &uct);
    }
    assert!(tree.nodes[0].children.iter().all(|c| tree.nodes[*c].count == 1));
    assert_eq!(tree.best_move(), tree.nodes[1].play);
}

#[test]
fn a_choice_beyond_the_children_falls_on_the_first() {
    let punter = sample(PunterType::MCTS);
    let mut tree = MCTS::new(&punter);
    let mut game = InternalGameState::new(&punter);
    for _ in 0..30 {
        game.reset_game();
        tree.step(&mut game, &beyond);
    }
    check_tree(&tree, 30, 12);
    assert_eq!(tree.child_at(0, 12), Some(tree.nodes[0].children[0]));
    assert_eq!(tree.child_at(0, 5), Some(tree.nodes[0].children[5]));
    let leaf = (0..tree.nodes.len()).find(|at| tree.nodes[*at].children.is_empty()).unwrap();
    assert_eq!(tree.child_at(leaf, 0), None);
    assert_eq!(tree.nodes[tree.nodes[0].children[0]].count, 30 - 11);
}

#[test]
fn the_pick_is_shown_the_children_and_names_one() {
    let punter = sample(PunterType::MCTS);
    let mut tree = MCTS::new(&punter);
    let mut game = InternalGameState::new(&punter);
    assert_eq!(tree.select_uct(0, &uct), None);
    for _ in 0..15 {
        game.reset_game();
        tree.step(&mut game, &uct);
    }
    let last = |visits: u64, children: &Vec<ChildStats>| {
        assert_eq!(visits, 15);
        assert_eq!(children.len(), 12);
        children.len() - 1
    };
    assert_eq!(tree.select_uct(0, &last), Some(tree.nodes[0].children[11]));
    assert_eq!(tree.select_uct(0, &first), Some(tree.nodes[0].children[0]));
    assert_eq!(tree.select_uct(0, &beyond), Some(tree.nodes[0].children[0]));
    let expected = uct(15, &tree.child_stats(0));
    assert_eq!(tree.select_uct(0, &uct), Some(tree.nodes[0].children[expected]));
}

#[test]
fn selection_stops_at_the_first_node_with_an_untried_river() {
    let punter = sample(PunterType::MCTS);
    let mut tree = MCTS::new(&punter);
    let mut game = InternalGameState::new(&punter);
    for _ in 0..14 {
        game.reset_game();
        tree.step(&mut game, &first);
    }
    game.reset_game();
    let leaf = tree.select(&mut game, &first);
    assert_ne!(tree.nodes[leaf].status, NodeStatus::Expanded);
    let mut depth = 0;
    let mut up = tree.nodes[leaf].parent;
    while let Some(parent) = up {
        assert_eq!(tree.nodes[parent].status, NodeStatus::Expanded);
        assert_eq!(tree.nodes[parent].children[0], if depth == 0 { leaf } else { parent + 1 });
        depth += 1;
        up = tree.nodes[parent].parent;
    }
    assert_eq!(game.available_actions().len(), 12 - depth);
    // One claim leads to the leaf: it was the punter's own, and the turn has
    // passed to the other punter.
    assert_eq!(depth, 1);
    assert_eq!(game.rivers[tree.nodes[leaf].play.unwrap()].owner, Some(1));
    assert_eq!(game.rivers.iter().filter(|r| r.owner.is_some()).count(), 1);
    assert_eq!(game.current_punter, 0);
}

#[test]
fn child_stats_follow_the_children() {
    let punter = sample(PunterType::MCTS);
    let mut tree = MCTS::new(&punter);
    let mut game = InternalGameState::new(&punter);
    for _ in 0..25 {
        game.reset_game();
        tree.step(&mut game, &uct);
    }
    let stats = tree.child_stats(0);
    assert_eq!(stats.len(), 12);
    for (at, child) in tree.nodes[0].children.iter().enumerate() {
        assert_eq!(stats[at].visits, tree.nodes[*child].count);
        assert_eq!(stats[at].score, tree.nodes[*child].score);
    }
    assert_eq!(stats.iter().map(|s| s.visits).sum::<u64>(), 25);
}

#[test]
fn backpropagation_reaches_the_root() {
    let punter = punter_of(0, 2, &[1, 2, 3], &[(1, 2), (2, 3)], &[1], PunterType::MCTS);
    let mut tree = MCTS::new(&punter);
    let mut game = InternalGameState::new(&punter);
    for _ in 0..4 {
        game.reset_game();
        tree.step(&mut game, &first);
    }
    // The first child of the root has been done since the third step.
    let leaf = tree.nodes[tree.nodes[0].children[0]].children[0];
    let before: Vec<(u64, i128)> = tree.nodes.iter().map(|n| (n.count, n.score)).collect();
    tree.backpropagate(leaf, -5);
    for (at, node) in tree.nodes.iter().enumerate() {
        let on_path = at == leaf || at == tree.nodes[0].children[0] || at == 0;
        let (count, score) = before[at];
        if on_path {
            assert_eq!((node.count, node.score), (count + 1, score - 5));
        } else {
            assert_eq!((node.count, node.score), (count, score));
        }
    }
}

#[test]
fn untried_rivers_leave_out_the_children() {
    let punter = sample(PunterType::MCTS);
    let mut tree = MCTS::new(&punter);
    let mut game = InternalGameState::new(&punter);
    for _ in 0..5 {
        game.reset_game();
        tree.step(&mut game, &uct);
    }
    game.reset_game();
    let tried: Vec<usize> =
        tree.nodes[0].children.iter().map(|c| tree.nodes[*c].play.unwrap()).collect();
    let mut untried = tree.untried(0, &game);
    assert_eq!(untried.len(), 7);
    assert!(untried.iter().all(|r| !tried.contains(r)));
    untried.extend(tried);
    untried.sort();
    assert_eq!(untried, (0..12).collect::<Vec<usize>>());
}

#[test]
fn a_playout_ends_the_match() {
    let punter = sample(PunterType::MCTS);
    let mut game = InternalGameState::new(&punter);
    game.reset_game();
    assert!(12 <= SIMULATION_DEPTH);
    let lead = MCTS::simulate(&mut game);
    assert!(game.available_actions().is_empty());
    assert!(game.rivers.iter().all(|r| r.owner.is_some() && r.renter.is_none()));
    assert_eq!(game.rivers.iter().filter(|r| r.owner == Some(1)).count(), 6);
    assert_eq!(lead, game.scores[1] as i128 - game.scores[0] as i128);
}

#[test]
fn a_random_move_claims_a_free_river() {
    let mut punter = sample(PunterType::Random);
    punter.add_move(0, 3, 5).unwrap();
    for _ in 0..50 {
        let play = punter.move_random().unwrap();
        assert_eq!(play.punter, 1);
        let river = punter.find_river(play.source, play.target).unwrap();
        assert_ne!(river, 6);
        assert!(punter.river(river).owner.is_none());
    }
    let answer = punter.make_move(Instant::now(), 1, &uct);
    assert!(matches!(answer, Move::claim(c) if c.punter == 1));
}

#[test]
fn random_moves_reach_every_free_river() {
    let punter = punter_of(0, 2, &[1, 2, 3], &[(1, 2), (2, 3), (3, 1)], &[1], PunterType::Random);
    let mut seen = [false; 3];
    for _ in 0..200 {
        let play = punter.move_random().unwrap();
        seen[punter.find_river(play.source, play.target).unwrap()] = true;
    }
    assert_eq!(seen, [true, true, true]);
}

#[test]
fn free_rivers_are_listed_in_order() {
    let mut punter = sample(PunterType::Random);
    punter.add_move(0, 3, 5).unwrap();
    punter.add_move(1, 3, 4).unwrap();
    assert_eq!(punter.free_rivers(), vec![1, 2, 3, 4, 5, 7, 8, 9, 10, 11]);
}

#[test]
fn the_budget_leaves_a_margin() {
    assert_eq!(Punter::budget(1), 850);
    assert_eq!(Punter::budget(10), 9850);
    assert_eq!(Punter::budget(255), 254850);
    assert_eq!(Punter::budget(0), 0);
}

#[test]
fn a_step_is_made_only_within_the_budget() {
    assert!(Punter::within_budget(0, 1));
    assert!(Punter::within_budget(849, 1));
    assert!(!Punter::within_budget(850, 1));
    assert!(!Punter::within_budget(851, 1));
    assert!(!Punter::within_budget(0, 0));
    assert!(Punter::within_budget(254_849, 255));
    assert!(!Punter::within_budget(u128::MAX, 255));
}

#[test]
fn a_search_with_time_prefers_a_free_river() {
    let mut punter = sample(PunterType::MCTS);
    punter.add_move(0, 3, 5).unwrap();
    let play = punter.move_mcts(Instant::now(), 1, &uct).unwrap();
    assert_eq!(play.punter, 1);
    let river = punter.find_river(play.source, play.target).unwrap();
    assert_ne!(river, 6);
    assert!(punter.river(river).owner.is_none());
}

#[test]
fn a_search_on_an_exhausted_board_prefers_nothing() {
    let mut punter = punter_of(1, 2, &[1, 2], &[(1, 2)], &[1], PunterType::MCTS);
    punter.add_move(0, 1, 2).unwrap();
    let begin = Instant::now();
    assert_eq!(punter.move_mcts(begin, 1, &uct).map(|p| p.punter), None);
}

#[test]
fn the_search_keeps_to_its_budget() {
    let mut punter = sample(PunterType::MCTS);
    punter.add_move(0, 3, 5).unwrap();
    let begin = Instant::now();
    let answer = punter.make_move(begin, 1, &uct);
    let took = begin.elapsed();
    assert!(took >= Duration::from_millis(850));
    assert!(took < Duration::from_millis(1500));
    match answer {
        Move::claim(claim) => {
            assert_eq!(claim.punter, 1);
            let river = punter.find_river(claim.source, claim.target).unwrap();
            assert!(punter.river(river).owner.is_none());
        }
        _ => panic!("a claim was expected"),
    }
    assert_eq!(punter.river(6).owner, Some(0));
    assert_eq!(punter.input.map.rivers.iter().filter(|r| r.owner.is_some()).count(), 1);
}

#[test]
fn without_time_the_search_falls_back_on_a_random_claim() {
    let punter = sample(PunterType::MCTS);
    let begin = Instant::now();
    assert_eq!(punter.move_mcts(begin, 0, &uct).map(|p| p.punter), None);
    let answer = punter.make_move(begin, 0, &uct);
    assert!(matches!(answer, Move::claim(c) if c.punter == 1));
}
