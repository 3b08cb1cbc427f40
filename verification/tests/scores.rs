use punter::harness::{GameStatus, InternalGameState};
use punter::punter::{Punter, PunterType};
use punter::river::River;
use punter::setup::{Input, InputMap, Settings, Site};

fn punter_of(
    me: usize,
    punters: usize,
    sites: &[usize],
    rivers: &[(usize, usize)],
    mines: &[usize],
) -> Punter {
    let input = Input {
        punter: me,
        punters,
        map: InputMap {
            sites: sites.iter().map(|id| Site { id: *id }).collect(),
            rivers: rivers.iter().map(|(s, t)| River::new(*s, *t)).collect(),
            mines: mines.to_vec(),
        },
        settings: Settings::default(),
    };
    Punter::new(input, PunterType::MCTS).unwrap()
}

fn sample() -> Punter {
    punter_of(
        1,
        2,
        &[4, 0, 1, 7, 6, 5, 3, 2],
        &[(3, 4), (0, 1), (2, 3), (1, 3), (5, 6), (4, 5), (3, 5), (6, 7), (5, 7), (1, 7), (0, 7), (1, 2)],
        &[1, 5],
    )
}

fn scores_of(punter: &Punter) -> Vec<u64> {
    let mut scores = vec![77, 77, 77, 77];
    punter.compute_scores(&punter.input.map.rivers, &mut scores);
    scores
}

#[test]
fn the_size_check_knows_empty_maps() {
    let mut input = sample().input;
    assert!(input.check_size());
    input.punters = usize::MAX;
    assert!(!input.check_size());
    input.punters = 0;
    assert!(input.check_size());
    input.punters = usize::MAX;
    input.map.mines.clear();
    assert!(input.check_size());
}

#[test]
fn nobody_scores_on_an_empty_board() {
    assert_eq!(scores_of(&sample()), vec![0, 0]);
}

#[test]
fn one_claim_at_a_mine_scores_one() {
    let mut punter = sample();
    punter.add_move(1, 1, 3).unwrap();
    assert_eq!(scores_of(&punter), vec![0, 1]);
}

#[test]
fn a_chain_scores_the_squares_of_the_distances() {
    let mut punter = sample();
    // From mine 1: the sites 3, 4 lie at 1 and 2 hops. The chain also reaches
    // mine 5 at distance 2, from which 4, 3 and 1 lie at 1, 1 and 2 hops.
    punter.add_move(1, 1, 3).unwrap();
    punter.add_move(1, 3, 4).unwrap();
    punter.add_move(1, 4, 5).unwrap();
    assert_eq!(scores_of(&punter), vec![0, (1 + 4 + 4) + (1 + 1 + 4)]);
}

#[test]
fn distances_are_those_of_the_whole_map() {
    let mut punter = sample();
    // The punter's road from mine 1 to site 5 is 1-7-6-5, three rivers long;
    // site 5 still counts with its distance on the whole map, which is 2.
    punter.add_move(0, 1, 7).unwrap();
    punter.add_move(0, 6, 7).unwrap();
    punter.add_move(0, 5, 6).unwrap();
    let from_1 = 1 + 4 + 4;
    let from_5 = 1 + 1 + 4;
    assert_eq!(scores_of(&punter), vec![from_1 + from_5, 0]);
}

#[test]
fn owner_and_renter_both_travel_a_river() {
    let mut punter = sample();
    punter.add_move(0, 1, 3).unwrap();
    punter.add_move(1, 1, 3).unwrap();
    assert_eq!(scores_of(&punter), vec![1, 1]);
}

#[test]
fn rivers_away_from_the_mines_score_nothing() {
    let mut punter = sample();
    punter.add_move(1, 3, 4).unwrap();
    punter.add_move(1, 2, 3).unwrap();
    punter.add_move(0, 6, 7).unwrap();
    assert_eq!(scores_of(&punter), vec![0, 0]);
}

#[test]
fn a_mine_without_rivers_scores_nothing() {
    let mut punter = punter_of(0, 2, &[1, 2, 3], &[(2, 3)], &[1]);
    punter.add_move(0, 2, 3).unwrap();
    assert_eq!(scores_of(&punter), vec![0, 0]);
}

#[test]
fn a_part_of_the_map_without_mine_scores_nothing() {
    let mut punter = punter_of(0, 2, &[1, 2, 3, 4, 5], &[(1, 2), (3, 4), (4, 5)], &[1]);
    punter.add_move(0, 3, 4).unwrap();
    punter.add_move(1, 4, 5).unwrap();
    assert_eq!(scores_of(&punter), vec![0, 0]);
    punter.add_move(1, 1, 2).unwrap();
    assert_eq!(scores_of(&punter), vec![0, 1]);
}

#[test]
fn a_mine_listed_twice_counts_twice() {
    let mut punter = punter_of(0, 1, &[1, 2, 3], &[(1, 2), (2, 3)], &[1, 1]);
    punter.add_move(0, 1, 2).unwrap();
    punter.add_move(0, 2, 3).unwrap();
    assert_eq!(scores_of(&punter), vec![2 * (1 + 4)]);
}

#[test]
fn the_score_buffer_is_sized_to_the_punters() {
    let punter = punter_of(2, 5, &[1, 2], &[(1, 2)], &[1]);
    let mut scores = Vec::new();
    punter.compute_scores(&punter.input.map.rivers, &mut scores);
    assert_eq!(scores, vec![0, 0, 0, 0, 0]);
}

#[test]
fn reset_lists_the_rivers_without_owner() {
    let mut punter = sample();
    punter.add_move(0, 3, 5).unwrap();
    let mut game = InternalGameState::new(&punter);
    assert_eq!(game.status, GameStatus::NotStarted);
    game.reset_game();
    assert_eq!(game.status, GameStatus::Playing);
    assert_eq!(game.current_punter, 1);
    let mut available = game.available_actions().clone();
    available.sort();
    assert_eq!(available, vec![0, 1, 2, 3, 4, 5, 7, 8, 9, 10, 11]);
}

#[test]
fn every_move_strikes_one_river_off() {
    let punter = sample();
    let mut game = InternalGameState::new(&punter);
    game.reset_game();
    for (played, river) in [6, 0, 11, 3, 9].iter().enumerate() {
        assert_eq!(game.available_actions().len(), 12 - played);
        assert!(game.available_actions().contains(river));
        game.make_move(*river);
        assert!(!game.available_actions().contains(river));
    }
    assert_eq!(game.available_actions().len(), 7);
    let mut left = game.available_actions().clone();
    left.sort();
    assert_eq!(left, vec![1, 2, 4, 5, 7, 8, 10]);
}

#[test]
fn moves_rotate_through_the_punters() {
    let punter = punter_of(1, 3, &[1, 2, 3, 4], &[(1, 2), (2, 3), (3, 4), (4, 1)], &[1]);
    let mut game = InternalGameState::new(&punter);
    game.reset_game();
    game.make_move(2);
    assert_eq!(game.rivers[2].owner, Some(1));
    assert_eq!(game.current_punter, 2);
    game.make_move(0);
    assert_eq!(game.rivers[0].owner, Some(2));
    assert_eq!(game.current_punter, 0);
    game.make_move(3);
    assert_eq!(game.rivers[3].owner, Some(0));
    assert_eq!(game.current_punter, 1);
    assert_eq!(game.status, GameStatus::Playing);
    game.make_move(1);
    assert_eq!(game.status, GameStatus::Finished);
    assert!(game.available_actions().is_empty());
}

#[test]
fn a_river_with_an_owner_can_be_rented_in_simulation() {
    let mut punter = sample();
    punter.add_move(0, 3, 5).unwrap();
    let mut game = InternalGameState::new(&punter);
    game.reset_game();
    assert!(!game.available_actions().contains(&6));
    game.make_move(6);
    assert_eq!(game.rivers[6].owner, Some(0));
    assert_eq!(game.rivers[6].renter, Some(1));
    assert_eq!(game.available_actions().len(), 11);
    assert_eq!(game.current_punter, 0);
    assert_eq!(game.status, GameStatus::Playing);
}

#[test]
fn reset_starts_over_from_the_board() {
    let mut punter = sample();
    punter.add_move(0, 3, 5).unwrap();
    let mut game = InternalGameState::new(&punter);
    game.reset_game();
    game.make_move(0);
    game.make_move(1);
    game.reset_game();
    assert_eq!(game.available_actions().len(), 11);
    assert_eq!(game.current_punter, 1);
    assert_eq!(game.rivers[0].owner, None);
    assert_eq!(game.rivers[6].owner, Some(0));
    assert!(punter.input.map.rivers[0].owner.is_none());
}

#[test]
fn the_lead_is_summed_over_the_opponents() {
    let punter = punter_of(1, 3, &[1, 2, 3, 4], &[(1, 2), (2, 3), (3, 4)], &[1]);
    let mut game = InternalGameState::new(&punter);
    game.reset_game();
    game.make_move(0);
    game.make_move(1);
    game.make_move(2);
    // Punter 1 holds the river at the mine and scores 1; the others score 0.
    assert_eq!(game.scores.len(), 0);
    assert_eq!(game.score(), 2);
    assert_eq!(game.scores, vec![0, 1, 0]);
    assert_eq!(game.score() as f64 / 2.0, 1.0);
}

#[test]
fn the_lead_can_be_negative() {
    let punter = punter_of(0, 2, &[1, 2, 3], &[(2, 3), (1, 2)], &[1]);
    let mut game = InternalGameState::new(&punter);
    game.reset_game();
    game.make_move(0);
    game.make_move(1);
    assert_eq!(game.score(), -1);
}

#[test]
fn a_lone_punter_leads_nobody() {
    let punter = punter_of(0, 1, &[1, 2], &[(1, 2)], &[1]);
    let mut game = InternalGameState::new(&punter);
    game.reset_game();
    game.make_move(0);
    assert_eq!(game.score(), 0);
}
