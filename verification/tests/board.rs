use punter::protocol::{Claim, Move, Pass, Splurge};
use punter::punter::{handshake, MoveError, Play, Punter, PunterType};
use punter::river::River;
use punter::setup::{Input, InputMap, Settings, Site};

fn sample() -> Punter {
    let sites = [4, 0, 1, 7, 6, 5, 3, 2].iter().map(|id| Site { id: *id }).collect();
    let rivers = [
        (3, 4), (0, 1), (2, 3), (1, 3), (5, 6), (4, 5), (3, 5), (6, 7), (5, 7), (1, 7), (0, 7), (1, 2),
    ]
    .iter()
    .map(|(s, t)| River::new(*s, *t))
    .collect();
    let input = Input {
        punter: 1,
        punters: 2,
        map: InputMap { sites, rivers, mines: vec![1, 5] },
        settings: Settings::default(),
    };
    Punter::new(input, PunterType::MCTS).unwrap()
}

fn claim(punter: usize, source: usize, target: usize) -> Move {
    Move::claim(Claim { punter, source, target })
}

#[test]
fn rivers_are_found_by_their_ends() {
    let punter = sample();
    assert_eq!(punter.find_river(3, 5), Some(6));
    assert_eq!(punter.find_river(3, 4), Some(0));
    assert_eq!(punter.find_river(1, 2), Some(11));
    assert_eq!(punter.find_river(0, 7), Some(10));
}

#[test]
fn lookup_does_not_depend_on_the_order_of_the_ends() {
    let punter = sample();
    for a in 0..9 {
        for b in 0..9 {
            assert_eq!(punter.find_river(a, b), punter.find_river(b, a));
        }
    }
}

#[test]
fn missing_rivers_are_not_found() {
    let punter = sample();
    assert_eq!(punter.find_river(0, 5), None);
    assert_eq!(punter.find_river(3, 3), None);
    assert_eq!(punter.find_river(3, 99), None);
    assert_eq!(punter.find_river(99, 3), None);
}

#[test]
fn of_parallel_rivers_the_first_is_found() {
    let sites = [1, 2].iter().map(|id| Site { id: *id }).collect();
    let rivers = vec![River::new(1, 2), River::new(2, 1), River::new(1, 2)];
    let input = Input {
        punter: 0,
        punters: 1,
        map: InputMap { sites, rivers, mines: vec![] },
        settings: Settings::default(),
    };
    let punter = Punter::new(input, PunterType::Random).unwrap();
    assert_eq!(punter.find_river(1, 2), Some(0));
    assert_eq!(punter.find_river(2, 1), Some(0));
}

#[test]
fn opponent_claim_sets_the_owner() {
    let mut punter = sample();
    let moves = vec![claim(0, 3, 5), Move::pass(Pass { punter: 1 })];
    assert_eq!(punter.process_turn(&moves), Ok(()));
    let river = punter.river(6);
    assert_eq!((river.source, river.target), (3, 5));
    assert_eq!(river.owner, Some(0));
    assert_eq!(river.renter, None);
    let owned = punter.input.map.rivers.iter().filter(|r| r.owner.is_some()).count();
    assert_eq!(owned, 1);
}

#[test]
fn option_after_claim_sets_the_renter() {
    let mut punter = sample();
    let moves = vec![claim(0, 3, 5), Move::option(Claim { punter: 1, source: 5, target: 3 })];
    assert_eq!(punter.process_turn(&moves), Ok(()));
    assert_eq!(punter.river(6).owner, Some(0));
    assert_eq!(punter.river(6).renter, Some(1));
}

#[test]
fn splurge_claims_every_hop() {
    let mut punter = sample();
    let moves = vec![Move::splurge(Splurge { punter: 0, route: vec![4, 3, 5, 7] })];
    assert_eq!(punter.process_turn(&moves), Ok(()));
    for river in [0, 6, 8] {
        assert_eq!(punter.river(river).owner, Some(0));
    }
    let owned = punter.input.map.rivers.iter().filter(|r| r.owner.is_some()).count();
    assert_eq!(owned, 3);
}

#[test]
fn short_routes_claim_nothing() {
    let mut punter = sample();
    let moves = vec![
        Move::splurge(Splurge { punter: 0, route: vec![] }),
        Move::splurge(Splurge { punter: 0, route: vec![3] }),
    ];
    assert_eq!(punter.process_turn(&moves), Ok(()));
    assert!(punter.input.map.rivers.iter().all(|r| r.owner.is_none()));
}

#[test]
fn passes_change_nothing() {
    let mut punter = sample();
    let moves = vec![Move::pass(Pass { punter: 0 }), Move::pass(Pass { punter: 1 })];
    assert_eq!(punter.process_turn(&moves), Ok(()));
    assert!(punter.input.map.rivers.iter().all(|r| r.owner.is_none() && r.renter.is_none()));
}

#[test]
fn unknown_river_stops_the_turn() {
    let mut punter = sample();
    let moves = vec![claim(0, 3, 5), claim(0, 0, 5), claim(0, 3, 4)];
    assert_eq!(punter.process_turn(&moves), Err(MoveError::UnknownRiver));
    assert_eq!(punter.river(6).owner, Some(0));
    assert_eq!(punter.river(0).owner, None);
}

#[test]
fn third_holder_is_a_conflict() {
    let mut punter = sample();
    assert_eq!(punter.add_move(0, 3, 5), Ok(()));
    assert_eq!(punter.add_move(1, 3, 5), Ok(()));
    assert_eq!(punter.add_move(2, 3, 5), Err(MoveError::OwnershipConflict));
    assert_eq!(punter.river(6).owner, Some(0));
    assert_eq!(punter.river(6).renter, Some(1));
}

#[test]
fn second_share_for_the_owner_is_a_conflict() {
    let mut punter = sample();
    assert_eq!(punter.add_move(0, 3, 5), Ok(()));
    assert_eq!(punter.add_move(0, 5, 3), Err(MoveError::OwnershipConflict));
    assert_eq!(punter.river(6).renter, None);
}

#[test]
fn a_route_stops_at_the_first_missing_hop() {
    let mut punter = sample();
    assert_eq!(punter.add_route(0, &vec![4, 3, 0, 1]), Err(MoveError::UnknownRiver));
    assert_eq!(punter.river(0).owner, Some(0));
    assert_eq!(punter.river(1).owner, None);
}

#[test]
fn every_river_keeps_the_rule_on_holders() {
    let mut punter = sample();
    let moves = vec![
        claim(0, 3, 5),
        claim(1, 1, 3),
        Move::option(Claim { punter: 1, source: 3, target: 5 }),
        Move::splurge(Splurge { punter: 0, route: vec![0, 1, 7] }),
    ];
    assert_eq!(punter.process_turn(&moves), Ok(()));
    for river in &punter.input.map.rivers {
        if river.renter.is_some() {
            assert!(river.owner.is_some());
            assert_ne!(river.owner, river.renter);
        }
    }
}

#[test]
fn river_shares_go_to_owner_then_renter() {
    let mut river = River::new(1, 2);
    assert!(river.can_add_owner(4));
    river.add_owner(4);
    assert_eq!((river.owner, river.renter), (Some(4), None));
    assert!(!river.can_add_owner(4));
    assert!(river.can_add_owner(5));
    river.add_owner(5);
    assert_eq!((river.owner, river.renter), (Some(4), Some(5)));
    assert!(!river.can_add_owner(6));
    assert!(river.is_held_by(4) && river.is_held_by(5) && !river.is_held_by(6));
}

#[test]
fn the_other_end_of_a_river() {
    let punter = sample();
    let river = punter.river(6);
    assert_eq!(river.other_index(river.source_idx), river.target_idx);
    assert_eq!(river.other_index(river.target_idx), river.source_idx);
    assert_eq!(punter.input.river_other_index(6, river.source_idx), river.target_idx);
}

#[test]
fn a_play_names_the_river_by_its_sites() {
    let punter = sample();
    let play = Play::new(punter.river(6), 1);
    assert_eq!((play.punter, play.source, play.target), (1, 3, 5));
}

#[test]
fn the_handshake_carries_the_name() {
    assert_eq!(handshake(String::from("random hackers")).me, "random hackers");
}
