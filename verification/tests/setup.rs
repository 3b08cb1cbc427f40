use punter::distance::UNREACHED;
use punter::punter::{Punter, PunterType};
use punter::river::River;
use punter::setup::{index_sites, Input, InputMap, Settings, SetupError, Site};

fn input_of(sites: &[usize], rivers: &[(usize, usize)], mines: &[usize]) -> Input {
    Input {
        punter: 1,
        punters: 2,
        map: InputMap {
            sites: sites.iter().map(|id| Site { id: *id }).collect(),
            rivers: rivers.iter().map(|(s, t)| River::new(*s, *t)).collect(),
            mines: mines.to_vec(),
        },
        settings: Settings::default(),
    }
}

fn sample_input() -> Input {
    input_of(
        &[4, 0, 1, 7, 6, 5, 3, 2],
        &[(3, 4), (0, 1), (2, 3), (1, 3), (5, 6), (4, 5), (3, 5), (6, 7), (5, 7), (1, 7), (0, 7), (1, 2)],
        &[1, 5],
    )
}

#[test]
fn sample_setup_builds() {
    let punter = Punter::new(sample_input(), PunterType::MCTS).unwrap();
    assert_eq!(punter.id(), 1);
    assert_eq!(punter.input.punters, 2);
    assert_eq!(punter.edges.len(), 8);
    assert_eq!(punter.shortest_paths.len(), 2);
    assert_eq!(punter.input.map.rivers.len(), 12);
}

#[test]
fn sample_setup_positions_follow_the_site_list() {
    let punter = Punter::new(sample_input(), PunterType::MCTS).unwrap();
    for (position, id) in [4, 0, 1, 7, 6, 5, 3, 2].iter().enumerate() {
        assert_eq!(punter.site_index[id], position);
    }
    let first = &punter.input.map.rivers[0];
    assert_eq!((first.source, first.target), (3, 4));
    assert_eq!((first.source_idx, first.target_idx), (6, 0));
}

#[test]
fn sample_setup_distances() {
    let punter = Punter::new(sample_input(), PunterType::MCTS).unwrap();
    let at = |id: usize| punter.site_index[&id];
    let from_1 = &punter.shortest_paths[0];
    let from_5 = &punter.shortest_paths[1];
    assert_eq!(from_1[at(1)], 0);
    assert_eq!(from_1[at(3)], 1);
    assert_eq!(from_1[at(7)], 1);
    assert_eq!(from_1[at(5)], 2);
    assert_eq!(from_1[at(6)], 2);
    assert_eq!(from_5[at(5)], 0);
    assert_eq!(from_5[at(3)], 1);
    assert_eq!(from_5[at(0)], 2);
    assert_eq!(from_5[at(2)], 2);
    assert!(from_1.iter().all(|d| *d != UNREACHED));
}

#[test]
fn distances_grow_by_at_most_one_along_a_river() {
    let punter = Punter::new(sample_input(), PunterType::MCTS).unwrap();
    for row in &punter.shortest_paths {
        for river in &punter.input.map.rivers {
            let (u, v) = (row[river.source_idx], row[river.target_idx]);
            assert!(u <= v + 1 && v <= u + 1);
        }
    }
}

#[test]
fn incidence_lists_are_ordered_by_the_far_end() {
    let punter = Punter::new(sample_input(), PunterType::MCTS).unwrap();
    let at_3 = &punter.edges[punter.site_index[&3]];
    let far: Vec<usize> = at_3
        .iter()
        .map(|r| punter.input.map.rivers[*r].other_index(punter.site_index[&3]))
        .collect();
    // Site 3 touches the sites 4, 2, 1 and 5, at the positions 0, 7, 2 and 5.
    assert_eq!(far, vec![0, 2, 5, 7]);
    assert_eq!(at_3, &vec![0, 3, 6, 2]);
}

#[test]
fn a_loop_is_listed_twice_at_its_site() {
    let punter =
        Punter::new(input_of(&[10, 20], &[(10, 10), (10, 20)], &[10]), PunterType::Random).unwrap();
    assert_eq!(punter.edges[0], vec![0, 0, 1]);
    assert_eq!(punter.edges[1], vec![1]);
}

#[test]
fn unreachable_sites_keep_the_sentinel() {
    let punter =
        Punter::new(input_of(&[1, 2, 3, 4], &[(1, 2), (3, 4)], &[1]), PunterType::Random).unwrap();
    assert_eq!(punter.shortest_paths[0], vec![0, 1, UNREACHED, UNREACHED]);
}

#[test]
fn site_index_maps_identifiers_to_positions() {
    let sites: Vec<Site> = [9, 3, 27].iter().map(|id| Site { id: *id }).collect();
    let index = index_sites(&sites).unwrap();
    assert_eq!(index.len(), 3);
    assert_eq!(index[&9], 0);
    assert_eq!(index[&3], 1);
    assert_eq!(index[&27], 2);
}

#[test]
fn duplicate_site_is_refused() {
    let mut input = sample_input();
    input.map.sites.push(Site { id: 4 });
    assert_eq!(Punter::new(input, PunterType::Random).err(), Some(SetupError::DuplicateSite));
}

#[test]
fn unknown_endpoint_is_refused() {
    let mut input = sample_input();
    input.map.rivers.push(River::new(1, 99));
    assert_eq!(Punter::new(input, PunterType::Random).err(), Some(SetupError::UnknownEndpoint));
}

#[test]
fn unknown_mine_is_refused() {
    let mut input = sample_input();
    input.map.mines.push(99);
    assert_eq!(Punter::new(input, PunterType::Random).err(), Some(SetupError::UnknownMine));
}

#[test]
fn punter_beyond_the_count_is_refused() {
    let mut input = sample_input();
    input.punter = 2;
    assert_eq!(Punter::new(input, PunterType::Random).err(), Some(SetupError::NoSuchPunter));
}

#[test]
fn rent_without_owner_is_refused() {
    let mut input = sample_input();
    input.map.rivers[2].renter = Some(0);
    assert_eq!(Punter::new(input, PunterType::Random).err(), Some(SetupError::OwnershipConflict));
}

#[test]
fn rent_by_the_owner_is_refused() {
    let mut input = sample_input();
    input.map.rivers[2].owner = Some(0);
    input.map.rivers[2].renter = Some(0);
    assert_eq!(Punter::new(input, PunterType::Random).err(), Some(SetupError::OwnershipConflict));
}

#[test]
fn a_map_whose_scores_overflow_is_refused() {
    let mut input = sample_input();
    input.punters = usize::MAX;
    assert_eq!(Punter::new(input, PunterType::Random).err(), Some(SetupError::TooLarge));
}

#[test]
fn the_first_fault_is_reported() {
    let mut input = sample_input();
    input.map.sites.push(Site { id: 4 });
    input.map.mines.push(99);
    input.punter = 7;
    assert_eq!(Punter::new(input, PunterType::Random).err(), Some(SetupError::DuplicateSite));
}

#[test]
fn holders_survive_the_setup() {
    let mut input = sample_input();
    input.map.rivers[6].owner = Some(0);
    input.map.rivers[6].renter = Some(1);
    let punter = Punter::new(input, PunterType::Random).unwrap();
    assert_eq!(punter.input.map.rivers[6].owner, Some(0));
    assert_eq!(punter.input.map.rivers[6].renter, Some(1));
}

#[test]
fn default_settings_switch_everything_off() {
    let settings = Settings::default();
    assert!(!settings.futures && !settings.splurges && !settings.options);
}
