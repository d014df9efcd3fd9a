use ant_mania::parser::MapError;
use ant_mania::simulation::Simulation;
use ant_mania::types::{Direction, SimulationConfig};

fn fresh() -> Simulation {
    Simulation::new(SimulationConfig {
        max_moves: 10,
        num_ants: 0,
        map_file: String::new(),
        seed: Some(1),
    })
}

#[test]
fn parses_names_and_links() {
    let mut sim = fresh();
    let content = b"A north=B east=C\nB south=A\nC west=A\n".to_vec();
    assert_eq!(sim.parse_map(&content), Ok(()));
    assert_eq!(sim.num_colonies(), 3);
    assert_eq!(sim.colony_names[0], b"A".to_vec());
    assert_eq!(sim.colony_names[1], b"B".to_vec());
    assert_eq!(sim.colony_names[2], b"C".to_vec());
    assert_eq!(sim.colony_north[0], Some(1));
    assert_eq!(sim.colony_east[0], Some(2));
    assert_eq!(sim.colony_south[0], None);
    assert_eq!(sim.colony_south[1], Some(0));
    assert_eq!(sim.colony_west[2], Some(0));
    assert_eq!(sim.colony_valid_dirs[0], 1 | 4);
    assert_eq!(sim.colony_valid_dirs[1], 2);
    assert_eq!(sim.colony_valid_dirs[2], 8);
}

#[test]
fn blank_lines_and_extra_whitespace_are_ignored() {
    let mut sim = fresh();
    let content = b"\n\n  A   east=B  \n\n\tB west=A\n\n".to_vec();
    assert_eq!(sim.parse_map(&content), Ok(()));
    assert_eq!(sim.num_colonies(), 2);
    assert_eq!(sim.colony_names[0], b"A".to_vec());
    assert_eq!(sim.colony_east[0], Some(1));
}

#[test]
fn last_connection_per_direction_wins() {
    let mut sim = fresh();
    let content = b"A east=B east=C\nB west=A\nC west=A\n".to_vec();
    assert_eq!(sim.parse_map(&content), Ok(()));
    assert_eq!(sim.colony_east[0], Some(2));
}

#[test]
fn connection_without_equals_is_rejected() {
    let mut sim = fresh();
    let content = b"A north\n".to_vec();
    assert_eq!(sim.parse_map(&content), Err(MapError::InvalidConnection(b"north".to_vec())));
}

#[test]
fn unrecognized_direction_is_rejected() {
    let mut sim = fresh();
    let content = b"A up=B\nB south=A\n".to_vec();
    assert_eq!(sim.parse_map(&content), Err(MapError::InvalidDirection(b"up".to_vec())));
}

#[test]
fn duplicate_colony_is_rejected() {
    let mut sim = fresh();
    let content = b"A north=B\nB south=A\nA east=B\n".to_vec();
    assert_eq!(sim.parse_map(&content), Err(MapError::DuplicateColony(b"A".to_vec())));
}

#[test]
fn unknown_neighbor_is_rejected() {
    let mut sim = fresh();
    let content = b"A north=Nowhere\n".to_vec();
    assert_eq!(sim.parse_map(&content), Err(MapError::UnknownNeighbor(b"Nowhere".to_vec())));
}

#[test]
fn syntax_errors_outrank_name_errors() {
    let mut sim = fresh();
    // both a duplicate name and a malformed token: the malformed token is
    // found during the reading pass and wins
    let content = b"A north=B\nA bogus\n".to_vec();
    assert_eq!(sim.parse_map(&content), Err(MapError::InvalidConnection(b"bogus".to_vec())));
}

#[test]
fn empty_input_is_an_empty_map() {
    let mut sim = fresh();
    let content = b"".to_vec();
    assert_eq!(sim.parse_map(&content), Ok(()));
    assert_eq!(sim.num_colonies(), 0);
}

#[test]
fn map_without_trailing_newline_parses() {
    let mut sim = fresh();
    let content = b"A east=B\nB west=A".to_vec();
    assert_eq!(sim.parse_map(&content), Ok(()));
    assert_eq!(sim.num_colonies(), 2);
    assert_eq!(sim.colony_west[1], Some(0));
}

#[test]
fn survivor_list_reparses_to_the_same_survivors() {
    // round trip: the survivor list of a completed run, read as a fresh
    // map, must reproduce exactly the surviving colonies and links
    let content = b"A north=B east=C\nB south=A east=D\nC west=A north=D\nD west=B south=C\n"
        .to_vec();
    let mut sim = Simulation::new(SimulationConfig {
        max_moves: 60,
        num_ants: 4,
        map_file: String::new(),
        seed: Some(97),
    });
    sim.parse_map(&content).unwrap();
    sim.initialize_ants(4);
    let result = sim.run_simulation();
    let mut rejoined: Vec<u8> = Vec::new();
    for line in &result.surviving_colonies {
        rejoined.extend_from_slice(line);
        rejoined.push(b'\n');
    }
    let mut reparsed = fresh();
    assert_eq!(reparsed.parse_map(&rejoined), Ok(()));
    let survivors_again = reparsed.get_surviving_colonies();
    assert_eq!(survivors_again, result.surviving_colonies);
}

#[test]
fn one_directional_links_are_kept_as_declared() {
    let mut sim = fresh();
    let content = b"A north=B\nB east=A\n".to_vec();
    assert_eq!(sim.parse_map(&content), Ok(()));
    assert_eq!(sim.colony_north[0], Some(1));
    assert_eq!(sim.colony_south[1], None);
    assert_eq!(sim.colony_east[1], Some(0));
}

#[test]
fn self_links_are_allowed_by_the_format() {
    let mut sim = fresh();
    let content = b"A north=A\n".to_vec();
    assert_eq!(sim.parse_map(&content), Ok(()));
    assert_eq!(sim.colony_north[0], Some(0));
    assert_eq!(sim.colony_valid_dirs[0], 1);
}

#[test]
fn collision_scenario_from_a_parsed_map() {
    // the collision exercised end to end: two agents seeded so that both
    // colonies hold one, then one commits a move into the other
    let content = b"A east=B\nB west=A\n".to_vec();
    let mut sim = fresh();
    sim.parse_map(&content).unwrap();
    sim.ant_colonies = vec![0, 1];
    sim.ant_alive = vec![true, true];
    sim.ant_moves = vec![0, 0];
    sim.colony_ant_count = vec![1, 1];
    sim.colony_first_ant = vec![Some(0), Some(1)];
    let mut destructions: Vec<Vec<u8>> = Vec::new();
    sim.move_ant_to_colony(0, 1, &mut destructions);
    assert_eq!(
        String::from_utf8(destructions[0].clone()).unwrap(),
        "B has been destroyed by ant 0 and ant 1!"
    );
    // the link to B survives as data, but B is tombstoned and A's mask
    // no longer offers east
    assert_eq!(sim.get_neighbor(0, Direction::East), Some(1));
    assert!(!sim.colony_valid[1]);
    assert_eq!(sim.colony_valid_dirs[0], 0);
}
