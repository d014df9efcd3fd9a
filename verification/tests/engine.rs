use ant_mania::simulation::Simulation;
use ant_mania::types::{Direction, SimulationConfig};

fn config(num_ants: u16, max_moves: u16, seed: u64) -> SimulationConfig {
    SimulationConfig { max_moves, num_ants, map_file: String::new(), seed: Some(seed) }
}

/// Two colonies A --east--> B, B --west--> A; agent 0 at A, agent 1 at B.
fn collision_setup() -> Simulation {
    let mut sim = Simulation::new(config(2, 10, 1));
    sim.initialize_with_capacity(2);
    sim.set_colony_name(0, b"A".to_vec());
    sim.set_colony_name(1, b"B".to_vec());
    sim.set_neighbor(0, Direction::East, 1);
    sim.set_neighbor(1, Direction::West, 0);
    sim.update_all_valid_directions();
    sim.ant_colonies = vec![0, 1];
    sim.ant_alive = vec![true, true];
    sim.ant_moves = vec![0, 0];
    sim.colony_ant_count = vec![1, 1];
    sim.colony_first_ant = vec![Some(0), Some(1)];
    sim
}

#[test]
fn collision_emits_message_kills_both_and_destroys_colony() {
    let mut sim = collision_setup();
    let mut destructions: Vec<Vec<u8>> = Vec::new();
    sim.move_ant_to_colony(0, 1, &mut destructions);
    assert_eq!(destructions.len(), 1);
    assert_eq!(destructions[0], b"B has been destroyed by ant 0 and ant 1!".to_vec());
    assert!(!sim.ant_alive[0]);
    assert!(!sim.ant_alive[1]);
    assert!(!sim.colony_valid[1]);
    assert_eq!(sim.colony_ant_count[1], 0);
    assert_eq!(sim.colony_first_ant[1], None);
    // A's mask no longer offers east
    assert_eq!(sim.colony_valid_dirs[0], 0);
}

#[test]
fn safe_move_charges_one_turn_and_updates_occupancy() {
    let mut sim = collision_setup();
    // empty B first so that agent 0 arrives without collision
    sim.ant_alive[1] = false;
    sim.colony_ant_count[1] = 0;
    sim.colony_first_ant[1] = None;
    let mut destructions: Vec<Vec<u8>> = Vec::new();
    sim.move_ant_to_colony(0, 1, &mut destructions);
    assert!(destructions.is_empty());
    assert!(sim.ant_alive[0]);
    assert_eq!(sim.ant_colonies[0], 1);
    assert_eq!(sim.ant_moves[0], 1);
    assert_eq!(sim.colony_ant_count[0], 0);
    assert_eq!(sim.colony_ant_count[1], 1);
    assert_eq!(sim.colony_first_ant[1], Some(0));
}

#[test]
fn move_into_destroyed_colony_kills_the_mover() {
    let mut sim = collision_setup();
    sim.ant_alive[1] = false;
    sim.colony_ant_count[1] = 0;
    sim.colony_first_ant[1] = None;
    sim.destroy_colony(1);
    let mut destructions: Vec<Vec<u8>> = Vec::new();
    sim.move_ant_to_colony(0, 1, &mut destructions);
    assert!(destructions.is_empty());
    assert!(!sim.ant_alive[0]);
    assert_eq!(sim.colony_ant_count[0], 0);
}

#[test]
fn trapped_agent_spends_its_whole_budget_in_place() {
    let mut sim = Simulation::new(config(1, 5, 9));
    sim.initialize_with_capacity(1);
    sim.set_colony_name(0, b"Lone".to_vec());
    sim.update_all_valid_directions();
    sim.initialize_ants(1);
    assert_eq!(sim.ant_colonies[0], 0);
    let result = sim.run_simulation();
    assert_eq!(result.iterations, 5);
    assert_eq!(result.total_moves, 5);
    assert!(sim.ant_alive[0]);
    assert_eq!(sim.ant_moves[0], 5);
    assert_eq!(sim.ant_colonies[0], 0);
    assert!(result.destructions.is_empty());
    assert_eq!(result.surviving_colonies, vec![b"Lone".to_vec()]);
}

#[test]
fn destroying_a_colony_recomputes_its_neighbors_masks() {
    let mut sim = Simulation::new(config(0, 10, 1));
    sim.initialize_with_capacity(3);
    sim.set_colony_name(0, b"A".to_vec());
    sim.set_colony_name(1, b"B".to_vec());
    sim.set_colony_name(2, b"C".to_vec());
    sim.set_neighbor(0, Direction::East, 1);
    sim.set_neighbor(1, Direction::West, 0);
    sim.set_neighbor(1, Direction::North, 2);
    sim.set_neighbor(2, Direction::South, 1);
    sim.update_all_valid_directions();
    assert_eq!(sim.colony_valid_dirs[0], 4); // east
    assert_eq!(sim.colony_valid_dirs[1], 8 | 1); // west and north
    assert_eq!(sim.colony_valid_dirs[2], 2); // south
    sim.destroy_colony(1);
    assert!(!sim.colony_valid[1]);
    assert_eq!(sim.colony_valid_dirs[1], 0);
    assert_eq!(sim.colony_valid_dirs[0], 0);
    assert_eq!(sim.colony_valid_dirs[2], 0);
}

#[test]
fn get_neighbor_ignores_destroyed_and_out_of_range_colonies() {
    let mut sim = Simulation::new(config(0, 10, 1));
    sim.initialize_with_capacity(2);
    sim.set_neighbor(0, Direction::North, 1);
    sim.update_all_valid_directions();
    assert_eq!(sim.get_neighbor(0, Direction::North), Some(1));
    assert_eq!(sim.get_neighbor(0, Direction::South), None);
    assert_eq!(sim.get_neighbor(7, Direction::North), None);
    sim.destroy_colony(0);
    assert_eq!(sim.get_neighbor(0, Direction::North), None);
}

#[test]
fn select_random_direction_empty_mask_yields_nothing() {
    let mut sim = Simulation::new(config(0, 10, 1));
    assert_eq!(sim.select_random_direction(0), None);
}

#[test]
fn select_random_direction_single_bit_is_forced() {
    let mut sim = Simulation::new(config(0, 10, 1));
    assert_eq!(sim.select_random_direction(1), Some(Direction::North));
    assert_eq!(sim.select_random_direction(2), Some(Direction::South));
    assert_eq!(sim.select_random_direction(4), Some(Direction::East));
    assert_eq!(sim.select_random_direction(8), Some(Direction::West));
}

#[test]
fn direction_bits_are_north_south_east_west() {
    assert_eq!(Direction::North.as_bit_mask(), 1);
    assert_eq!(Direction::South.as_bit_mask(), 2);
    assert_eq!(Direction::East.as_bit_mask(), 4);
    assert_eq!(Direction::West.as_bit_mask(), 8);
}

#[test]
fn initialize_ants_places_only_on_valid_colonies_and_tallies() {
    let mut sim = Simulation::new(config(10, 10, 77));
    sim.initialize_with_capacity(4);
    for c in 0..4u16 {
        sim.set_colony_name(c, vec![b'a' + c as u8]);
    }
    sim.update_all_valid_directions();
    sim.initialize_ants(10);
    assert_eq!(sim.num_ants(), 10);
    for a in 0..10 {
        assert!(sim.ant_alive[a]);
        assert_eq!(sim.ant_moves[a], 0);
        assert!((sim.ant_colonies[a] as usize) < 4);
    }
    for c in 0..4usize {
        let residents =
            (0..10).filter(|&a| sim.ant_alive[a] && sim.ant_colonies[a] as usize == c).count();
        assert_eq!(sim.colony_ant_count[c] as usize, residents);
    }
}

#[test]
fn initialize_ants_skips_when_no_valid_colony_exists() {
    let mut sim = Simulation::new(config(3, 10, 5));
    sim.initialize_with_capacity(1);
    sim.destroy_colony(0);
    sim.initialize_ants(3);
    assert_eq!(sim.num_ants(), 0);
}

#[test]
fn occupancy_matches_positions_after_every_round() {
    // the occupancy invariant, checked dynamically over whole runs with
    // more agents than colonies, so placements certainly collide
    for seed in [2024u64, 7, 99, 123456] {
        let content = b"A north=B east=C\nB south=A east=D\nC west=A north=D\nD west=B south=C\n"
            .to_vec();
        let mut sim = Simulation::new(config(9, 50, seed));
        sim.parse_map(&content).unwrap();
        sim.initialize_ants(9);
        sim.run_simulation();
        for c in 0..sim.num_colonies() {
            let residents = (0..sim.num_ants())
                .filter(|&a| sim.ant_alive[a] && sim.ant_colonies[a] as usize == c)
                .count();
            if sim.colony_valid[c] {
                assert_eq!(sim.colony_ant_count[c] as usize, residents);
            } else {
                assert_eq!(sim.colony_ant_count[c], 0);
                assert_eq!(sim.colony_first_ant[c], None);
                assert_eq!(sim.colony_valid_dirs[c], 0);
            }
        }
    }
}

#[test]
fn dying_mover_leaves_its_cohabitant_counted() {
    // agents 0 and 1 both stand at A; B is destroyed; agent 0 commits a
    // move into B and dies, evicted from A exactly once
    let mut sim = collision_setup();
    sim.ant_colonies = vec![0, 0];
    sim.colony_ant_count = vec![2, 0];
    sim.colony_first_ant = vec![Some(1), None];
    sim.destroy_colony(1);
    let mut destructions: Vec<Vec<u8>> = Vec::new();
    sim.move_ant_to_colony(0, 1, &mut destructions);
    assert!(destructions.is_empty());
    assert!(!sim.ant_alive[0]);
    assert!(sim.ant_alive[1]);
    assert_eq!(sim.colony_ant_count[0], 1);
}

#[test]
fn colliding_mover_leaves_its_cohabitant_counted() {
    // agents 0 and 1 at A, agent 2 at B; agent 0 collides into B; the
    // cohabitant left behind at A stays counted
    let mut sim = Simulation::new(config(3, 10, 1));
    sim.initialize_with_capacity(2);
    sim.set_colony_name(0, b"A".to_vec());
    sim.set_colony_name(1, b"B".to_vec());
    sim.set_neighbor(0, Direction::East, 1);
    sim.set_neighbor(1, Direction::West, 0);
    sim.update_all_valid_directions();
    sim.ant_colonies = vec![0, 0, 1];
    sim.ant_alive = vec![true, true, true];
    sim.ant_moves = vec![0, 0, 0];
    sim.colony_ant_count = vec![2, 1];
    sim.colony_first_ant = vec![Some(1), Some(2)];
    let mut destructions: Vec<Vec<u8>> = Vec::new();
    sim.move_ant_to_colony(0, 1, &mut destructions);
    assert_eq!(destructions, vec![b"B has been destroyed by ant 0 and ant 2!".to_vec()]);
    assert!(!sim.ant_alive[0]);
    assert!(sim.ant_alive[1]);
    assert!(!sim.ant_alive[2]);
    assert!(!sim.colony_valid[1]);
    assert_eq!(sim.colony_ant_count[0], 1);
    assert_eq!(sim.colony_ant_count[1], 0);
}

#[test]
fn every_agent_ends_alive_within_budget_or_dead() {
    let content = b"A north=B east=C\nB south=A\nC west=A\n".to_vec();
    let mut sim = Simulation::new(config(5, 30, 11));
    sim.parse_map(&content).unwrap();
    sim.initialize_ants(5);
    sim.run_simulation();
    assert_eq!(sim.num_ants(), 5);
    for a in 0..5 {
        if sim.ant_alive[a] {
            assert!(sim.ant_moves[a] <= 30);
        }
    }
}

#[test]
fn identical_runs_are_byte_identical() {
    let content = b"A north=B east=C\nB south=A east=D\nC west=A north=D\nD west=B south=C\n"
        .to_vec();
    let mut first_destructions = None;
    let mut first_survivors = None;
    for _ in 0..2 {
        let mut sim = Simulation::new(config(4, 40, 31337));
        sim.parse_map(&content).unwrap();
        sim.initialize_ants(4);
        let result = sim.run_simulation();
        match (&first_destructions, &first_survivors) {
            (None, None) => {
                first_destructions = Some(result.destructions);
                first_survivors = Some(result.surviving_colonies);
            },
            (Some(d), Some(s)) => {
                assert_eq!(d, &result.destructions);
                assert_eq!(s, &result.surviving_colonies);
            },
            _ => unreachable!(),
        }
    }
}

#[test]
fn survivor_lines_come_out_sorted() {
    let mut sim = Simulation::new(config(0, 10, 1));
    sim.initialize_with_capacity(3);
    sim.set_colony_name(0, b"zeta".to_vec());
    sim.set_colony_name(1, b"alpha".to_vec());
    sim.set_colony_name(2, b"mike".to_vec());
    sim.update_all_valid_directions();
    let survivors = sim.get_surviving_colonies();
    assert_eq!(survivors, vec![b"alpha".to_vec(), b"mike".to_vec(), b"zeta".to_vec()]);
}

#[test]
fn run_on_empty_simulation_terminates_at_once() {
    let mut sim = Simulation::new(config(0, 10, 1));
    let result = sim.run_simulation();
    assert_eq!(result.iterations, 1);
    assert_eq!(result.total_moves, 0);
    assert!(result.destructions.is_empty());
    assert!(result.surviving_colonies.is_empty());
}
