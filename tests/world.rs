use sir::person::PersonState;
use sir::virus::{Virus, PROBABILITY_SCALE};
use sir::world::{PopulationDistribution, World, WorldError};

/// Lattice units per unit of length, fine enough that steps look continuous.
const UNIT: u32 = 1_000_000;

#[test]
fn world_update_move_speed() {
    let mut virus = Virus::corona();
    virus.distance *= UNIT;
    let mut world = World::new(1, 100 * UNIT, 100 * UNIT, virus, PopulationDistribution::Random).unwrap();
    world.config(15 * UNIT);
    let mut person = world.people()[0].clone();
    let mut max_move: u64 = 0;
    for _ in 1..10000 {
        world.update();
        let dist = person.sqr_distance(world.people()[0], 100 * UNIT, 100 * UNIT);
        if dist > max_move {
            max_move = dist;
        }
        person = world.people()[0].clone();
    }
    // There is a random factor in here.
    let unit_squared = (UNIT as u64) * (UNIT as u64);
    assert!(max_move < 450 * unit_squared && max_move > 400 * unit_squared);
}

#[test]
fn world_infect_closeby_users() {
    // A grid with 1 person infected; the next steps should be 5 -> 13 -> 25.
    let mut virus = Virus::corona();
    // Each step, infect all neighbours.
    virus.distance = 12;
    let expected_infected = [1, 5, 13, 25];
    virus.infection_rate = PROBABILITY_SCALE;
    let mut world = World::new(100, 100, 100, virus, PopulationDistribution::Grid).unwrap();
    world.config(0);
    for index in 0..4 {
        let mut count = 0;
        for person in world.people() {
            if let PersonState::Infectious(_) = person.get_state() {
                count += 1;
            }
        }
        assert_eq!(expected_infected[index], count);
        world.update();
    }
}

#[test]
fn world_reports_its_size() {
    let virus = Virus::corona();
    let world = World::new(1, 128, 256, virus, PopulationDistribution::Random).unwrap();
    assert_eq!(world.get_width(), 128);
    let world = World::new(1, 128, 256, virus, PopulationDistribution::Grid).unwrap();
    assert_eq!(world.get_height(), 256);
}

#[test]
fn construction_errors() {
    let virus = Virus::corona();
    assert_eq!(World::new(0, 10, 10, virus, PopulationDistribution::Grid).err(), Some(WorldError::EmptyPopulation));
    assert_eq!(World::new(3, 0, 10, virus, PopulationDistribution::Grid).err(), Some(WorldError::EmptyWorld));
    assert_eq!(World::new(3, 10, 0, virus, PopulationDistribution::Random).err(), Some(WorldError::EmptyWorld));
    let mut no_radius = virus;
    no_radius.distance = 0;
    assert_eq!(World::new(3, 10, 10, no_radius, PopulationDistribution::Grid).err(), Some(WorldError::InvalidVirus));
    let mut too_likely = virus;
    too_likely.infection_rate = PROBABILITY_SCALE + 1;
    assert_eq!(World::new(3, 10, 10, too_likely, PopulationDistribution::Grid).err(), Some(WorldError::InvalidVirus));
}

#[test]
fn patient_zero_starts_infectious() {
    let mut virus = Virus::corona();
    virus.infection_rate = 0;
    let world = World::new(9, 30, 30, virus, PopulationDistribution::Random).unwrap();
    let stats = world.get_stats();
    assert_eq!((stats.susceptable, stats.infected, stats.recovered), (8, 1, 0));
    for person in world.people() {
        assert_eq!(person.get_state() == PersonState::Infectious(virus), person.get_id() == 0);
    }
}

#[test]
fn lattice_layout_positions() {
    // Seven agents: three to a row, three rows, 10 by 9 units apart.
    let world = World::new(7, 30, 27, Virus::corona(), PopulationDistribution::Grid).unwrap();
    let mut spots = vec![(0, 0); 7];
    for person in world.people() {
        spots[person.get_id()] = (person.position.x, person.position.y);
    }
    assert_eq!(spots, vec![(0, 0), (10, 0), (20, 0), (0, 9), (10, 9), (20, 9), (0, 18)]);
}

#[test]
fn counts_add_up_after_every_tick() {
    let mut virus = Virus::corona();
    virus.recovery_time = 3;
    virus.mortality_rate = 500_000;
    virus.infection_rate = PROBABILITY_SCALE;
    let mut world = World::new(60, 40, 40, virus, PopulationDistribution::Random).unwrap();
    world.config(2);
    for _ in 0..30 {
        world.update();
        let stats = world.get_stats();
        assert_eq!(stats.susceptable + stats.infected + stats.recovered, 60);
        assert_eq!(world.people().len(), 60);
    }
    assert_eq!(world.get_ticks(), 30);
}

#[test]
fn recovered_stay_recovered_and_dead_stay_put() {
    let mut virus = Virus::corona();
    virus.recovery_time = 0;
    virus.mortality_rate = PROBABILITY_SCALE;
    let mut world = World::new(1, 50, 50, virus, PopulationDistribution::Grid).unwrap();
    world.config(5);
    world.update();
    assert_eq!(world.people()[0].get_state(), PersonState::Recovered(true));
    let spot = world.people()[0].get_position();
    for _ in 0..20 {
        world.update();
        assert_eq!(world.people()[0].get_state(), PersonState::Recovered(true));
        assert_eq!(world.people()[0].get_position(), spot);
    }
}

#[test]
fn distant_agents_stay_healthy() {
    let mut virus = Virus::corona();
    virus.distance = 3;
    virus.infection_rate = PROBABILITY_SCALE;
    // Two agents on one lattice row, at x = 0 and x = 25: 25 apart either
    // way round, out of reach.
    let mut world = World::new(2, 50, 50, virus, PopulationDistribution::Grid).unwrap();
    world.config(0);
    world.update();
    assert_eq!(world.get_stats().infected, 1);
}
