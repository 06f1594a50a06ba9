use sir::person::{Location, Person, PersonState};
use sir::virus::{Virus, PROBABILITY_SCALE};

fn deadly_virus() -> Virus {
    Virus { distance: 1, recovery_time: 0, infection_rate: PROBABILITY_SCALE, mortality_rate: PROBABILITY_SCALE }
}

#[test]
fn dead_people_dont_move() {
    let mut person = Person::new(10, 10, 1);
    person.infect_with_chance(deadly_virus(), 0);
    person.update_age_with_chance(0);
    assert_eq!(person.get_state(), PersonState::Recovered(true));
    for _ in 0..10 {
        person.move_random(10, 100, 100);
        assert_eq!(person.position.x, 10);
        assert_eq!(person.position.y, 10);
    }
}

#[test]
fn distance_is_symmetric() {
    let a = Person::new(3, 97, 0);
    let b = Person::new(88, 4, 1);
    assert_eq!(a.sqr_distance(&b, 100, 100), b.sqr_distance(&a, 100, 100));
    // Gaps of 15 (round the seam) and 7 (round the seam).
    assert_eq!(a.sqr_distance(&b, 100, 100), 15 * 15 + 7 * 7);
}

#[test]
fn seam_neighbours_are_one_apart() {
    let a = Person::new(0, 40, 0);
    let b = Person::new(99, 40, 1);
    assert_eq!(a.sqr_distance(&b, 100, 100), 1);
    assert_eq!(b.sqr_distance(&a, 100, 100), 1);
}

#[test]
fn distance_takes_the_direct_gap_when_shorter() {
    let a = Person::new(10, 20, 0);
    let b = Person::new(13, 24, 1);
    assert_eq!(a.sqr_distance(&b, 100, 100), 25);
}

#[test]
fn infection_happens_up_to_the_rate() {
    let mut virus = Virus::corona();
    virus.infection_rate = 300_000;
    let mut caught = Person::new(1, 1, 0);
    caught.age = 7;
    caught.infect_with_chance(virus, 300_000);
    assert_eq!(caught.get_state(), PersonState::Infectious(virus));
    let mut spared = Person::new(1, 1, 1);
    spared.infect_with_chance(virus, 300_001);
    assert_eq!(spared.get_state(), PersonState::Susceptible);
}

#[test]
fn infection_needs_a_susceptible_agent() {
    let virus = deadly_virus();
    let mut person = Person::new(1, 1, 0);
    person.infect_with_chance(virus, 0);
    person.update_age_with_chance(PROBABILITY_SCALE - 1);
    assert_eq!(person.get_state(), PersonState::Recovered(true));
    person.infect(virus);
    assert_eq!(person.get_state(), PersonState::Recovered(true));
}

#[test]
fn certain_infection_always_takes() {
    let mut virus = Virus::corona();
    virus.infection_rate = PROBABILITY_SCALE;
    for id in 0..50 {
        let mut person = Person::new(0, 0, id);
        person.infect(virus);
        assert_eq!(person.get_state(), PersonState::Infectious(virus));
    }
}

#[test]
fn recovery_comes_after_the_recovery_time() {
    let mut virus = Virus::corona();
    virus.recovery_time = 2;
    virus.mortality_rate = 0;
    let mut person = Person::new(0, 0, 0);
    person.infect_with_chance(virus, 0);
    person.update_age_with_chance(0);
    person.update_age_with_chance(0);
    assert_eq!(person.get_state(), PersonState::Infectious(virus));
    person.update_age_with_chance(0);
    assert_eq!(person.get_state(), PersonState::Recovered(false));
    assert_eq!(person.get_age(), 3);
}

#[test]
fn mortality_draw_is_strict() {
    let mut virus = Virus::corona();
    virus.recovery_time = 0;
    virus.mortality_rate = 50_000;
    let mut dies = Person::new(0, 0, 0);
    dies.infect_with_chance(virus, 0);
    dies.update_age_with_chance(49_999);
    assert_eq!(dies.get_state(), PersonState::Recovered(true));
    let mut lives = Person::new(0, 0, 1);
    lives.infect_with_chance(virus, 0);
    lives.update_age_with_chance(50_000);
    assert_eq!(lives.get_state(), PersonState::Recovered(false));
}

#[test]
fn steps_fold_back_once_at_the_edges() {
    let mut person = Person::new(95, 3, 0);
    person.move_by(10, -5, 100, 50);
    assert_eq!(person.get_position(), Location { x: 0, y: 49 });
    person.move_by(7, 20, 100, 50);
    assert_eq!(person.get_position(), Location { x: 7, y: 0 });
    person.move_by(-2, 30, 100, 50);
    assert_eq!(person.get_position(), Location { x: 5, y: 30 });
}

#[test]
fn random_steps_stay_within_speed_and_world() {
    let mut moved = false;
    for _ in 0..200 {
        let mut person = Person::new(50, 50, 0);
        let before = person.get_position();
        person.move_random(3, 100, 100);
        let after = person.get_position();
        assert!((after.x as i64 - before.x as i64).abs() <= 3);
        assert!((after.y as i64 - before.y as i64).abs() <= 3);
        moved |= after != before;
    }
    assert!(moved);
}

#[test]
fn random_placement_spreads_agents() {
    let mut spots = Vec::new();
    for id in 0..20 {
        let person = Person::new_random(1000, 1000, id);
        assert!(person.position.x < 1000 && person.position.y < 1000);
        assert_eq!(person.get_state(), PersonState::Susceptible);
        spots.push(person.get_position());
    }
    assert!(spots.iter().any(|s| *s != spots[0]));
}

#[test]
fn corona_parameters() {
    let virus = Virus::corona();
    assert_eq!(virus.distance, 10);
    assert_eq!(virus.recovery_time, 100);
    assert_eq!(virus.infection_rate, 700_000);
    assert_eq!(virus.mortality_rate, 50_000);
    assert!(virus.is_valid());
    let mut broken = virus;
    broken.mortality_rate = PROBABILITY_SCALE + 1;
    assert!(!broken.is_valid());
}
