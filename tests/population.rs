use sir::person::{Person, PersonState};
use sir::population::{record_infections, Population};
use sir::virus::{Virus, PROBABILITY_SCALE};

/// Lattice units per unit of length, fine enough that a random step is
/// almost never zero.
const UNIT: u32 = 1_000_000;

#[test]
fn correct_amount_of_boxes_is_made() {
    let population = Population::new(100, 100, 10, 5);
    let (columns, rows) = population.grid_size();
    assert_eq!(columns, 10);
    for i in 0..10 {
        assert_eq!(population.cell_people(i, 4).len(), 0);
        assert_eq!(rows, 5);
    }
}

#[test]
fn updating_positions_everybody_in_different_location() {
    let mut population = Population::new(100 * UNIT, 100 * UNIT, 10, 5);
    for index in 0..100 {
        population.add(Person::new(index * UNIT, index * UNIT, index as usize));
    }
    population.update_positions(10 * UNIT);
    for person in population.iter() {
        let id = person.get_id() as u32;
        assert!(person.position.x != id * UNIT && person.position.y != id * UNIT);
    }
}

#[test]
fn updating_positions_everybody_in_correct_boxes() {
    let mut population = Population::new(100 * UNIT, 100 * UNIT, 10, 5);
    for index in 0..100 {
        population.add(Person::new(index * UNIT, index * UNIT, index as usize));
    }
    population.update_positions(10 * UNIT);
    let (columns, rows) = population.grid_size();
    for row in 0..columns {
        for col in 0..rows {
            for person in population.cell_people(row, col).iter() {
                let (x, y) = population.get_indexes(person.position.x, person.position.y);
                assert_eq!(x, row);
                assert_eq!(y, col);
            }
        }
    }
}

#[test]
fn people_are_added_to_correct_box() {
    let mut population = Population::new(100, 100, 10, 10);
    let person = Person::new(12, 23, 1);
    population.add(person);
    assert_eq!(population.cell_people(1, 2).len(), 1);
}

#[test]
fn iterator_through_all_persons() {
    let mut population = Population::new(100, 100, 10, 10);
    population.add(Person::new(12, 23, 1));
    population.add(Person::new(32, 13, 0));
    let mut found = [false, false];
    for person in population.iter() {
        found[person.get_id()] = true;
    }
    assert!(found[0]);
    assert!(found[1]);
}

#[test]
fn get_iterator_of_correct_box_with_wrapping() {
    // A grid of 2x2 with a single person in each cell.
    let mut population = Population::new(10, 10, 2, 2);
    population.add(Person::new(2, 2, 0));
    population.add(Person::new(7, 2, 1));
    population.add(Person::new(2, 7, 2));
    population.add(Person::new(7, 7, 3));
    assert_eq!(population.people_from(0, 0).iter().next().unwrap().get_id(), 0);
    assert_eq!(population.people_from(1, 0).iter().next().unwrap().get_id(), 1);
    assert_eq!(population.people_from(0, 1).iter().next().unwrap().get_id(), 2);
    assert_eq!(population.people_from(1, 1).iter().next().unwrap().get_id(), 3);
    assert_eq!(population.people_from(-1, -1).iter().next().unwrap().get_id(), 3);
    assert_eq!(population.people_from(3, 3).iter().next().unwrap().get_id(), 3);
}

#[test]
fn population_infect_closeby_users() {
    let mut virus = Virus::corona();
    virus.distance = 5;
    virus.infection_rate = PROBABILITY_SCALE;
    let mut population = Population::new(10, 10, 2, 2);
    let mut infected_person = Person::new(2, 2, 0);
    infected_person.infect(virus);
    population.add(infected_person);
    population.add(Person::new(3, 2, 1));
    population.add(Person::new(2, 3, 2));
    population.add(Person::new(7, 7, 3));
    population.infect_closeby();
    let mut count = 0;
    for person in population.iter() {
        if let PersonState::Infectious(_virus) = person.get_state() {
            count += 1;
        }
    }
    assert_eq!(count, 3);
}

#[test]
fn cell_index_is_position_times_cells_over_width() {
    let population = Population::new(100, 80, 8, 3);
    // 12.5 units per column, 26.67 per row.
    assert_eq!(population.get_indexes(0, 0), (0, 0));
    assert_eq!(population.get_indexes(12, 26), (0, 0));
    assert_eq!(population.get_indexes(13, 27), (1, 1));
    assert_eq!(population.get_indexes(99, 79), (7, 2));
}

#[test]
fn people_from_wraps_far_indices() {
    let mut population = Population::new(10, 10, 2, 2);
    population.add(Person::new(7, 2, 5));
    assert_eq!(population.people_from(-3, 4).len(), 1);
    assert_eq!(population.people_from(5, -2)[0].get_id(), 5);
    assert_eq!(population.people_from(0, 0).len(), 0);
}

#[test]
fn scan_of_a_cell_lists_reached_susceptibles() {
    let mut virus = Virus::corona();
    virus.distance = 5;
    let mut population = Population::new(30, 30, 3, 3);
    let mut sick = Person::new(1, 1, 0);
    sick.infect_with_chance(virus, 0);
    population.add(sick);
    // Across the seam, three units away along x and y: 18 < 25.
    population.add(Person::new(28, 28, 1));
    // Eleven units away: not reached.
    population.add(Person::new(12, 1, 2));
    let hits = population.infections_for_people_within_box(0, 0);
    assert_eq!(hits, vec![(1, virus)]);
    assert!(population.infections_for_people_within_box(2, 2).is_empty());
}

#[test]
fn radius_is_strict() {
    let mut virus = Virus::corona();
    virus.distance = 5;
    virus.infection_rate = PROBABILITY_SCALE;
    let mut population = Population::new(100, 100, 10, 10);
    let mut sick = Person::new(50, 50, 0);
    sick.infect_with_chance(virus, 0);
    population.add(sick);
    // Exactly at the radius: squared distance 25, not below 25.
    population.add(Person::new(55, 50, 1));
    population.add(Person::new(53, 54, 2));
    // Just inside: squared distance 4 * 4 + 2 * 2 = 20.
    population.add(Person::new(46, 48, 3));
    population.infect_closeby();
    for person in population.iter() {
        let infectious = matches!(person.get_state(), PersonState::Infectious(_));
        assert_eq!(infectious, person.get_id() == 0 || person.get_id() == 3, "agent {}", person.get_id());
    }
}

#[test]
fn scan_table_names_each_reached_agent() {
    let mut virus = Virus::corona();
    virus.distance = 3;
    let mut population = Population::new(20, 20, 4, 4);
    let mut sick = Person::new(10, 10, 1);
    sick.infect_with_chance(virus, 0);
    population.add(sick);
    population.add(Person::new(11, 10, 0));
    population.add(Person::new(19, 19, 2));
    let table = population.infect_closeby_single_threaded();
    assert_eq!(table, vec![Some(virus), None, None]);
}

#[test]
fn recording_order_does_not_change_marks() {
    let virus = Virus::corona();
    let batches = vec![vec![(0, virus), (3, virus)], vec![], vec![(2, virus), (9, virus)]];
    let mut forward = vec![None; 5];
    for batch in batches.iter() {
        record_infections(&mut forward, batch);
    }
    let mut backward = vec![None; 5];
    for batch in batches.iter().rev() {
        record_infections(&mut backward, batch);
    }
    let marked = |t: &Vec<Option<Virus>>| t.iter().map(|v| v.is_some()).collect::<Vec<bool>>();
    assert_eq!(marked(&forward), vec![true, false, true, true, false]);
    assert_eq!(marked(&forward), marked(&backward));
}

#[test]
fn update_keeps_every_agent_and_ages_it() {
    let mut population = Population::new(50, 50, 5, 5);
    for index in 0..40u32 {
        population.add(Person::new(index, 49 - index, index as usize));
    }
    population.update_positions(7);
    let people = population.iter();
    assert_eq!(people.len(), 40);
    let mut seen = vec![false; 40];
    for person in people {
        assert_eq!(person.get_age(), 1);
        assert!(person.position.x < 50 && person.position.y < 50);
        seen[person.get_id()] = true;
    }
    assert!(seen.iter().all(|s| *s));
}
