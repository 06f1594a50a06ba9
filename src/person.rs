//! One simulated individual: its SIR state machine, position and random source.
use crate::chance::gen_range;
use crate::virus::{Virus, PROBABILITY_SCALE};
use vstd::prelude::*;

verus! {

/// Where an agent stands in the SIR model.
#[derive(Clone, Copy, Debug, PartialEq, Eq, Structural)]
pub enum PersonState {
    Susceptible,
    /// Infectious, carrying the variant that infected this agent.
    Infectious(Virus),
    /// Recovered; the flag tells whether the agent died.
    Recovered(bool),
}

/// A point of the world, in lattice units.
#[derive(Clone, Copy, Debug, PartialEq, Eq, Structural)]
pub struct Location {
    pub x: u32,
    pub y: u32,
}

/// What an agent is, leaving out its random source.
pub struct PersonView {
    pub id: usize,
    pub state: PersonState,
    pub infected_date: u64,
    pub age: u64,
    pub position: Location,
}

/// One simulated individual.
#[derive(Clone, Debug)]
pub struct Person {
    id: usize,
    state: PersonState,
    infected_date: u64,
    pub age: u64,
    pub position: Location,
    rng: rand::rngs::ThreadRng,
}

/// The distance between `a` and `b` on a circle of circumference `dim`:
/// the direct gap or the gap around the seam, whichever is shorter.
pub open spec fn axis_gap(a: int, b: int, dim: int) -> int {
    let d = if a >= b { a - b } else { b - a };
    let e = if d >= dim { d - dim } else { dim - d };
    if d <= e { d } else { e }
}

/// The squared toroidal distance between two points of a `w` by `h` world.
pub open spec fn sq_dist(a: Location, b: Location, w: int, h: int) -> int {
    let gx = axis_gap(a.x as int, b.x as int, w);
    let gy = axis_gap(a.y as int, b.y as int, h);
    gx * gx + gy * gy
}

/// One step of `delta` from `pos` on an axis of length `dim`, folded back once:
/// past the far edge lands on 0, before 0 lands on `dim - 1`.
pub open spec fn wrap_step(pos: int, delta: int, dim: int) -> int {
    let n = pos + delta;
    if n >= dim {
        0
    } else if n < 0 {
        dim - 1
    } else {
        n
    }
}

/// Whether `p` lies in the `w` by `h` world.
pub open spec fn in_world(p: Location, w: int, h: int) -> bool {
    p.x < w && p.y < h
}

impl PersonView {
    pub open spec fn is_dead(self) -> bool {
        self.state == PersonState::Recovered(true)
    }

    /// The agent after an exposure to `virus` with the uniform draw `chance`.
    pub open spec fn infected(self, virus: Virus, chance: u32) -> PersonView {
        if self.state == PersonState::Susceptible && chance <= virus.infection_rate {
            PersonView { state: PersonState::Infectious(virus), infected_date: self.age, ..self }
        } else {
            self
        }
    }

    /// Whether an infection is over once the agent reaches `age`.
    pub open spec fn recovery_due(self, age: int) -> bool {
        match self.state {
            PersonState::Infectious(v) => self.infected_date + v.recovery_time < age,
            _ => false,
        }
    }

    /// The agent one tick older, with the uniform draw `chance` deciding
    /// death if its infection ends now.
    pub open spec fn aged(self, chance: u32) -> PersonView {
        let age = (self.age + 1) as u64;
        let state = match self.state {
            PersonState::Infectious(v) => if self.recovery_due(age as int) {
                PersonState::Recovered(chance < v.mortality_rate)
            } else {
                self.state
            },
            _ => self.state,
        };
        PersonView { age, state, ..self }
    }

    /// The agent after a step of `(dx, dy)` in a `w` by `h` world; the dead
    /// stay where they are.
    pub open spec fn moved(self, dx: int, dy: int, w: int, h: int) -> PersonView {
        if self.is_dead() {
            self
        } else {
            PersonView {
                position: Location {
                    x: wrap_step(self.position.x as int, dx, w) as u32,
                    y: wrap_step(self.position.y as int, dy, h) as u32,
                },
                ..self
            }
        }
    }
}

impl View for Person {
    type V = PersonView;

    closed spec fn view(&self) -> PersonView {
        PersonView {
            id: self.id,
            state: self.state,
            infected_date: self.infected_date,
            age: self.age,
            position: self.position,
        }
    }
}

impl Person {
    /// A susceptible newborn at `(x, y)`.
    pub fn new(x: u32, y: u32, id: usize) -> (p: Person)
        ensures
            p@ == (PersonView {
                id,
                state: PersonState::Susceptible,
                infected_date: 0,
                age: 0,
                position: Location { x, y },
            }),
    {
        Person {
            id,
            state: PersonState::Susceptible,
            infected_date: 0,
            age: 0,
            position: Location { x, y },
            rng: rand::thread_rng(),
        }
    }

    /// A susceptible newborn at a uniformly drawn point of the world.
    pub fn new_random(max_x: u32, max_y: u32, id: usize) -> (p: Person)
        requires
            max_x > 0,
            max_y > 0,
        ensures
            p@.id == id,
            p@.state == PersonState::Susceptible,
            p@.infected_date == 0,
            p@.age == 0,
            in_world(p@.position, max_x as int, max_y as int),
    {
        let mut rng = rand::thread_rng();
        let x = gen_range(&mut rng, 0, max_x as i64) as u32;
        let y = gen_range(&mut rng, 0, max_y as i64) as u32;
        let mut p = Person::new(x, y, id);
        p.rng = rng;
        p
    }

    pub fn get_state(&self) -> (s: PersonState)
        ensures
            s == self@.state,
    {
        self.state
    }

    pub fn get_position(&self) -> (p: Location)
        ensures
            p == self@.position,
    {
        self.position
    }

    pub fn get_age(&self) -> (a: u64)
        ensures
            a == self@.age,
    {
        self.age
    }

    pub fn get_id(&self) -> (id: usize)
        ensures
            id == self@.id,
    {
        self.id
    }

    /// Exposure to `virus`, where `chance` stands for a uniform draw from
    /// `[0, PROBABILITY_SCALE)`.
    pub fn infect_with_chance(&mut self, virus: Virus, chance: u32)
        ensures
            final(self)@ == old(self)@.infected(virus, chance),
    {
        if self.state == PersonState::Susceptible && chance <= virus.infection_rate {
            self.state = PersonState::Infectious(virus);
            self.infected_date = self.age;
        }
    }

    /// Exposure to `virus`: a susceptible agent draws once and catches it when
    /// the draw is at most the infection rate; any other agent is unchanged.
    pub fn infect(&mut self, virus: Virus)
        ensures
            exists|c: u32|
                c < PROBABILITY_SCALE && final(self)@ == #[trigger] old(self)@.infected(virus, c),
    {
        let mut chance: u32 = 0;
        if self.state == PersonState::Susceptible {
            chance = gen_range(&mut self.rng, 0, PROBABILITY_SCALE as i64) as u32;
        }
        self.infect_with_chance(virus, chance);
        assert(final(self)@ == old(self)@.infected(virus, chance));
    }

    /// One tick of ageing, where `chance` stands for a uniform draw from
    /// `[0, PROBABILITY_SCALE)` that decides death if the infection ends now.
    pub fn update_age_with_chance(&mut self, chance: u32)
        requires
            old(self)@.age < u64::MAX,
        ensures
            final(self)@ == old(self)@.aged(chance),
    {
        self.age = self.age + 1;
        if let PersonState::Infectious(v) = self.state {
            if (self.infected_date as u128) + (v.recovery_time as u128) < self.age as u128 {
                self.state = PersonState::Recovered(chance < v.mortality_rate);
            }
        }
    }

    /// One tick of ageing; an agent whose infection ends draws once to decide
    /// whether it dies.
    pub fn update_age(&mut self)
        requires
            old(self)@.age < u64::MAX,
        ensures
            exists|c: u32| c < PROBABILITY_SCALE && final(self)@ == #[trigger] old(self)@.aged(c),
    {
        let mut chance: u32 = 0;
        if let PersonState::Infectious(v) = self.state {
            if (self.infected_date as u128) + (v.recovery_time as u128) < self.age as u128 + 1 {
                chance = gen_range(&mut self.rng, 0, PROBABILITY_SCALE as i64) as u32;
            }
        }
        self.update_age_with_chance(chance);
        assert(final(self)@ == old(self)@.aged(chance));
    }

    /// A step of `(dx, dy)` in a `max_x` by `max_y` world; the dead do not move.
    pub fn move_by(&mut self, dx: i64, dy: i64, max_x: u32, max_y: u32)
        requires
            max_x > 0,
            max_y > 0,
            -(u32::MAX as int) <= dx <= u32::MAX,
            -(u32::MAX as int) <= dy <= u32::MAX,
        ensures
            final(self)@ == old(self)@.moved(dx as int, dy as int, max_x as int, max_y as int),
            in_world(old(self)@.position, max_x as int, max_y as int) || !old(self)@.is_dead()
                ==> in_world(final(self)@.position, max_x as int, max_y as int),
    {
        if self.state == PersonState::Recovered(true) {
            return ;
        }
        let mut new_x: i64 = self.position.x as i64 + dx;
        let mut new_y: i64 = self.position.y as i64 + dy;
        if new_x >= max_x as i64 {
            new_x = 0;
        }
        if new_y >= max_y as i64 {
            new_y = 0;
        }
        if new_x < 0 {
            new_x = max_x as i64 - 1;
        }
        if new_y < 0 {
            new_y = max_y as i64 - 1;
        }
        self.position = Location { x: new_x as u32, y: new_y as u32 };
    }

    /// A random step: each coordinate moves by a uniform draw from
    /// `[-max_speed, max_speed]`, then folds back into the world; the dead
    /// do not move and draw nothing.
    pub fn move_random(&mut self, max_speed: u32, max_x: u32, max_y: u32)
        requires
            max_x > 0,
            max_y > 0,
        ensures
            exists|dx: int, dy: int|
                -max_speed <= dx <= max_speed && -max_speed <= dy <= max_speed && final(self)@
                    == #[trigger] old(self)@.moved(dx, dy, max_x as int, max_y as int),
            in_world(old(self)@.position, max_x as int, max_y as int) || !old(self)@.is_dead()
                ==> in_world(final(self)@.position, max_x as int, max_y as int),
    {
        if self.state == PersonState::Recovered(true) {
            assert(old(self)@.moved(0, 0, max_x as int, max_y as int) == old(self)@);
            return ;
        }
        let s = max_speed as i64;
        let dx = gen_range(&mut self.rng, -s, s + 1);
        let dy = gen_range(&mut self.rng, -s, s + 1);
        self.move_by(dx, dy, max_x, max_y);
        assert(final(self)@ == old(self)@.moved(dx as int, dy as int, max_x as int, max_y as int));
    }

    /// The gap between `x1` and `x2` on an axis of length `width`, the shorter
    /// way round.
    fn min_diff(x1: u32, x2: u32, width: u32) -> (r: u32)
        requires
            x1 < width,
            x2 < width,
        ensures
            r == axis_gap(x1 as int, x2 as int, width as int),
            2 * r <= width,
    {
        let diff_1 = if x1 >= x2 { x1 - x2 } else { x2 - x1 };
        let diff_2 = width - diff_1;
        if diff_1 <= diff_2 { diff_1 } else { diff_2 }
    }

    /// The squared toroidal distance to `other` in a `world_width` by
    /// `world_height` world.
    pub fn sqr_distance(&self, other: &Person, world_width: u32, world_height: u32) -> (r: u64)
        requires
            in_world(self@.position, world_width as int, world_height as int),
            in_world(other@.position, world_width as int, world_height as int),
        ensures
            r == sq_dist(self@.position, other@.position, world_width as int, world_height as int),
    {
        let diff_x = Person::min_diff(self.position.x, other.position.x, world_width) as u64;
        let diff_y = Person::min_diff(self.position.y, other.position.y, world_height) as u64;
        assert(diff_x * diff_x <= 0x4000_0000_0000_0000) by (nonlinear_arith)
            requires diff_x <= 0x8000_0000;
        assert(diff_y * diff_y <= 0x4000_0000_0000_0000) by (nonlinear_arith)
            requires diff_y <= 0x8000_0000;
        diff_x * diff_x + diff_y * diff_y
    }
}

/// Toroidal distance does not depend on which agent is asked.
pub proof fn lemma_distance_symmetric(a: Location, b: Location, w: int, h: int)
    ensures
        sq_dist(a, b, w, h) == sq_dist(b, a, w, h),
{
}

/// Two agents on the same row, at the first and the last column of a world
/// at least two wide, are one unit apart: the seam does not separate them.
pub proof fn lemma_seam_neighbours(a: Location, b: Location, w: int, h: int)
    requires
        w >= 2,
        a.x == 0,
        b.x == w - 1,
        a.y == b.y,
    ensures
        axis_gap(a.x as int, b.x as int, w) == 1,
        sq_dist(a, b, w, h) == 1,
{
    assert(axis_gap(a.y as int, b.y as int, h) == 0);
}

/// Recovery is final: no step of an agent leaves the recovered state, and a
/// dead agent never changes place.
pub proof fn lemma_recovered_is_final(
    p: PersonView,
    virus: Virus,
    chance: u32,
    dx: int,
    dy: int,
    w: int,
    h: int,
)
    requires
        p.state is Recovered,
    ensures
        p.infected(virus, chance).state == p.state,
        p.aged(chance).state == p.state,
        p.moved(dx, dy, w, h).state == p.state,
        p.is_dead() ==> p.infected(virus, chance).position == p.position,
        p.is_dead() ==> p.aged(chance).position == p.position,
        p.is_dead() ==> p.moved(dx, dy, w, h).position == p.position,
{
}

} // verus!
