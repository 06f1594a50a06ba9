//! The simulation: a grid of agents, a virus, and the tick that drives them.
use crate::person::{in_world, lemma_recovered_is_final, sq_dist, Location, Person, PersonState, PersonView};
use crate::population::{deref_all, lemma_scan_finds_close_agents, stepped, Population};
use crate::virus::{Virus, PROBABILITY_SCALE};
use vstd::prelude::*;

verus! {

/// The largest number of grid cells along either axis.
pub const MAX_GRID_CELLS: u32 = 1000;

/// How agents are placed when a world is created.
#[derive(Clone, Copy, Debug, PartialEq, Eq, Structural)]
pub enum PopulationDistribution {
    /// Each agent at a uniformly drawn point.
    Random,
    /// Agents in row-major order on a regular lattice that covers the world.
    Grid,
}

/// Why a world cannot be created.
#[derive(Clone, Copy, Debug, PartialEq, Eq, Structural)]
pub enum WorldError {
    /// A world needs at least one agent.
    EmptyPopulation,
    /// A world needs a positive width and height.
    EmptyWorld,
    /// The virus's radius is zero or one of its rates is not a probability.
    InvalidVirus,
}

/// How many agents are in each state.
#[derive(Clone, Copy, Debug, PartialEq, Eq, Structural)]
pub struct Stats {
    pub susceptable: usize,
    pub infected: usize,
    pub recovered: usize,
}

/// The number of susceptible agents in `s`.
pub open spec fn count_susceptible(s: Seq<Person>) -> nat
    decreases s.len(),
{
    if s.len() == 0 {
        0
    } else {
        count_susceptible(s.drop_last()) + if s.last()@.state is Susceptible { 1nat } else { 0nat }
    }
}

/// The number of infectious agents in `s`.
pub open spec fn count_infectious(s: Seq<Person>) -> nat
    decreases s.len(),
{
    if s.len() == 0 {
        0
    } else {
        count_infectious(s.drop_last()) + if s.last()@.state is Infectious { 1nat } else { 0nat }
    }
}

/// The number of recovered agents in `s`, dead or alive.
pub open spec fn count_recovered(s: Seq<Person>) -> nat
    decreases s.len(),
{
    if s.len() == 0 {
        0
    } else {
        count_recovered(s.drop_last()) + if s.last()@.state is Recovered { 1nat } else { 0nat }
    }
}

/// The smallest `g` from `from` on whose square reaches `n`.
pub open spec fn ceil_sqrt_from(from: nat, n: nat) -> nat
    decreases n - from,
{
    if from * from >= n || from >= n {
        from
    } else {
        ceil_sqrt_from(from + 1, n)
    }
}

/// The side of the smallest square lattice with room for `n` agents.
pub open spec fn ceil_sqrt(n: nat) -> nat {
    ceil_sqrt_from(0, n)
}

/// Where the lattice layout puts agent `index` of `n` in a `w` by `h` world:
/// `ceil(sqrt(n))` agents to a row, as many rows as that takes, spread evenly.
pub open spec fn lattice_spot(index: int, n: int, w: int, h: int) -> Location {
    let per_row = ceil_sqrt(n as nat) as int;
    let rows = (n + per_row - 1) / per_row;
    Location { x: ((index % per_row) * (w / per_row)) as u32, y: ((index / per_row) * (h / rows)) as u32 }
}

/// The number of grid cells along an axis of length `dim` for cells of side
/// `radius`: `dim / radius`, at least 1 and at most `MAX_GRID_CELLS`.
pub open spec fn cells_for(dim: int, radius: int) -> int {
    let n = dim / radius;
    if n < 1 {
        1
    } else if n > MAX_GRID_CELLS {
        MAX_GRID_CELLS as int
    } else {
        n
    }
}

/// A tick of an agent's life in a world: its step, then possibly an exposure.
pub open spec fn ticked(p: PersonView, q: PersonView, speed: int, w: int, h: int) -> bool {
    exists|r: PersonView|
        #[trigger] stepped(p, r, speed, w, h) && (q == r || exists|v: Virus, c: u32|
            c < PROBABILITY_SCALE && q == #[trigger] r.infected(v, c))
}

/// Whether `q` is a tick of some agent of `prev`.
pub open spec fn has_ancestor(prev: Population, q: PersonView, speed: int, w: int, h: int) -> bool {
    exists|a: int, b: int, m: int|
        prev.valid_cell(a, b) && 0 <= m < prev.cell(a, b).len() && ticked(
            (#[trigger] prev.cell(a, b)[m])@,
            q,
            speed,
            w,
            h,
        )
}

/// Every agent of `next` is a tick of some agent of `prev`.
pub open spec fn descends(prev: Population, next: Population, speed: int, w: int, h: int) -> bool {
    forall|i: int, j: int, k: int|
        next.valid_cell(i, j) && 0 <= k < next.cell(i, j).len() ==> has_ancestor(
            prev,
            (#[trigger] next.cell(i, j)[k])@,
            speed,
            w,
            h,
        )
}

/// A simulated world: agents on a wraparound plane, bucketed in a grid.
pub struct World {
    width: u32,
    height: u32,
    move_speed: u32,
    virus: Virus,
    ticks: u64,
    size: usize,
    population: Population,
}

impl World {
    pub closed spec fn width(&self) -> int {
        self.width as int
    }

    pub closed spec fn height(&self) -> int {
        self.height as int
    }

    pub closed spec fn move_speed(&self) -> int {
        self.move_speed as int
    }

    pub closed spec fn virus(&self) -> Virus {
        self.virus
    }

    /// The number of ticks run so far.
    pub closed spec fn ticks(&self) -> int {
        self.ticks as int
    }

    /// The number of agents, fixed when the world is created.
    pub closed spec fn size(&self) -> int {
        self.size as int
    }

    /// The grid of agents.
    pub closed spec fn population(&self) -> Population {
        self.population
    }

    /// The grid is well formed, covers the world, holds `size` agents, and
    /// every agent is as old as the world.
    pub closed spec fn wf(&self) -> bool {
        &&& self.population.wf()
        &&& self.population.width() == self.width
        &&& self.population.height() == self.height
        &&& self.population.size() == self.size
        &&& self.size >= 1
        &&& self.virus.wf()
        &&& self.population.fits_radius(self.virus.distance as int)
        &&& forall|i: int, j: int, k: int|
            self.population.valid_cell(i, j) && 0 <= k < self.population.cell(i, j).len() ==> {
                let p = (#[trigger] self.population.cell(i, j)[k])@;
                &&& p.age == self.ticks
                &&& p.state is Infectious ==> p.state == PersonState::Infectious(self.virus)
            }
    }

    /// Creates a world of `population_size` agents in a `width` by `height`
    /// plane, placed as `distribution` says; the agent with id 0 starts
    /// infectious with `virus`, the others susceptible. The grid's cells are
    /// about as wide as the virus's radius.
    pub fn new(
        population_size: usize,
        width: u32,
        height: u32,
        virus: Virus,
        distribution: PopulationDistribution,
    ) -> (r: Result<World, WorldError>)
        ensures
            population_size == 0 ==> r == Err::<World, WorldError>(WorldError::EmptyPopulation),
            population_size > 0 && (width == 0 || height == 0) ==> r == Err::<World, WorldError>(
                WorldError::EmptyWorld,
            ),
            population_size > 0 && width > 0 && height > 0 && !virus.wf() ==> r == Err::<World, WorldError>(
                WorldError::InvalidVirus,
            ),
            population_size > 0 && width > 0 && height > 0 && virus.wf() ==> r is Ok,
            r matches Ok(w) ==> {
                &&& w.wf()
                &&& w.size() == population_size
                &&& w.width() == width
                &&& w.height() == height
                &&& w.virus() == virus
                &&& w.ticks() == 0
                &&& w.population().cols() == cells_for(width as int, virus.distance as int)
                &&& w.population().rows() == cells_for(height as int, virus.distance as int)
                &&& forall|i: int, j: int, k: int|
                    w.population().valid_cell(i, j) && 0 <= k < w.population().cell(i, j).len() ==> {
                        let p = (#[trigger] w.population().cell(i, j)[k])@;
                        &&& p.id < population_size
                        &&& p.age == 0
                        &&& p.state == if p.id == 0 {
                            PersonState::Infectious(virus)
                        } else {
                            PersonState::Susceptible
                        }
                        &&& distribution == PopulationDistribution::Grid ==> p.position == lattice_spot(
                            p.id as int,
                            population_size as int,
                            width as int,
                            height as int,
                        )
                    }
            },
    {
        if population_size == 0 {
            return Err(WorldError::EmptyPopulation);
        }
        if width == 0 || height == 0 {
            return Err(WorldError::EmptyWorld);
        }
        if !virus.is_valid() {
            return Err(WorldError::InvalidVirus);
        }
        let num_grid_width = World::cells_along(width, virus.distance);
        let num_grid_height = World::cells_along(height, virus.distance);
        let mut population = Population::new(width, height, num_grid_width as usize, num_grid_height as usize);
        let per_row = World::lattice_width(population_size);
        let mut index: usize = 0;
        while index < population_size
            invariant
                index <= population_size,
                population.wf(),
                population.width() == width,
                population.height() == height,
                population.cols() == num_grid_width,
                population.rows() == num_grid_height,
                population.size() == index,
                per_row == ceil_sqrt(population_size as nat),
                1 <= per_row <= population_size,
                virus.wf(),
                forall|i: int, j: int, k: int|
                    population.valid_cell(i, j) && 0 <= k < population.cell(i, j).len() ==> {
                        let p = (#[trigger] population.cell(i, j)[k])@;
                        &&& p.id < index
                        &&& p.age == 0
                        &&& p.state == if p.id == 0 {
                            PersonState::Infectious(virus)
                        } else {
                            PersonState::Susceptible
                        }
                        &&& distribution == PopulationDistribution::Grid ==> p.position == lattice_spot(
                            p.id as int,
                            population_size as int,
                            width as int,
                            height as int,
                        )
                    },
            decreases population_size - index,
        {
            let mut person = match distribution {
                PopulationDistribution::Random => Person::new_random(width, height, index),
                PopulationDistribution::Grid => {
                    let spot = World::lattice_position(index, population_size, per_row, width, height);
                    Person::new(spot.x, spot.y, index)
                },
            };
            if index == 0 {
                person.infect_with_chance(virus, 0);
            }
            let ghost before = population;
            population.add(person);
            proof {
                assert forall|i: int, j: int, k: int|
                    population.valid_cell(i, j) && 0 <= k < population.cell(i, j).len() implies {
                        let p = (#[trigger] population.cell(i, j)[k])@;
                        &&& p.id < index + 1
                        &&& p.age == 0
                        &&& p.state == if p.id == 0 {
                            PersonState::Infectious(virus)
                        } else {
                            PersonState::Susceptible
                        }
                        &&& distribution == PopulationDistribution::Grid ==> p.position == lattice_spot(
                            p.id as int,
                            population_size as int,
                            width as int,
                            height as int,
                        )
                    } by {
                    if k < before.cell(i, j).len() {
                        assert(population.cell(i, j)[k] == before.cell(i, j)[k]);
                    }
                }
            }
            index = index + 1;
        }
        Ok(World { width, height, move_speed: 5, virus, ticks: 0, size: population_size, population })
    }

    /// The number of grid cells along an axis of length `dim` for cells of
    /// side `radius`.
    fn cells_along(dim: u32, radius: u32) -> (r: u32)
        requires
            radius > 0,
        ensures
            r == cells_for(dim as int, radius as int),
            1 <= r <= MAX_GRID_CELLS,
            r == 1 || r * radius <= dim,
    {
        let n = dim / radius;
        proof {
            vstd::arithmetic::div_mod::lemma_fundamental_div_mod(dim as int, radius as int);
            vstd::arithmetic::div_mod::lemma_mod_pos_bound(dim as int, radius as int);
            let m = (dim as int) % (radius as int);
            assert(n * radius <= dim) by (nonlinear_arith)
                requires dim == radius * n + m, m >= 0;
        }
        if n < 1 {
            1
        } else if n > MAX_GRID_CELLS {
            proof {
                assert(MAX_GRID_CELLS * radius <= n * radius) by (nonlinear_arith)
                    requires MAX_GRID_CELLS < n, radius > 0;
            }
            MAX_GRID_CELLS
        } else {
            n
        }
    }

    /// The number of agents to a row of the lattice layout: `ceil(sqrt(n))`.
    fn lattice_width(n: usize) -> (r: usize)
        requires
            n >= 1,
        ensures
            r == ceil_sqrt(n as nat),
            1 <= r <= n,
    {
        let mut g: usize = 0;
        let mut found = false;
        while !found && g < n
            invariant
                g <= n,
                ceil_sqrt_from(g as nat, n as nat) == ceil_sqrt(n as nat),
                found ==> g * g >= n,
                g == 0 ==> !found,
            decreases n - g + if found { 0int } else { 1int },
        {
            let wide = g as u128;
            assert(wide * wide <= 0xffff_ffff_ffff_ffff_ffff_ffff_ffff_ffff) by (nonlinear_arith)
                requires wide <= 0xffff_ffff_ffff_ffff;
            let square = wide * wide;
            if square >= n as u128 {
                found = true;
            } else {
                g = g + 1;
            }
        }
        proof {
            assert(ceil_sqrt_from(g as nat, n as nat) == g);
        }
        g
    }

    /// Where the lattice layout puts agent `index` of `n`.
    fn lattice_position(index: usize, n: usize, per_row: usize, w: u32, h: u32) -> (r: Location)
        requires
            index < n,
            per_row == ceil_sqrt(n as nat),
            1 <= per_row <= n,
            w > 0,
            h > 0,
        ensures
            r == lattice_spot(index as int, n as int, w as int, h as int),
            in_world(r, w as int, h as int),
    {
        let rows = (n - 1) / per_row + 1;
        proof {
            assert((n + per_row - 1) / (per_row as int) == (n - 1) / (per_row as int) + 1) by {
                vstd::arithmetic::div_mod::lemma_div_plus_one((n - 1) as int, per_row as int);
            }
        }
        let column = index % per_row;
        let row = index / per_row;
        let step_x = (w as usize) / per_row;
        let step_y = (h as usize) / rows;
        proof {
            lemma_lattice_bound(column as int, per_row as int, w as int);
            vstd::arithmetic::div_mod::lemma_div_is_ordered(index as int, (n - 1) as int, per_row as int);
            lemma_lattice_bound(row as int, rows as int, h as int);
        }
        Location { x: (column * step_x) as u32, y: (row * step_y) as u32 }
    }

    pub fn config(&mut self, move_speed: u32)
        ensures
            final(self).move_speed() == move_speed,
            final(self).width() == old(self).width(),
            final(self).height() == old(self).height(),
            final(self).virus() == old(self).virus(),
            final(self).ticks() == old(self).ticks(),
            final(self).size() == old(self).size(),
            final(self).population() == old(self).population(),
            old(self).wf() ==> final(self).wf(),
    {
        self.move_speed = move_speed;
    }

    /// Advances the world one tick: every agent moves and ages, then every
    /// agent that some infectious agent reaches is exposed.
    pub fn update(&mut self)
        requires
            old(self).wf(),
            old(self).ticks() < u64::MAX,
        ensures
            final(self).wf(),
            final(self).ticks() == old(self).ticks() + 1,
            final(self).size() == old(self).size(),
            final(self).width() == old(self).width(),
            final(self).height() == old(self).height(),
            final(self).move_speed() == old(self).move_speed(),
            final(self).virus() == old(self).virus(),
            descends(
                old(self).population(),
                final(self).population(),
                old(self).move_speed(),
                old(self).width(),
                old(self).height(),
            ),
    {
        let ghost before = self.population;
        self.population.update_positions(self.move_speed);
        let ghost moved = self.population;
        self.population.infect_closeby();
        self.ticks = self.ticks + 1;
        proof {
            let speed = self.move_speed as int;
            let (w, h) = (self.width as int, self.height as int);
            let virus = self.virus;
            assert forall|i: int, j: int, k: int|
                moved.valid_cell(i, j) && 0 <= k < moved.cell(i, j).len() && (#[trigger] moved.cell(i, j)[k])@.state is Infectious
                    implies moved.cell(i, j)[k]@.state == PersonState::Infectious(virus) by {
                let r = moved.cell(i, j)[k]@;
                assert(before.has_source(r, speed));
                let (a, b, m) = choose|a: int, b: int, m: int|
                    before.valid_cell(a, b) && 0 <= m < before.cell(a, b).len() && stepped(
                        (#[trigger] before.cell(a, b)[m])@,
                        r,
                        speed,
                        w,
                        h,
                    );
                let p = before.cell(a, b)[m]@;
                let (dx, dy, c) = choose|dx: int, dy: int, c: u32|
                    -speed <= dx <= speed && -speed <= dy <= speed && c < PROBABILITY_SCALE && r
                        == #[trigger] p.moved(dx, dy, w, h).aged(c);
                assert(p.state is Infectious);
            }
            assert forall|i: int, j: int, k: int|
                self.population.valid_cell(i, j) && 0 <= k < self.population.cell(i, j).len() implies {
                    &&& (#[trigger] self.population.cell(i, j)[k])@.age == self.ticks
                    &&& self.population.cell(i, j)[k]@.state is Infectious ==> self.population.cell(i, j)[k]@.state
                        == PersonState::Infectious(virus)
                    &&& has_ancestor(before, self.population.cell(i, j)[k]@, speed, w, h)
                } by {
                let q = self.population.cell(i, j)[k]@;
                let r = moved.cell(i, j)[k]@;
                assert(moved.exposed(r, q));
                assert(moved.valid_cell(i, j) && k < moved.cell(i, j).len());
                assert(before.has_source(r, speed));
                let (a, b, m) = choose|a: int, b: int, m: int|
                    before.valid_cell(a, b) && 0 <= m < before.cell(a, b).len() && stepped(
                        (#[trigger] before.cell(a, b)[m])@,
                        r,
                        speed,
                        w,
                        h,
                    );
                let p = before.cell(a, b)[m]@;
                let (dx, dy, c) = choose|dx: int, dy: int, c: u32|
                    -speed <= dx <= speed && -speed <= dy <= speed && c < PROBABILITY_SCALE && r
                        == #[trigger] p.moved(dx, dy, w, h).aged(c);
                assert(p.age == old(self).ticks);
                assert(r.age == p.age + 1);
                if r.id < moved.size() && moved.marked(r.id as int) {
                    let (v, c2) = choose|v: Virus, c2: u32|
                        c2 < PROBABILITY_SCALE && moved.pending(r.id, v) && q == #[trigger] r.infected(v, c2);
                    assert(q == r.infected(v, c2));
                    assert(ticked(p, q, speed, w, h));
                    moved.lemma_pending_has_carrier(r.id, v);
                    let (a2, b2, k2) = choose|a2: int, b2: int, k2: int|
                        moved.valid_cell(a2, b2) && 0 <= k2 < moved.cell(a2, b2).len() && (#[trigger] moved.cell(a2, b2)[k2])@.state
                            == PersonState::Infectious(v);
                    assert(v == virus);
                } else {
                    assert(q == r);
                    assert(ticked(p, q, speed, w, h));
                }
                assert(before.valid_cell(a, b) && 0 <= m < before.cell(a, b).len());
                assert(ticked(before.cell(a, b)[m]@, self.population.cell(i, j)[k]@, speed, w, h));
                assert(q.age == self.ticks);
            }
            assert(descends(before, self.population, speed, w, h));
        }
    }

    /// How many agents are susceptible, infectious and recovered; the three
    /// always add up to the population's size.
    pub fn get_stats(&self) -> (r: Stats)
        requires
            self.wf(),
        ensures
            r.susceptable == count_susceptible(self.population().people_seq()),
            r.infected == count_infectious(self.population().people_seq()),
            r.recovered == count_recovered(self.population().people_seq()),
            r.susceptable + r.infected + r.recovered == self.size(),
    {
        let everyone = self.population.iter();
        let ghost all = deref_all(everyone@);
        proof {
            assert(all =~= self.population.people_seq());
        }
        let mut susceptable: usize = 0;
        let mut infected: usize = 0;
        let mut recovered: usize = 0;
        let mut k: usize = 0;
        while k < everyone.len()
            invariant
                all == deref_all(everyone@),
                k <= everyone@.len(),
                susceptable == count_susceptible(all.take(k as int)),
                infected == count_infectious(all.take(k as int)),
                recovered == count_recovered(all.take(k as int)),
                susceptable + infected + recovered == k,
            decreases everyone@.len() - k,
        {
            proof {
                assert(all.take(k as int + 1).drop_last() =~= all.take(k as int));
                assert(all.take(k as int + 1).last() == *everyone@[k as int]);
            }
            match everyone[k].get_state() {
                PersonState::Susceptible => susceptable = susceptable + 1,
                PersonState::Infectious(_) => infected = infected + 1,
                PersonState::Recovered(_) => recovered = recovered + 1,
            }
            k = k + 1;
        }
        proof {
            assert(all.take(k as int) =~= all);
        }
        Stats { susceptable, infected, recovered }
    }

    /// Every agent, for reading.
    pub fn people(&self) -> (r: Vec<&Person>)
        ensures
            r@.len() == self.population().people_seq().len(),
            forall|t: int| 0 <= t < r@.len() ==> *(#[trigger] r@[t]) == self.population().people_seq()[t],
    {
        self.population.iter()
    }

    pub fn get_width(&self) -> (r: u32)
        ensures
            r == self.width(),
    {
        self.width
    }

    pub fn get_height(&self) -> (r: u32)
        ensures
            r == self.height(),
    {
        self.height
    }

    pub fn get_move_speed(&self) -> (r: u32)
        ensures
            r == self.move_speed(),
    {
        self.move_speed
    }

    pub fn get_virus(&self) -> (r: Virus)
        ensures
            r == self.virus(),
    {
        self.virus
    }

    pub fn get_ticks(&self) -> (r: u64)
        ensures
            r == self.ticks(),
    {
        self.ticks
    }
}

/// Across a tick of the world, a recovered agent stays recovered with the
/// same outcome, and a dead agent stays where it was.
pub proof fn lemma_tick_keeps_recovered(p: PersonView, q: PersonView, speed: int, w: int, h: int)
    requires
        ticked(p, q, speed, w, h),
        p.state is Recovered,
    ensures
        q.state == p.state,
        p.is_dead() ==> q.position == p.position,
{
    let r = choose|r: PersonView|
        #[trigger] stepped(p, r, speed, w, h) && (q == r || exists|v: Virus, c: u32|
            c < PROBABILITY_SCALE && q == #[trigger] r.infected(v, c));
    let (dx, dy, c) = choose|dx: int, dy: int, c: u32|
        -speed <= dx <= speed && -speed <= dy <= speed && c < PROBABILITY_SCALE && r == #[trigger] p.moved(
            dx,
            dy,
            w,
            h,
        ).aged(c);
    lemma_recovered_is_final(p, Virus { distance: 1, recovery_time: 0, infection_rate: 0, mortality_rate: 0 }, c, dx, dy, w, h);
    let m = p.moved(dx, dy, w, h);
    lemma_recovered_is_final(m, Virus { distance: 1, recovery_time: 0, infection_rate: 0, mortality_rate: 0 }, c, dx, dy, w, h);
    if q != r {
        let (v, c2) = choose|v: Virus, c2: u32| c2 < PROBABILITY_SCALE && q == #[trigger] r.infected(v, c2);
        lemma_recovered_is_final(r, v, c2, dx, dy, w, h);
    }
}

/// In a world the neighbourhood scan misses no one: every susceptible agent
/// strictly inside the virus's radius around an infectious agent, in
/// whatever cells the two are, is a pending infection with the world's virus.
pub proof fn lemma_world_scan_complete(w: World, bx: int, by: int, k1: int, i: int, j: int, k2: int)
    requires
        w.wf(),
        w.population().valid_cell(bx, by),
        w.population().valid_cell(i, j),
        0 <= k1 < w.population().cell(bx, by).len(),
        0 <= k2 < w.population().cell(i, j).len(),
        w.population().cell(bx, by)[k1]@.state is Infectious,
        w.population().cell(i, j)[k2]@.state == PersonState::Susceptible,
        sq_dist(w.population().cell(bx, by)[k1]@.position, w.population().cell(i, j)[k2]@.position, w.width(), w.height())
            < w.virus().distance * w.virus().distance,
    ensures
        w.population().pending(w.population().cell(i, j)[k2]@.id, w.virus()),
{
    assert(w.population.cell(bx, by)[k1]@.state == PersonState::Infectious(w.virus));
    lemma_scan_finds_close_agents(w.population, bx, by, k1, i, j, k2);
}

/// `k * (dim / n) < dim` for every lattice slot `k < n`.
proof fn lemma_lattice_bound(k: int, n: int, dim: int)
    requires
        0 <= k < n,
        dim > 0,
    ensures
        0 <= k * (dim / n) < dim,
{
    let q = dim / n;
    vstd::arithmetic::div_mod::lemma_fundamental_div_mod(dim, n);
    vstd::arithmetic::div_mod::lemma_mod_pos_bound(dim, n);
    assert(q >= 0) by {
        vstd::arithmetic::div_mod::lemma_div_pos_is_pos(dim, n);
    }
    assert(k * q <= (n - 1) * q) by (nonlinear_arith)
        requires k <= n - 1, q >= 0;
    assert((n - 1) * q == n * q - q) by (nonlinear_arith);
    if q == 0 {
        assert(k * q == 0) by (nonlinear_arith) requires q == 0;
    }
    assert(k * q >= 0) by (nonlinear_arith) requires k >= 0, q >= 0;
}

} // verus!
