//! The spatial grid that owns every agent, bucketed by position.
use crate::person::{axis_gap, in_world, sq_dist, Location, Person, PersonState, PersonView};
use crate::virus::{Virus, PROBABILITY_SCALE};
use vstd::prelude::*;

verus! {

/// The largest number of columns or rows a grid may have.
pub const MAX_CELLS_PER_AXIS: usize = 0x3fff_ffff;

/// The cell along one axis that holds the coordinate `pos`, for an axis of
/// length `dim` cut into `n` equal cells: `floor(pos / (dim / n)) mod n`.
pub open spec fn cell_index(pos: int, dim: int, n: int) -> int {
    (pos * n / dim) % n
}

/// The agents of a row of cells, cell after cell.
pub open spec fn row_people(row: Seq<Vec<Person>>) -> Seq<Person>
    decreases row.len(),
{
    if row.len() == 0 {
        Seq::empty()
    } else {
        row_people(row.drop_last()) + row.last()@
    }
}

/// The agents of a grid, row after row.
pub open spec fn grid_people(g: Seq<Vec<Vec<Person>>>) -> Seq<Person>
    decreases g.len(),
{
    if g.len() == 0 {
        Seq::empty()
    } else {
        grid_people(g.drop_last()) + row_people(g.last()@)
    }
}

/// The contacts by which an infectious agent at `p1`, carrying `v`, reaches
/// the agents of `cell`, in the cell's order: one `(id, v)` for each
/// susceptible agent strictly closer than the virus's radius.
pub open spec fn contacts(p1: Location, v: Virus, cell: Seq<Person>, w: int, h: int) -> Seq<(usize, Virus)>
    decreases cell.len(),
{
    if cell.len() == 0 {
        Seq::empty()
    } else {
        let rest = contacts(p1, v, cell.drop_last(), w, h);
        let p2 = cell.last()@;
        if p2.state == PersonState::Susceptible && sq_dist(p1, p2.position, w, h) < v.distance
            * v.distance {
            rest.push((p2.id, v))
        } else {
            rest
        }
    }
}

/// The agents that a sequence of references points to.
pub open spec fn deref_all(s: Seq<&Person>) -> Seq<Person> {
    s.map_values(|p: &Person| *p)
}

/// One tick of an agent's life: a step of at most `speed` units along each
/// axis in a `w` by `h` world (none for the dead), then a tick of ageing,
/// each with some draw.
pub open spec fn stepped(p: PersonView, q: PersonView, speed: int, w: int, h: int) -> bool {
    exists|dx: int, dy: int, c: u32|
        -speed <= dx <= speed && -speed <= dy <= speed && c < PROBABILITY_SCALE && q == #[trigger] p.moved(
            dx,
            dy,
            w,
            h,
        ).aged(c)
}

/// Whether cell `(a, b)` comes before cell `(bx, by)` in column-major scan
/// order.
pub open spec fn scanned_before(a: int, b: int, bx: int, by: int) -> bool {
    a < bx || (a == bx && b < by)
}

/// What an exposure according to `table` does to `p`: an agent whose id has a
/// pending virus is exposed to it with some draw; any other stays as it is.
pub open spec fn exposed_by(table: Seq<Option<Virus>>, p: PersonView, q: PersonView) -> bool {
    if p.id < table.len() && table[p.id as int] is Some {
        exists|c: u32| c < PROBABILITY_SCALE && q == #[trigger] p.infected(table[p.id as int]->0, c)
    } else {
        q == p
    }
}

/// Marks in `table` the agents that `hits` names, each with its virus; ids
/// beyond the table are left out.
pub fn record_infections(table: &mut Vec<Option<Virus>>, hits: &Vec<(usize, Virus)>)
    ensures
        final(table)@.len() == old(table)@.len(),
        forall|j: int|
            0 <= j < old(table)@.len() ==> ((#[trigger] final(table)@[j]) is Some <==> (old(table)@[j] is Some
                || exists|t: int| 0 <= t < hits@.len() && hits@[t].0 == j)),
        forall|j: int|
            0 <= j < old(table)@.len() && (#[trigger] final(table)@[j]) is Some ==> (old(table)@[j] == final(table)@[j]
                || exists|t: int| 0 <= t < hits@.len() && hits@[t] == (j as usize, final(table)@[j]->0)),
{
    let mut t: usize = 0;
    while t < hits.len()
        invariant
            t <= hits@.len(),
            table@.len() == old(table)@.len(),
            forall|j: int|
                0 <= j < old(table)@.len() ==> ((#[trigger] table@[j]) is Some <==> (old(table)@[j] is Some
                    || exists|u: int| 0 <= u < t && hits@[u].0 == j)),
            forall|j: int|
                0 <= j < old(table)@.len() && (#[trigger] table@[j]) is Some ==> (old(table)@[j] == table@[j]
                    || exists|u: int| 0 <= u < t && hits@[u] == (j as usize, table@[j]->0)),
        decreases hits@.len() - t,
    {
        let (id, v) = hits[t];
        if id < table.len() {
            table.set(id, Some(v));
        }
        proof {
            assert forall|j: int|
                0 <= j < old(table)@.len() && (old(table)@[j] is Some || exists|u: int| 0 <= u < t + 1 && hits@[u].0 == j)
                implies #[trigger] table@[j] is Some by {
                if !(old(table)@[j] is Some) && j != id {
                    let u = choose|u: int| 0 <= u < t + 1 && hits@[u].0 == j;
                    assert(u < t);
                }
            }
        }
        t = t + 1;
    }
}

/// Exposes every agent of `cell` whose id has a pending virus in `table`.
fn expose_cell(cell: &mut Vec<Person>, table: &Vec<Option<Virus>>)
    ensures
        final(cell)@.len() == old(cell)@.len(),
        forall|k: int| 0 <= k < old(cell)@.len() ==> exposed_by(table@, old(cell)@[k]@, (#[trigger] final(cell)@[k])@),
{
    let mut k: usize = 0;
    while k < cell.len()
        invariant
            k <= cell@.len(),
            cell@.len() == old(cell)@.len(),
            forall|m: int| 0 <= m < k ==> exposed_by(table@, old(cell)@[m]@, (#[trigger] cell@[m])@),
            forall|m: int| k <= m < cell@.len() ==> #[trigger] cell@[m] == old(cell)@[m],
        decreases cell@.len() - k,
    {
        let id = cell[k].get_id();
        if id < table.len() {
            if let Some(v) = table[id] {
                cell[k].infect(v);
            }
        }
        proof {
            let p = old(cell)@[k as int]@;
            let q = cell@[k as int]@;
            if !(p.id < table@.len() && table@[p.id as int] is Some) {
                assert(q == p);
            }
        }
        k = k + 1;
    }
}

/// A uniform grid of cells over a wraparound world; each cell holds the
/// agents whose position falls in it.
#[derive(Clone, Debug)]
pub struct Population {
    people: Vec<Vec<Vec<Person>>>,
    world_width: u32,
    world_height: u32,
}

impl Population {
    /// The cells, indexed `[column][row]`.
    pub closed spec fn grid(&self) -> Seq<Vec<Vec<Person>>> {
        self.people@
    }

    pub closed spec fn width(&self) -> int {
        self.world_width as int
    }

    pub closed spec fn height(&self) -> int {
        self.world_height as int
    }

    pub open spec fn cols(&self) -> int {
        self.grid().len() as int
    }

    pub open spec fn rows(&self) -> int {
        self.grid()[0]@.len() as int
    }

    /// The agents of cell `(i, j)`.
    pub open spec fn cell(&self, i: int, j: int) -> Seq<Person> {
        self.grid()[i]@[j]@
    }

    pub open spec fn valid_cell(&self, i: int, j: int) -> bool {
        0 <= i < self.cols() && 0 <= j < self.rows()
    }

    /// The cell that the point `p` falls in.
    pub open spec fn cell_of(&self, p: Location) -> (int, int) {
        (cell_index(p.x as int, self.width(), self.cols()), cell_index(p.y as int, self.height(), self.rows()))
    }

    /// Every agent, cell after cell.
    pub open spec fn people_seq(&self) -> Seq<Person> {
        grid_people(self.grid())
    }

    /// The number of agents.
    pub open spec fn size(&self) -> int {
        self.people_seq().len() as int
    }

    /// A grid of at least one cell each way, every column of the same height.
    pub open spec fn shaped(&self) -> bool {
        &&& 1 <= self.cols() <= MAX_CELLS_PER_AXIS
        &&& 1 <= self.rows() <= MAX_CELLS_PER_AXIS
        &&& forall|i: int| 0 <= i < self.cols() ==> (#[trigger] self.grid()[i])@.len() == self.rows()
        &&& self.width() > 0
        &&& self.height() > 0
    }

    /// Every agent lies in the world and in the cell its position maps to.
    pub open spec fn placed(&self) -> bool {
        forall|i: int, j: int, k: int|
            self.valid_cell(i, j) && 0 <= k < self.cell(i, j).len() ==> {
                let p = (#[trigger] self.cell(i, j)[k])@.position;
                &&& in_world(p, self.width(), self.height())
                &&& self.cell_of(p) == (i, j)
            }
    }

    pub open spec fn wf(&self) -> bool {
        self.shaped() && self.placed()
    }

    /// Cell `t` (of 0 to 8) of the 3 by 3 block centred on `(bx, by)`, in
    /// row-major order of column offset then row offset, wrapping round.
    pub open spec fn neighbour(&self, bx: int, by: int, t: int) -> Seq<Person> {
        self.cell((bx + t / 3 - 1) % self.cols(), (by + t % 3 - 1) % self.rows())
    }

    /// The contacts of an infectious agent at `p1`, carrying `v`, in the first
    /// `t` cells of the block centred on `(bx, by)`.
    pub open spec fn reach(&self, p1: Location, v: Virus, bx: int, by: int, t: int) -> Seq<(usize, Virus)>
        decreases t,
    {
        if t <= 0 {
            Seq::empty()
        } else {
            self.reach(p1, v, bx, by, t - 1) + contacts(p1, v, self.neighbour(bx, by, t - 1), self.width(), self.height())
        }
    }

    /// The contacts made by the first `k` agents of cell `(bx, by)`.
    pub open spec fn box_hits_upto(&self, bx: int, by: int, k: int) -> Seq<(usize, Virus)>
        decreases k,
    {
        if k <= 0 {
            Seq::empty()
        } else {
            let p1 = self.cell(bx, by)[k - 1]@;
            self.box_hits_upto(bx, by, k - 1) + match p1.state {
                PersonState::Infectious(v) => self.reach(p1.position, v, bx, by, 9),
                _ => Seq::empty(),
            }
        }
    }

    /// The contacts made by the infectious agents of cell `(bx, by)`.
    pub open spec fn box_hits(&self, bx: int, by: int) -> Seq<(usize, Virus)> {
        self.box_hits_upto(bx, by, self.cell(bx, by).len() as int)
    }

    /// Whether the cells are at least `r` wide and high, or the grid has a
    /// single cell along the axis where they are not.
    pub open spec fn fits_radius(&self, r: int) -> bool {
        &&& (self.cols() == 1 || self.cols() * r <= self.width())
        &&& (self.rows() == 1 || self.rows() * r <= self.height())
    }

    /// Whether the scan of some cell finds a contact that gives `v` to the
    /// agent `id`.
    pub open spec fn pending(&self, id: usize, v: Virus) -> bool {
        exists|bx: int, by: int, t: int|
            self.valid_cell(bx, by) && 0 <= t < self.box_hits(bx, by).len() && #[trigger] self.box_hits(bx, by)[t]
                == (id, v)
    }

    /// Whether the scan of a cell before `(bx, by)` finds a contact of the
    /// agent `id`.
    pub open spec fn seen_before(&self, id: int, bx: int, by: int) -> bool {
        exists|a: int, b: int, t: int|
            self.valid_cell(a, b) && scanned_before(a, b, bx, by) && 0 <= t < self.box_hits(a, b).len()
                && (#[trigger] self.box_hits(a, b)[t]).0 == id
    }

    /// Whether the scan of some cell finds a contact of the agent `id`.
    pub open spec fn marked(&self, id: int) -> bool {
        exists|a: int, b: int, t: int|
            self.valid_cell(a, b) && 0 <= t < self.box_hits(a, b).len() && (#[trigger] self.box_hits(a, b)[t]).0
                == id
    }

    /// What the scan and exposure of one tick may do to `p`: an agent that
    /// some infectious agent reaches is exposed to a virus that reaches it,
    /// with some draw; any other stays as it is.
    pub open spec fn exposed(&self, p: PersonView, q: PersonView) -> bool {
        if p.id < self.size() && self.marked(p.id as int) {
            exists|v: Virus, c: u32| c < PROBABILITY_SCALE && self.pending(p.id, v) && q == #[trigger] p.infected(v, c)
        } else {
            q == p
        }
    }

    /// Whether some agent of this grid becomes `q` in one tick with steps of
    /// at most `speed`.
    pub open spec fn has_source(&self, q: PersonView, speed: int) -> bool {
        exists|i: int, j: int, k: int|
            self.valid_cell(i, j) && 0 <= k < self.cell(i, j).len() && stepped(
                (#[trigger] self.cell(i, j)[k])@,
                q,
                speed,
                self.width(),
                self.height(),
            )
    }

    /// Every agent can still grow one tick older.
    pub open spec fn can_age(&self) -> bool {
        forall|i: int, j: int, k: int|
            self.valid_cell(i, j) && 0 <= k < self.cell(i, j).len() ==> (#[trigger] self.cell(i, j)[k])@.age < u64::MAX
    }

    /// An empty grid of `num_grid_width` by `num_grid_height` cells over a
    /// `world_width` by `world_height` world.
    pub fn new(world_width: u32, world_height: u32, num_grid_width: usize, num_grid_height: usize) -> (r: Population)
        requires
            world_width > 0,
            world_height > 0,
            1 <= num_grid_width <= MAX_CELLS_PER_AXIS,
            1 <= num_grid_height <= MAX_CELLS_PER_AXIS,
        ensures
            r.wf(),
            r.cols() == num_grid_width,
            r.rows() == num_grid_height,
            r.width() == world_width,
            r.height() == world_height,
            forall|i: int, j: int| r.valid_cell(i, j) ==> (#[trigger] r.cell(i, j)).len() == 0,
            r.size() == 0,
    {
        let mut people: Vec<Vec<Vec<Person>>> = Vec::with_capacity(num_grid_width);
        let mut i: usize = 0;
        while i < num_grid_width
            invariant
                i <= num_grid_width,
                people@.len() == i,
                forall|a: int| 0 <= a < i ==> (#[trigger] people@[a])@.len() == num_grid_height,
                forall|a: int, b: int|
                    0 <= a < i && 0 <= b < num_grid_height ==> (#[trigger] people@[a]@[b])@.len() == 0,
            decreases num_grid_width - i,
        {
            let mut column: Vec<Vec<Person>> = Vec::with_capacity(num_grid_height);
            let mut j: usize = 0;
            while j < num_grid_height
                invariant
                    j <= num_grid_height,
                    column@.len() == j,
                    forall|b: int| 0 <= b < j ==> (#[trigger] column@[b])@.len() == 0,
                decreases num_grid_height - j,
            {
                column.push(Vec::new());
                j = j + 1;
            }
            people.push(column);
            i = i + 1;
        }
        proof {
            lemma_empty_grid(people@);
        }
        Population { people, world_width, world_height }
    }

    /// The cell that the point `(x, y)` falls in.
    pub fn get_indexes(&self, x: u32, y: u32) -> (r: (usize, usize))
        requires
            self.shaped(),
        ensures
            (r.0 as int, r.1 as int) == self.cell_of(Location { x, y }),
            self.valid_cell(r.0 as int, r.1 as int),
    {
        let cols = self.people.len() as u64;
        let rows = self.people[0].len() as u64;
        assert((x as u64) * cols <= u64::MAX) by (nonlinear_arith)
            requires x <= u32::MAX, cols <= MAX_CELLS_PER_AXIS;
        assert((y as u64) * rows <= u64::MAX) by (nonlinear_arith)
            requires y <= u32::MAX, rows <= MAX_CELLS_PER_AXIS;
        let grid_x = ((x as u64) * cols / (self.world_width as u64)) % cols;
        let grid_y = ((y as u64) * rows / (self.world_height as u64)) % rows;
        (grid_x as usize, grid_y as usize)
    }

    /// Puts `person` in the cell its position falls in.
    pub fn add(&mut self, person: Person)
        requires
            old(self).wf(),
            in_world(person@.position, old(self).width(), old(self).height()),
        ensures
            final(self).wf(),
            final(self).width() == old(self).width(),
            final(self).height() == old(self).height(),
            final(self).cols() == old(self).cols(),
            final(self).rows() == old(self).rows(),
            ({
                let (ci, cj) = old(self).cell_of(person@.position);
                forall|i: int, j: int|
                    old(self).valid_cell(i, j) ==> #[trigger] final(self).cell(i, j) == if (i, j) == (ci, cj) {
                        old(self).cell(i, j).push(person)
                    } else {
                        old(self).cell(i, j)
                    }
            }),
            final(self).size() == old(self).size() + 1,
    {
        let pos = person.get_position();
        let (i, j) = self.get_indexes(pos.x, pos.y);
        let ghost g0 = self.people@;
        self.people[i][j].push(person);
        proof {
            assert(self.people@ =~= g0.update(i as int, self.people@[i as int]));
            assert(self.people@[i as int]@ =~= g0[i as int]@.update(j as int, self.people@[i as int]@[j as int]));
            lemma_cell_len_update(g0, self.people@, i as int, j as int);
        }
        assert forall|a: int, b: int, k: int|
            self.valid_cell(a, b) && 0 <= k < self.cell(a, b).len() implies {
                let p = (#[trigger] self.cell(a, b)[k])@.position;
                &&& in_world(p, self.width(), self.height())
                &&& self.cell_of(p) == (a, b)
            } by {
            if (a, b) == (i as int, j as int) {
                if k < old(self).cell(a, b).len() {
                    assert(self.cell(a, b)[k] == old(self).cell(a, b)[k]);
                }
            } else {
                assert(self.cell(a, b) == old(self).cell(a, b));
            }
        }
    }

    /// The cell at `(box_x, box_y)`, each index taken modulo the grid's size
    /// along its axis, so that the grid wraps around.
    pub fn people_from(&self, box_x: isize, box_y: isize) -> (r: &Vec<Person>)
        requires
            self.shaped(),
        ensures
            r@ == self.cell(box_x as int % self.cols(), box_y as int % self.rows()),
    {
        let cols = self.people.len() as isize;
        let rows = self.people[0].len() as isize;
        let mut box_x = box_x;
        let mut box_y = box_y;
        let ghost x0 = box_x as int;
        let ghost y0 = box_y as int;
        while box_x < 0
            invariant
                cols == self.cols(),
                box_x as int % (cols as int) == x0 % (cols as int),
                cols >= 1,
            decreases if box_x < 0 { 0 - box_x } else { 0 },
        {
            proof { vstd::arithmetic::div_mod::lemma_mod_add_multiples_vanish(box_x as int, cols as int); }
            box_x = box_x + cols;
        }
        while box_x >= cols
            invariant
                box_x >= 0,
                cols >= 1,
                box_x as int % (cols as int) == x0 % (cols as int),
            decreases box_x,
        {
            proof { vstd::arithmetic::div_mod::lemma_mod_sub_multiples_vanish(box_x as int, cols as int); }
            box_x = box_x - cols;
        }
        while box_y < 0
            invariant
                rows == self.rows(),
                box_y as int % (rows as int) == y0 % (rows as int),
                rows >= 1,
            decreases if box_y < 0 { 0 - box_y } else { 0 },
        {
            proof { vstd::arithmetic::div_mod::lemma_mod_add_multiples_vanish(box_y as int, rows as int); }
            box_y = box_y + rows;
        }
        while box_y >= rows
            invariant
                box_y >= 0,
                rows >= 1,
                box_y as int % (rows as int) == y0 % (rows as int),
            decreases box_y,
        {
            proof { vstd::arithmetic::div_mod::lemma_mod_sub_multiples_vanish(box_y as int, rows as int); }
            box_y = box_y - rows;
        }
        proof {
            vstd::arithmetic::div_mod::lemma_small_mod(box_x as nat, cols as nat);
            vstd::arithmetic::div_mod::lemma_small_mod(box_y as nat, rows as nat);
        }
        &self.people[box_x as usize][box_y as usize]
    }

    /// Appends to `out` the contacts of the infectious agent `p1`, carrying
    /// `v`, among the agents of `cell`.
    fn contacts_in(&self, p1: &Person, v: Virus, cell: &Vec<Person>, out: &mut Vec<(usize, Virus)>)
        requires
            self.shaped(),
            in_world(p1@.position, self.width(), self.height()),
            forall|k: int| 0 <= k < cell@.len() ==> in_world((#[trigger] cell@[k])@.position, self.width(), self.height()),
        ensures
            final(out)@ == old(out)@ + contacts(p1@.position, v, cell@, self.width(), self.height()),
    {
        let d = v.distance as u64;
        assert(d * d <= u64::MAX) by (nonlinear_arith)
            requires d <= u32::MAX;
        let limit = d * d;
        let mut k: usize = 0;
        while k < cell.len()
            invariant
                self.shaped(),
                in_world(p1@.position, self.width(), self.height()),
                forall|k: int| 0 <= k < cell@.len() ==> in_world((#[trigger] cell@[k])@.position, self.width(), self.height()),
                k <= cell@.len(),
                limit == v.distance * v.distance,
                out@ == old(out)@ + contacts(p1@.position, v, cell@.take(k as int), self.width(), self.height()),
            decreases cell@.len() - k,
        {
            let p2 = &cell[k];
            proof {
                assert(cell@.take(k as int + 1).drop_last() =~= cell@.take(k as int));
            }
            if p2.get_state() == PersonState::Susceptible {
                let dist = p1.sqr_distance(p2, self.world_width, self.world_height);
                if dist < limit {
                    out.push((p2.get_id(), v));
                }
            }
            k = k + 1;
        }
        proof {
            assert(cell@.take(k as int) =~= cell@);
        }
    }

    /// The contacts made by the infectious agents of cell `(box_x, box_y)`
    /// with the susceptible agents of its 3 by 3 block: one `(id, virus)` for
    /// each susceptible agent strictly inside an infectious agent's radius.
    pub fn infections_for_people_within_box(&self, box_x: usize, box_y: usize) -> (r: Vec<(usize, Virus)>)
        requires
            self.wf(),
            self.valid_cell(box_x as int, box_y as int),
        ensures
            r@ == self.box_hits(box_x as int, box_y as int),
    {
        let cell = &self.people[box_x][box_y];
        let mut out: Vec<(usize, Virus)> = Vec::new();
        let mut k: usize = 0;
        while k < cell.len()
            invariant
                self.wf(),
                self.valid_cell(box_x as int, box_y as int),
                cell@ == self.cell(box_x as int, box_y as int),
                k <= cell@.len(),
                out@ == self.box_hits_upto(box_x as int, box_y as int, k as int),
            decreases cell@.len() - k,
        {
            let p1 = &cell[k];
            let ghost start = out@;
            if let PersonState::Infectious(v) = p1.get_state() {
                let mut t: usize = 0;
                while t < 9
                    invariant
                        self.wf(),
                        self.valid_cell(box_x as int, box_y as int),
                        k < cell@.len(),
                        cell@ == self.cell(box_x as int, box_y as int),
                        *p1 == cell@[k as int],
                        p1@.state == PersonState::Infectious(v),
                        t <= 9,
                        out@ == start + self.reach(p1@.position, v, box_x as int, box_y as int, t as int),
                    decreases 9 - t,
                {
                    let x = box_x as isize + (t / 3) as isize - 1;
                    let y = box_y as isize + (t % 3) as isize - 1;
                    let neighbours = self.people_from(x, y);
                    proof {
                        vstd::arithmetic::div_mod::lemma_mod_bound(x as int, self.cols());
                        vstd::arithmetic::div_mod::lemma_mod_bound(y as int, self.rows());
                        let (a, b) = (x as int % self.cols(), y as int % self.rows());
                        assert forall|m: int| 0 <= m < neighbours@.len() implies in_world((#[trigger] neighbours@[m])@.position, self.width(), self.height()) by {
                            assert(self.cell(a, b)[m] == neighbours@[m]);
                        }
                    }
                    self.contacts_in(p1, v, neighbours, &mut out);
                    t = t + 1;
                }
            }
            k = k + 1;
        }
        out
    }

    /// The pending infections of one tick, indexed by agent id: the agents
    /// that some infectious agent reaches, each with a virus that reaches it.
    pub fn infect_closeby_single_threaded(&self) -> (r: Vec<Option<Virus>>)
        requires
            self.wf(),
        ensures
            r@.len() == self.size(),
            forall|j: int| 0 <= j < r@.len() ==> ((#[trigger] r@[j]) is Some <==> self.marked(j)),
            forall|j: int| 0 <= j < r@.len() && (#[trigger] r@[j]) is Some ==> self.pending(j as usize, r@[j]->0),
    {
        let everyone = self.iter();
        let n = everyone.len();
        let mut table: Vec<Option<Virus>> = Vec::new();
        while table.len() < n
            invariant
                table@.len() <= n,
                forall|j: int| 0 <= j < table@.len() ==> (#[trigger] table@[j]) is None,
            decreases n - table@.len(),
        {
            table.push(None);
        }
        let cols = self.people.len();
        let rows = self.people[0].len();
        let mut bx: usize = 0;
        while bx < cols
            invariant
                self.wf(),
                cols == self.cols(),
                rows == self.rows(),
                bx <= cols,
                table@.len() == n,
                forall|j: int| 0 <= j < n ==> ((#[trigger] table@[j]) is Some <==> self.seen_before(j, bx as int, 0)),
                forall|j: int| 0 <= j < n && (#[trigger] table@[j]) is Some ==> self.pending(j as usize, table@[j]->0),
            decreases cols - bx,
        {
            let mut by: usize = 0;
            while by < rows
                invariant
                    self.wf(),
                    cols == self.cols(),
                    rows == self.rows(),
                    bx < cols,
                    by <= rows,
                    table@.len() == n,
                    forall|j: int| 0 <= j < n ==> ((#[trigger] table@[j]) is Some <==> self.seen_before(j, bx as int, by as int)),
                    forall|j: int| 0 <= j < n && (#[trigger] table@[j]) is Some ==> self.pending(j as usize, table@[j]->0),
                decreases rows - by,
            {
                let hits = self.infections_for_people_within_box(bx, by);
                let ghost before = table@;
                record_infections(&mut table, &hits);
                proof {
                    assert forall|j: int| 0 <= j < n implies ((#[trigger] table@[j]) is Some <==> self.seen_before(j, bx as int, by as int + 1)) by {
                        if self.seen_before(j, bx as int, by as int + 1) && !self.seen_before(j, bx as int, by as int) {
                            let (a, b, t) = choose|a: int, b: int, t: int|
                                self.valid_cell(a, b) && scanned_before(a, b, bx as int, by as int + 1) && 0 <= t < self.box_hits(a, b).len()
                                    && (#[trigger] self.box_hits(a, b)[t]).0 == j;
                            assert(a == bx && b == by);
                            assert(hits@[t].0 == j);
                        }
                        if table@[j] is Some && !(before[j] is Some) {
                            let t = choose|t: int| 0 <= t < hits@.len() && hits@[t].0 == j;
                            assert(self.box_hits(bx as int, by as int)[t].0 == j);
                        }
                    }
                    assert forall|j: int| 0 <= j < n && (#[trigger] table@[j]) is Some implies self.pending(j as usize, table@[j]->0) by {
                        let v = table@[j]->0;
                        if before[j] != table@[j] {
                            let t = choose|t: int| 0 <= t < hits@.len() && hits@[t] == (j as usize, v);
                            assert(self.box_hits(bx as int, by as int)[t] == (j as usize, v));
                        }
                    }
                }
                by = by + 1;
            }
            proof {
                assert forall|j: int| 0 <= j < n implies (table@[j] is Some <==> self.seen_before(j, bx as int + 1, 0)) by {
                    if self.seen_before(j, bx as int + 1, 0) {
                        let (a, b, t) = choose|a: int, b: int, t: int|
                            self.valid_cell(a, b) && scanned_before(a, b, bx as int + 1, 0) && 0 <= t < self.box_hits(a, b).len()
                                && (#[trigger] self.box_hits(a, b)[t]).0 == j;
                        assert(scanned_before(a, b, bx as int, rows as int));
                    }
                    if self.seen_before(j, bx as int, rows as int) {
                        let (a, b, t) = choose|a: int, b: int, t: int|
                            self.valid_cell(a, b) && scanned_before(a, b, bx as int, rows as int) && 0 <= t < self.box_hits(a, b).len()
                                && (#[trigger] self.box_hits(a, b)[t]).0 == j;
                        assert(scanned_before(a, b, bx as int + 1, 0));
                    }
                }
            }
            bx = bx + 1;
        }
        proof {
            assert forall|j: int| 0 <= j < n implies (table@[j] is Some <==> self.marked(j)) by {
                if self.marked(j) {
                    let (a, b, t) = choose|a: int, b: int, t: int|
                        self.valid_cell(a, b) && 0 <= t < self.box_hits(a, b).len() && (#[trigger] self.box_hits(a, b)[t]).0 == j;
                    assert(scanned_before(a, b, cols as int, 0));
                }
            }
        }
        table
    }

    /// Exposes every agent that some infectious agent reaches to a virus
    /// that reaches it; the scan of the whole grid comes first, so what an
    /// agent catches in this step does not spread in the same step.
    pub fn infect_closeby(&mut self)
        requires
            old(self).wf(),
        ensures
            final(self).wf(),
            final(self).width() == old(self).width(),
            final(self).height() == old(self).height(),
            final(self).cols() == old(self).cols(),
            final(self).rows() == old(self).rows(),
            final(self).size() == old(self).size(),
            forall|i: int, j: int| old(self).valid_cell(i, j) ==> (#[trigger] final(self).cell(i, j)).len() == old(self).cell(i, j).len(),
            forall|i: int, j: int, k: int|
                old(self).valid_cell(i, j) && 0 <= k < old(self).cell(i, j).len() ==> old(self).exposed(
                    old(self).cell(i, j)[k]@,
                    (#[trigger] final(self).cell(i, j)[k])@,
                ),
    {
        let table = self.infect_closeby_single_threaded();
        self.apply_infections(&table);
        proof {
            assert forall|i: int, j: int, k: int|
                old(self).valid_cell(i, j) && 0 <= k < old(self).cell(i, j).len() implies old(self).exposed(
                    old(self).cell(i, j)[k]@,
                    (#[trigger] self.cell(i, j)[k])@,
                ) by {
                let p = old(self).cell(i, j)[k]@;
                let q = self.cell(i, j)[k]@;
                assert(exposed_by(table@, p, q));
                if p.id < old(self).size() && old(self).marked(p.id as int) {
                    let v = table@[p.id as int]->0;
                    assert(table@[p.id as int] == Some(v));
                    let c = choose|c: u32| c < PROBABILITY_SCALE && q == #[trigger] p.infected(v, c);
                    assert(old(self).pending(p.id, v) && q == p.infected(v, c));
                }
            }
        }
    }

    /// Exposes every agent whose id has a pending virus in `table` to that
    /// virus.
    pub fn apply_infections(&mut self, table: &Vec<Option<Virus>>)
        requires
            old(self).wf(),
        ensures
            final(self).wf(),
            final(self).width() == old(self).width(),
            final(self).height() == old(self).height(),
            final(self).cols() == old(self).cols(),
            final(self).rows() == old(self).rows(),
            final(self).size() == old(self).size(),
            forall|i: int, j: int| old(self).valid_cell(i, j) ==> (#[trigger] final(self).cell(i, j)).len() == old(self).cell(i, j).len(),
            forall|i: int, j: int, k: int|
                old(self).valid_cell(i, j) && 0 <= k < old(self).cell(i, j).len() ==> exposed_by(
                    table@,
                    old(self).cell(i, j)[k]@,
                    (#[trigger] final(self).cell(i, j)[k])@,
                ),
    {
        let cols = self.people.len();
        let rows = self.people[0].len();
        let mut bx: usize = 0;
        while bx < cols
            invariant
                old(self).wf(),
                self.shaped(),
                self.world_width == old(self).world_width,
                self.world_height == old(self).world_height,
                cols == old(self).cols() == self.cols(),
                rows == old(self).rows() == self.rows(),
                bx <= cols,
                self.size() == old(self).size(),
                forall|a: int, b: int| old(self).valid_cell(a, b) ==> (#[trigger] self.cell(a, b)).len() == old(self).cell(a, b).len(),
                forall|a: int, b: int, k: int|
                    old(self).valid_cell(a, b) && 0 <= k < old(self).cell(a, b).len() ==> if a < bx {
                        exposed_by(table@, old(self).cell(a, b)[k]@, (#[trigger] self.cell(a, b)[k])@)
                    } else {
                        self.cell(a, b)[k] == old(self).cell(a, b)[k]
                    },
            decreases cols - bx,
        {
            let mut by: usize = 0;
            while by < rows
                invariant
                    old(self).wf(),
                    self.shaped(),
                    self.world_width == old(self).world_width,
                    self.world_height == old(self).world_height,
                    cols == old(self).cols() == self.cols(),
                    rows == old(self).rows() == self.rows(),
                    bx < cols,
                    by <= rows,
                    self.size() == old(self).size(),
                    forall|a: int, b: int| old(self).valid_cell(a, b) ==> (#[trigger] self.cell(a, b)).len() == old(self).cell(a, b).len(),
                    forall|a: int, b: int, k: int|
                        old(self).valid_cell(a, b) && 0 <= k < old(self).cell(a, b).len() ==> if scanned_before(a, b, bx as int, by as int) {
                            exposed_by(table@, old(self).cell(a, b)[k]@, (#[trigger] self.cell(a, b)[k])@)
                        } else {
                            self.cell(a, b)[k] == old(self).cell(a, b)[k]
                        },
                decreases rows - by,
            {
                let ghost g0 = self.people@;
                let ghost s0 = *self;
                expose_cell(&mut self.people[bx][by], table);
                proof {
                    assert(self.people@ =~= g0.update(bx as int, self.people@[bx as int]));
                    assert(self.people@[bx as int]@ =~= g0[bx as int]@.update(by as int, self.people@[bx as int]@[by as int]));
                    lemma_cell_len_update(g0, self.people@, bx as int, by as int);
                    assert forall|a: int| 0 <= a < self.cols() implies (#[trigger] self.grid()[a])@.len() == self.rows() by {
                        assert(s0.grid()[a]@.len() == s0.rows());
                    }
                    assert forall|a: int, b: int| old(self).valid_cell(a, b) implies (#[trigger] self.cell(a, b)).len() == old(self).cell(a, b).len() by {
                        if (a, b) != (bx as int, by as int) {
                            assert(self.cell(a, b) == s0.cell(a, b));
                        }
                        assert(s0.cell(a, b).len() == old(self).cell(a, b).len());
                    }
                    assert forall|a: int, b: int, k: int|
                        old(self).valid_cell(a, b) && 0 <= k < old(self).cell(a, b).len() implies if scanned_before(a, b, bx as int, by as int + 1) {
                            exposed_by(table@, old(self).cell(a, b)[k]@, (#[trigger] self.cell(a, b)[k])@)
                        } else {
                            self.cell(a, b)[k] == old(self).cell(a, b)[k]
                        } by {
                        if (a, b) != (bx as int, by as int) {
                            assert(self.cell(a, b) == s0.cell(a, b));
                            assert(s0.cell(a, b)[k] == self.cell(a, b)[k]);
                        } else {
                            assert(s0.cell(a, b)[k] == old(self).cell(a, b)[k]);
                        }
                    }
                }
                by = by + 1;
            }
            bx = bx + 1;
        }
        proof {
            assert forall|a: int, b: int, k: int|
                self.valid_cell(a, b) && 0 <= k < self.cell(a, b).len() implies {
                    let p = (#[trigger] self.cell(a, b)[k])@.position;
                    &&& in_world(p, self.width(), self.height())
                    &&& self.cell_of(p) == (a, b)
                } by {
                let p = old(self).cell(a, b)[k]@;
                let q = self.cell(a, b)[k]@;
                assert(exposed_by(table@, p, q));
                if p.id < table@.len() && table@[p.id as int] is Some {
                    let c = choose|c: u32| c < PROBABILITY_SCALE && q == #[trigger] p.infected(table@[p.id as int]->0, c);
                }
                assert(q.position == p.position);
            }
        }
    }

    /// Moves and ages every agent once, then puts each agent that left its
    /// cell into the cell it moved to. Agents that change cell are gathered
    /// first and placed after the pass, so none is visited twice or skipped.
    pub fn update_positions(&mut self, move_speed: u32)
        requires
            old(self).wf(),
            old(self).can_age(),
        ensures
            final(self).wf(),
            final(self).width() == old(self).width(),
            final(self).height() == old(self).height(),
            final(self).cols() == old(self).cols(),
            final(self).rows() == old(self).rows(),
            final(self).size() == old(self).size(),
            forall|i: int, j: int, k: int|
                final(self).valid_cell(i, j) && 0 <= k < final(self).cell(i, j).len() ==> old(self).has_source(
                    (#[trigger] final(self).cell(i, j)[k])@,
                    move_speed as int,
                ),
    {
        let w = self.world_width;
        let h = self.world_height;
        let cols = self.people.len();
        let rows = self.people[0].len();
        let mut moved: Vec<Person> = Vec::new();
        let mut bx: usize = 0;
        while bx < cols
            invariant
                old(self).wf(),
                old(self).can_age(),
                self.shaped(),
                w == self.world_width == old(self).world_width,
                h == self.world_height == old(self).world_height,
                cols == old(self).cols() == self.cols(),
                rows == old(self).rows() == self.rows(),
                bx <= cols,
                self.size() + moved@.len() == old(self).size(),
                forall|m: int|
                    0 <= m < moved@.len() ==> in_world((#[trigger] moved@[m])@.position, w as int, h as int)
                        && old(self).has_source(moved@[m]@, move_speed as int),
                forall|a: int, b: int, k: int|
                    self.valid_cell(a, b) && 0 <= k < self.cell(a, b).len() && a < bx ==> {
                        let q = (#[trigger] self.cell(a, b)[k])@;
                        &&& in_world(q.position, w as int, h as int)
                        &&& self.cell_of(q.position) == (a, b)
                        &&& old(self).has_source(q, move_speed as int)
                    },
                forall|a: int, b: int| self.valid_cell(a, b) && a >= bx ==> #[trigger] self.cell(a, b) == old(self).cell(a, b),
            decreases cols - bx,
        {
            let mut by: usize = 0;
            while by < rows
                invariant
                    old(self).wf(),
                    old(self).can_age(),
                    self.shaped(),
                    w == self.world_width == old(self).world_width,
                    h == self.world_height == old(self).world_height,
                    cols == old(self).cols() == self.cols(),
                    rows == old(self).rows() == self.rows(),
                    bx < cols,
                    by <= rows,
                    self.size() + moved@.len() == old(self).size(),
                    forall|m: int|
                        0 <= m < moved@.len() ==> in_world((#[trigger] moved@[m])@.position, w as int, h as int)
                            && old(self).has_source(moved@[m]@, move_speed as int),
                    forall|a: int, b: int, k: int|
                        self.valid_cell(a, b) && 0 <= k < self.cell(a, b).len() && scanned_before(a, b, bx as int, by as int) ==> {
                            let q = (#[trigger] self.cell(a, b)[k])@;
                            &&& in_world(q.position, w as int, h as int)
                            &&& self.cell_of(q.position) == (a, b)
                            &&& old(self).has_source(q, move_speed as int)
                        },
                    forall|a: int, b: int|
                        self.valid_cell(a, b) && !scanned_before(a, b, bx as int, by as int) ==> #[trigger] self.cell(a, b)
                            == old(self).cell(a, b),
                decreases rows - by,
            {
                let mut cell: Vec<Person> = Vec::new();
                let ghost s0 = *self;
                let ghost source = self.cell(bx as int, by as int);
                std::mem::swap(&mut self.people[bx][by], &mut cell);
                proof {
                    assert(self.people@ =~= s0.people@.update(bx as int, self.people@[bx as int]));
                    assert(self.people@[bx as int]@ =~= s0.people@[bx as int]@.update(by as int, self.people@[bx as int]@[by as int]));
                    lemma_cell_replaced(s0, *self, bx as int, by as int);
                    assert(cell@ == source);
                    assert(source == old(self).cell(bx as int, by as int));
                }
                let mut stay: Vec<Person> = Vec::new();
                while cell.len() > 0
                    invariant
                        old(self).wf(),
                        old(self).can_age(),
                        self.shaped(),
                        w == self.world_width == old(self).world_width,
                        h == self.world_height == old(self).world_height,
                        cols == old(self).cols() == self.cols(),
                        rows == old(self).rows() == self.rows(),
                        bx < cols,
                        by < rows,
                        source == old(self).cell(bx as int, by as int),
                        cell@ == source.take(cell@.len() as int),
                        cell@.len() <= source.len(),
                        self.cell(bx as int, by as int).len() == 0,
                        self.size() + moved@.len() + stay@.len() + cell@.len() == old(self).size(),
                        forall|m: int|
                            0 <= m < moved@.len() ==> in_world((#[trigger] moved@[m])@.position, w as int, h as int)
                                && old(self).has_source(moved@[m]@, move_speed as int),
                        forall|m: int|
                            0 <= m < stay@.len() ==> in_world((#[trigger] stay@[m])@.position, w as int, h as int)
                                && self.cell_of(stay@[m]@.position) == (bx as int, by as int)
                                && old(self).has_source(stay@[m]@, move_speed as int),
                    decreases cell@.len(),
                {
                    let ghost k = cell@.len() - 1;
                    let mut p = cell.pop().unwrap();
                    let ghost p0 = p@;
                    proof {
                        assert(p == source[k]);
                        assert(old(self).cell(bx as int, by as int)[k] == p);
                        assert(cell@ =~= source.take(k));
                    }
                    p.move_random(move_speed, w, h);
                    let ghost p1 = p@;
                    p.update_age();
                    proof {
                        let (dx, dy) = choose|dx: int, dy: int|
                            -move_speed <= dx <= move_speed && -move_speed <= dy <= move_speed && p1
                                == #[trigger] p0.moved(dx, dy, w as int, h as int);
                        let c = choose|c: u32| c < PROBABILITY_SCALE && p@ == #[trigger] p1.aged(c);
                        assert(p@ == p0.moved(dx, dy, w as int, h as int).aged(c));
                        assert(stepped(old(self).cell(bx as int, by as int)[k]@, p@, move_speed as int, w as int, h as int));
                        assert(old(self).has_source(p@, move_speed as int));
                    }
                    let pos = p.get_position();
                    let (x, y) = self.get_indexes(pos.x, pos.y);
                    if x == bx && y == by {
                        stay.push(p);
                    } else {
                        moved.push(p);
                    }
                }
                let ghost s1 = *self;
                let ghost stayed = stay@;
                std::mem::swap(&mut self.people[bx][by], &mut stay);
                proof {
                    assert(self.people@ =~= s1.people@.update(bx as int, self.people@[bx as int]));
                    assert(self.people@[bx as int]@ =~= s1.people@[bx as int]@.update(by as int, self.people@[bx as int]@[by as int]));
                    lemma_cell_replaced(s1, *self, bx as int, by as int);
                    assert forall|a: int, b: int, k: int|
                        self.valid_cell(a, b) && 0 <= k < self.cell(a, b).len() && scanned_before(a, b, bx as int, by as int + 1) implies {
                            let q = (#[trigger] self.cell(a, b)[k])@;
                            &&& in_world(q.position, w as int, h as int)
                            &&& self.cell_of(q.position) == (a, b)
                            &&& old(self).has_source(q, move_speed as int)
                        } by {
                        if (a, b) != (bx as int, by as int) {
                            assert(self.cell(a, b) == s1.cell(a, b));
                            assert(s1.cell(a, b) == s0.cell(a, b));
                        } else {
                            assert(self.cell(a, b) == stayed);
                            assert(self.cell(a, b)[k] == stayed[k]);
                        }
                    }
                    assert forall|a: int, b: int|
                        self.valid_cell(a, b) && !scanned_before(a, b, bx as int, by as int + 1) implies #[trigger] self.cell(a, b)
                            == old(self).cell(a, b) by {
                        assert(self.cell(a, b) == s1.cell(a, b));
                        assert(s1.cell(a, b) == s0.cell(a, b));
                    }
                }
                by = by + 1;
            }
            proof {
                assert forall|a: int, b: int, k: int|
                    self.valid_cell(a, b) && 0 <= k < self.cell(a, b).len() && a < bx + 1 implies {
                        let q = (#[trigger] self.cell(a, b)[k])@;
                        &&& in_world(q.position, w as int, h as int)
                        &&& self.cell_of(q.position) == (a, b)
                        &&& old(self).has_source(q, move_speed as int)
                    } by {
                    assert(scanned_before(a, b, bx as int, rows as int));
                }
            }
            bx = bx + 1;
        }
        while moved.len() > 0
            invariant
                self.shaped(),
                w == self.world_width == old(self).world_width,
                h == self.world_height == old(self).world_height,
                cols == old(self).cols() == self.cols(),
                rows == old(self).rows() == self.rows(),
                self.size() + moved@.len() == old(self).size(),
                forall|m: int|
                    0 <= m < moved@.len() ==> in_world((#[trigger] moved@[m])@.position, w as int, h as int)
                        && old(self).has_source(moved@[m]@, move_speed as int),
                forall|a: int, b: int, k: int|
                    self.valid_cell(a, b) && 0 <= k < self.cell(a, b).len() ==> {
                        let q = (#[trigger] self.cell(a, b)[k])@;
                        &&& in_world(q.position, w as int, h as int)
                        &&& self.cell_of(q.position) == (a, b)
                        &&& old(self).has_source(q, move_speed as int)
                    },
            decreases moved@.len(),
        {
            let ghost before = moved@;
            let p = moved.pop().unwrap();
            proof {
                assert(p == before[before.len() - 1]);
                assert forall|m: int| 0 <= m < moved@.len() implies #[trigger] moved@[m] == before[m] by {}
            }
            let pos = p.get_position();
            let (x, y) = self.get_indexes(pos.x, pos.y);
            let ghost s2 = *self;
            self.people[x][y].push(p);
            proof {
                assert(self.people@ =~= s2.people@.update(x as int, self.people@[x as int]));
                assert(self.people@[x as int]@ =~= s2.people@[x as int]@.update(y as int, self.people@[x as int]@[y as int]));
                lemma_cell_replaced(s2, *self, x as int, y as int);
                assert forall|a: int, b: int, k: int|
                    self.valid_cell(a, b) && 0 <= k < self.cell(a, b).len() implies {
                        let q = (#[trigger] self.cell(a, b)[k])@;
                        &&& in_world(q.position, w as int, h as int)
                        &&& self.cell_of(q.position) == (a, b)
                        &&& old(self).has_source(q, move_speed as int)
                    } by {
                    if (a, b) != (x as int, y as int) {
                        assert(self.cell(a, b) == s2.cell(a, b));
                    } else if k < s2.cell(a, b).len() {
                        assert(self.cell(a, b)[k] == s2.cell(a, b)[k]);
                    }
                }
            }
        }
    }

    /// The number of columns and rows of cells.
    pub fn grid_size(&self) -> (r: (usize, usize))
        requires
            self.shaped(),
        ensures
            r.0 == self.cols(),
            r.1 == self.rows(),
    {
        (self.people.len(), self.people[0].len())
    }

    /// The agents of cell `(x, y)`.
    pub fn cell_people(&self, x: usize, y: usize) -> (r: &Vec<Person>)
        requires
            self.shaped(),
            self.valid_cell(x as int, y as int),
        ensures
            r@ == self.cell(x as int, y as int),
    {
        &self.people[x][y]
    }

    /// Every agent, cell after cell.
    pub fn iter(&self) -> (r: Vec<&Person>)
        ensures
            r@.len() == self.people_seq().len(),
            forall|t: int| 0 <= t < r@.len() ==> *(#[trigger] r@[t]) == self.people_seq()[t],
    {
        let mut out: Vec<&Person> = Vec::new();
        let mut i: usize = 0;
        while i < self.people.len()
            invariant
                i <= self.people@.len(),
                deref_all(out@) == grid_people(self.people@.take(i as int)),
            decreases self.people@.len() - i,
        {
            let column = &self.people[i];
            let mut j: usize = 0;
            while j < column.len()
                invariant
                    i < self.people@.len(),
                    column == self.people@[i as int],
                    j <= column@.len(),
                    deref_all(out@) == grid_people(self.people@.take(i as int)) + row_people(column@.take(j as int)),
                decreases column@.len() - j,
            {
                let cell = &column[j];
                let mut k: usize = 0;
                while k < cell.len()
                    invariant
                        j < column@.len(),
                        cell == column@[j as int],
                        k <= cell@.len(),
                        deref_all(out@) == grid_people(self.people@.take(i as int)) + row_people(column@.take(j as int))
                            + cell@.take(k as int),
                    decreases cell@.len() - k,
                {
                    let ghost before = out@;
                    out.push(&cell[k]);
                    proof {
                        assert(out@ == before.push(&cell@[k as int]));
                        assert(deref_all(out@) =~= deref_all(before).push(cell@[k as int]));
                        assert(cell@.take(k as int + 1) =~= cell@.take(k as int).push(cell@[k as int]));
                    }
                    k = k + 1;
                }
                proof {
                    assert(cell@.take(k as int) =~= cell@);
                    assert(column@.take(j as int + 1).drop_last() =~= column@.take(j as int));
                }
                j = j + 1;
            }
            proof {
                assert(column@.take(j as int) =~= column@);
                assert(self.people@.take(i as int + 1).drop_last() =~= self.people@.take(i as int));
            }
            i = i + 1;
        }
        proof {
            assert(self.people@.take(i as int) =~= self.people@);
            assert forall|t: int| 0 <= t < out@.len() implies *(#[trigger] out@[t]) == self.people_seq()[t] by {
                assert(deref_all(out@)[t] == *out@[t]);
            }
        }
        out
    }
}

/// The infection radius is strict: an infectious agent at `p1` reaches a
/// susceptible agent exactly when their squared distance is below the square
/// of its virus's radius, so at exactly that square it does not.
pub proof fn lemma_radius_boundary(p1: Location, v: Virus, p2: Person, w: int, h: int)
    requires
        p2@.state == PersonState::Susceptible,
    ensures
        sq_dist(p1, p2@.position, w, h) >= v.distance * v.distance ==> contacts(p1, v, seq![p2], w, h).len() == 0,
        sq_dist(p1, p2@.position, w, h) < v.distance * v.distance ==> contacts(p1, v, seq![p2], w, h) == seq![(p2@.id, v)],
{
    let cell = seq![p2];
    assert(cell.drop_last() =~= Seq::<Person>::empty());
    assert(contacts(p1, v, cell.drop_last(), w, h) == Seq::<(usize, Virus)>::empty());
    assert(Seq::<(usize, Virus)>::empty().push((p2@.id, v)) =~= seq![(p2@.id, v)]);
}

/// Whether some batch of `batches` names the agent `id`.
pub open spec fn named_in(batches: Seq<Seq<(usize, Virus)>>, id: int) -> bool {
    exists|s: int, t: int| 0 <= s < batches.len() && 0 <= t < batches[s].len() && (#[trigger] batches[s][t]).0 == id
}

/// Recording batches of contacts (see `record_infections`) marks the agents
/// that some batch names, whatever the order of the batches: workers that
/// share out the cells in any way mark the same agents as one worker does.
pub proof fn lemma_marks_order_free(b1: Seq<Seq<(usize, Virus)>>, b2: Seq<Seq<(usize, Virus)>>, id: int)
    requires
        b1.to_multiset() == b2.to_multiset(),
    ensures
        named_in(b1, id) == named_in(b2, id),
{
    b1.to_multiset_ensures();
    b2.to_multiset_ensures();
    if named_in(b1, id) {
        let (s, t) = choose|s: int, t: int| 0 <= s < b1.len() && 0 <= t < b1[s].len() && (#[trigger] b1[s][t]).0 == id;
        assert(b1.contains(b1[s]));
        assert(b1.to_multiset().count(b1[s]) > 0);
        assert(b2.to_multiset().count(b1[s]) > 0);
        assert(b2.contains(b1[s]));
        let s2 = choose|s2: int| 0 <= s2 < b2.len() && b2[s2] == b1[s];
        assert(b2[s2][t].0 == id);
    }
    if named_in(b2, id) {
        let (s, t) = choose|s: int, t: int| 0 <= s < b2.len() && 0 <= t < b2[s].len() && (#[trigger] b2[s][t]).0 == id;
        assert(b2.contains(b2[s]));
        assert(b2.to_multiset().count(b2[s]) > 0);
        assert(b1.to_multiset().count(b2[s]) > 0);
        assert(b1.contains(b2[s]));
        let s1 = choose|s1: int| 0 <= s1 < b1.len() && b1[s1] == b2[s];
        assert(b1[s1][t].0 == id);
    }
}

/// Two points of an axis of length `dim`, cut into `n` cells at least `r`
/// long (or a single cell), that are less than `r` apart the shorter way
/// round lie in the same cell or in cells next to each other, round the
/// seam included.
pub proof fn lemma_close_points_adjacent_cells(x1: int, x2: int, dim: int, n: int, r: int)
    requires
        0 <= x1 < dim,
        0 <= x2 < dim,
        1 <= n,
        n == 1 || n * r <= dim,
        axis_gap(x1, x2, dim) < r,
    ensures
        exists|d: int| 0 <= d < 3 && cell_index(x2, dim, n) == #[trigger] ((cell_index(x1, dim, n) + d - 1) % n),
{
    let c1 = x1 * n / dim;
    let c2 = x2 * n / dim;
    vstd::arithmetic::div_mod::lemma_fundamental_div_mod(x1 * n, dim);
    vstd::arithmetic::div_mod::lemma_fundamental_div_mod(x2 * n, dim);
    vstd::arithmetic::div_mod::lemma_mod_pos_bound(x1 * n, dim);
    vstd::arithmetic::div_mod::lemma_mod_pos_bound(x2 * n, dim);
    let r1 = (x1 * n) % dim;
    let r2 = (x2 * n) % dim;
    assert(0 <= x1 * n < dim * n) by (nonlinear_arith)
        requires 0 <= x1 < dim, 1 <= n;
    assert(0 <= x2 * n < dim * n) by (nonlinear_arith)
        requires 0 <= x2 < dim, 1 <= n;
    assert(0 <= c1 < n) by (nonlinear_arith)
        requires x1 * n == dim * c1 + r1, 0 <= r1 < dim, 0 <= x1 * n < dim * n, dim > 0;
    assert(0 <= c2 < n) by (nonlinear_arith)
        requires x2 * n == dim * c2 + r2, 0 <= r2 < dim, 0 <= x2 * n < dim * n, dim > 0;
    vstd::arithmetic::div_mod::lemma_small_mod(c1 as nat, n as nat);
    vstd::arithmetic::div_mod::lemma_small_mod(c2 as nat, n as nat);
    assert(cell_index(x1, dim, n) == c1);
    assert(cell_index(x2, dim, n) == c2);
    if n == 1 {
        assert((c1 + 1 - 1) % n == c2);
    } else {
        let g = if x1 >= x2 { x1 - x2 } else { x2 - x1 };
        if g < r {
            assert(-dim < x1 * n - x2 * n < dim) by (nonlinear_arith)
                requires g == (if x1 >= x2 { x1 - x2 } else { x2 - x1 }), g < r, n * r <= dim, n >= 1, g >= 0;
            assert(-2 < c1 - c2 < 2) by (nonlinear_arith)
                requires
                    x1 * n == dim * c1 + r1,
                    x2 * n == dim * c2 + r2,
                    0 <= r1 < dim,
                    0 <= r2 < dim,
                    -dim < x1 * n - x2 * n < dim,
                    dim > 0;
            let d = c2 - c1 + 1;
            assert((c1 + d - 1) % n == c2);
        } else if x1 < x2 {
            assert(x1 + dim - x2 < r);
            assert((x1 + dim - x2) * n < dim) by (nonlinear_arith)
                requires x1 + dim - x2 < r, n * r <= dim, n >= 1, x1 + dim - x2 >= 0;
            assert(x1 * n + n <= (x1 + dim - x2) * n) by (nonlinear_arith)
                requires dim - x2 >= 1, n >= 1;
            assert(c1 == 0) by (nonlinear_arith)
                requires x1 * n == dim * c1 + r1, 0 <= r1 < dim, 0 <= x1 * n < dim, c1 >= 0;
            assert(x2 * n > dim * (n - 1)) by (nonlinear_arith)
                requires (x1 + dim - x2) * n < dim, x1 >= 0, n >= 1;
            assert(c2 == n - 1) by (nonlinear_arith)
                requires x2 * n == dim * c2 + r2, 0 <= r2 < dim, x2 * n > dim * (n - 1), c2 < n;
            assert((c1 + 0 - 1) % n == c2) by {
                vstd::arithmetic::div_mod::lemma_mod_add_multiples_vanish(-1, n);
                vstd::arithmetic::div_mod::lemma_small_mod((n - 1) as nat, n as nat);
            }
        } else {
            assert(x2 + dim - x1 < r);
            assert((x2 + dim - x1) * n < dim) by (nonlinear_arith)
                requires x2 + dim - x1 < r, n * r <= dim, n >= 1, x2 + dim - x1 >= 0;
            assert(x2 * n + n <= (x2 + dim - x1) * n) by (nonlinear_arith)
                requires dim - x1 >= 1, n >= 1;
            assert(c2 == 0) by (nonlinear_arith)
                requires x2 * n == dim * c2 + r2, 0 <= r2 < dim, 0 <= x2 * n < dim, c2 >= 0;
            assert(x1 * n > dim * (n - 1)) by (nonlinear_arith)
                requires (x2 + dim - x1) * n < dim, x2 >= 0, n >= 1;
            assert(c1 == n - 1) by (nonlinear_arith)
                requires x1 * n == dim * c1 + r1, 0 <= r1 < dim, x1 * n > dim * (n - 1), c1 < n;
            assert((c1 + 2 - 1) % n == c2) by {
                vstd::arithmetic::div_mod::lemma_mod_self_0(n);
            }
        }
    }
}

/// An element of either part is an element of a concatenation.
proof fn lemma_concat_contains<A>(a: Seq<A>, b: Seq<A>, e: A)
    requires
        a.contains(e) || b.contains(e),
    ensures
        (a + b).contains(e),
{
    if a.contains(e) {
        let u = choose|u: int| 0 <= u < a.len() && a[u] == e;
        assert((a + b)[u] == e);
    } else {
        let u = choose|u: int| 0 <= u < b.len() && b[u] == e;
        assert((a + b)[a.len() + u] == e);
    }
}

/// A susceptible agent of `cell` strictly inside the radius of `v` around
/// `p1` is among the contacts.
proof fn lemma_contacts_include(p1: Location, v: Virus, cell: Seq<Person>, k: int, w: int, h: int)
    requires
        0 <= k < cell.len(),
        cell[k]@.state == PersonState::Susceptible,
        sq_dist(p1, cell[k]@.position, w, h) < v.distance * v.distance,
    ensures
        contacts(p1, v, cell, w, h).contains((cell[k]@.id, v)),
    decreases cell.len(),
{
    let e = (cell[k]@.id, v);
    let rest = contacts(p1, v, cell.drop_last(), w, h);
    if k == cell.len() - 1 {
        assert(rest.push(e)[rest.len() as int] == e);
    } else {
        lemma_contacts_include(p1, v, cell.drop_last(), k, w, h);
        let u = choose|u: int| 0 <= u < rest.len() && rest[u] == e;
        assert(contacts(p1, v, cell, w, h)[u] == e);
    }
}

impl Population {
    /// The contacts in block cell `t` are among those of the first `n`
    /// block cells when `t < n`.
    proof fn lemma_reach_include(&self, p1: Location, v: Virus, bx: int, by: int, t: int, n: int, e: (usize, Virus))
        requires
            0 <= t < n,
            contacts(p1, v, self.neighbour(bx, by, t), self.width(), self.height()).contains(e),
        ensures
            self.reach(p1, v, bx, by, n).contains(e),
        decreases n,
    {
        let last = contacts(p1, v, self.neighbour(bx, by, n - 1), self.width(), self.height());
        if t < n - 1 {
            self.lemma_reach_include(p1, v, bx, by, t, n - 1, e);
        }
        lemma_concat_contains(self.reach(p1, v, bx, by, n - 1), last, e);
    }

    /// The contacts of agent `k` of cell `(bx, by)` are among those of the
    /// cell's first `n` agents when `k < n`.
    proof fn lemma_box_hits_include(&self, bx: int, by: int, k: int, n: int, e: (usize, Virus))
        requires
            0 <= k < n <= self.cell(bx, by).len(),
            self.cell(bx, by)[k]@.state is Infectious,
            self.reach(
                self.cell(bx, by)[k]@.position,
                self.cell(bx, by)[k]@.state->Infectious_0,
                bx,
                by,
                9,
            ).contains(e),
        ensures
            self.box_hits_upto(bx, by, n).contains(e),
        decreases n,
    {
        let p1 = self.cell(bx, by)[n - 1]@;
        let tail = match p1.state {
            PersonState::Infectious(v) => self.reach(p1.position, v, bx, by, 9),
            _ => Seq::empty(),
        };
        if k < n - 1 {
            self.lemma_box_hits_include(bx, by, k, n - 1, e);
        }
        lemma_concat_contains(self.box_hits_upto(bx, by, n - 1), tail, e);
    }
}

/// Every contact between an agent at `p1` and `cell` carries `v`.
proof fn lemma_contacts_carry(p1: Location, v: Virus, cell: Seq<Person>, w: int, h: int)
    ensures
        forall|u: int| 0 <= u < contacts(p1, v, cell, w, h).len() ==> (#[trigger] contacts(p1, v, cell, w, h)[u]).1 == v,
    decreases cell.len(),
{
    if cell.len() > 0 {
        lemma_contacts_carry(p1, v, cell.drop_last(), w, h);
        let rest = contacts(p1, v, cell.drop_last(), w, h);
        assert forall|u: int| 0 <= u < contacts(p1, v, cell, w, h).len() implies (#[trigger] contacts(p1, v, cell, w, h)[u]).1 == v by {
            if u < rest.len() {
                assert(rest[u].1 == v);
            }
        }
    }
}

impl Population {
    /// Every contact made in the first `n` block cells carries `v`.
    proof fn lemma_reach_carries(&self, p1: Location, v: Virus, bx: int, by: int, n: int)
        ensures
            forall|u: int|
                0 <= u < self.reach(p1, v, bx, by, n).len() ==> (#[trigger] self.reach(p1, v, bx, by, n)[u]).1 == v,
        decreases n,
    {
        if n > 0 {
            self.lemma_reach_carries(p1, v, bx, by, n - 1);
            lemma_contacts_carry(p1, v, self.neighbour(bx, by, n - 1), self.width(), self.height());
            let a = self.reach(p1, v, bx, by, n - 1);
            let b = contacts(p1, v, self.neighbour(bx, by, n - 1), self.width(), self.height());
            assert forall|u: int| 0 <= u < (a + b).len() implies (#[trigger] (a + b)[u]).1 == v by {
                if u >= a.len() {
                    assert((a + b)[u] == b[u - a.len()]);
                }
            }
        }
    }

    /// Every contact made by the first `n` agents of cell `(bx, by)` carries
    /// the virus of one of them.
    proof fn lemma_box_hits_carry(&self, bx: int, by: int, n: int)
        requires
            0 <= n <= self.cell(bx, by).len(),
        ensures
            forall|u: int|
                0 <= u < self.box_hits_upto(bx, by, n).len() ==> exists|k: int|
                    0 <= k < n && (#[trigger] self.cell(bx, by)[k])@.state == PersonState::Infectious(
                        (#[trigger] self.box_hits_upto(bx, by, n)[u]).1,
                    ),
        decreases n,
    {
        if n > 0 {
            self.lemma_box_hits_carry(bx, by, n - 1);
            let p1 = self.cell(bx, by)[n - 1]@;
            let a = self.box_hits_upto(bx, by, n - 1);
            let b = match p1.state {
                PersonState::Infectious(v) => self.reach(p1.position, v, bx, by, 9),
                _ => Seq::empty(),
            };
            if let PersonState::Infectious(v) = p1.state {
                self.lemma_reach_carries(p1.position, v, bx, by, 9);
            }
            assert forall|u: int| 0 <= u < (a + b).len() implies exists|k: int|
                0 <= k < n && (#[trigger] self.cell(bx, by)[k])@.state == PersonState::Infectious(
                    (#[trigger] (a + b)[u]).1,
                ) by {
                if u >= a.len() {
                    assert((a + b)[u] == b[u - a.len()]);
                    assert(self.cell(bx, by)[n - 1]@.state == PersonState::Infectious((a + b)[u].1));
                } else {
                    assert((a + b)[u] == a[u]);
                    let k = choose|k: int| 0 <= k < n - 1 && (#[trigger] self.cell(bx, by)[k])@.state == PersonState::Infectious(a[u].1);
                }
            }
        }
    }

    /// A pending infection carries the virus of some infectious agent.
    pub proof fn lemma_pending_has_carrier(&self, id: usize, v: Virus)
        requires
            self.pending(id, v),
        ensures
            exists|i: int, j: int, k: int|
                self.valid_cell(i, j) && 0 <= k < self.cell(i, j).len() && (#[trigger] self.cell(i, j)[k])@.state
                    == PersonState::Infectious(v),
    {
        let (bx, by, t) = choose|bx: int, by: int, t: int|
            self.valid_cell(bx, by) && 0 <= t < self.box_hits(bx, by).len() && #[trigger] self.box_hits(bx, by)[t] == (id, v);
        self.lemma_box_hits_carry(bx, by, self.cell(bx, by).len() as int);
        assert(self.box_hits_upto(bx, by, self.cell(bx, by).len() as int)[t].1 == v);
        let k = choose|k: int|
            0 <= k < self.cell(bx, by).len() && (#[trigger] self.cell(bx, by)[k])@.state == PersonState::Infectious(v);
    }
}

/// The neighbourhood scan misses no one: when the cells are at least as wide
/// as an infectious agent's radius, every susceptible agent strictly inside
/// that radius, in whatever cell, is a pending infection with its virus.
pub proof fn lemma_scan_finds_close_agents(pop: Population, bx: int, by: int, k1: int, i: int, j: int, k2: int)
    requires
        pop.wf(),
        pop.valid_cell(bx, by),
        pop.valid_cell(i, j),
        0 <= k1 < pop.cell(bx, by).len(),
        0 <= k2 < pop.cell(i, j).len(),
        pop.cell(bx, by)[k1]@.state is Infectious,
        pop.fits_radius(pop.cell(bx, by)[k1]@.state->Infectious_0.distance as int),
        pop.cell(i, j)[k2]@.state == PersonState::Susceptible,
        sq_dist(pop.cell(bx, by)[k1]@.position, pop.cell(i, j)[k2]@.position, pop.width(), pop.height())
            < pop.cell(bx, by)[k1]@.state->Infectious_0.distance * pop.cell(bx, by)[k1]@.state->Infectious_0.distance,
    ensures
        pop.pending(pop.cell(i, j)[k2]@.id, pop.cell(bx, by)[k1]@.state->Infectious_0),
        pop.marked(pop.cell(i, j)[k2]@.id as int),
{
    let p1 = pop.cell(bx, by)[k1]@;
    let p2 = pop.cell(i, j)[k2]@;
    let v = p1.state->Infectious_0;
    let r = v.distance as int;
    let (w, h) = (pop.width(), pop.height());
    let gx = axis_gap(p1.position.x as int, p2.position.x as int, w);
    let gy = axis_gap(p1.position.y as int, p2.position.y as int, h);
    assert(gx < r) by (nonlinear_arith)
        requires gx * gx + gy * gy < r * r, gx >= 0, r >= 0;
    assert(gy < r) by (nonlinear_arith)
        requires gx * gx + gy * gy < r * r, gy >= 0, r >= 0;
    lemma_close_points_adjacent_cells(p1.position.x as int, p2.position.x as int, w, pop.cols(), r);
    lemma_close_points_adjacent_cells(p1.position.y as int, p2.position.y as int, h, pop.rows(), r);
    let dx = choose|d: int| 0 <= d < 3 && i == #[trigger] ((bx + d - 1) % pop.cols());
    let dy = choose|d: int| 0 <= d < 3 && j == #[trigger] ((by + d - 1) % pop.rows());
    let t = dx * 3 + dy;
    assert(t / 3 == dx && t % 3 == dy);
    assert(pop.neighbour(bx, by, t) == pop.cell(i, j));
    let e = (p2.id, v);
    lemma_contacts_include(p1.position, v, pop.cell(i, j), k2, w, h);
    pop.lemma_reach_include(p1.position, v, bx, by, t, 9, e);
    pop.lemma_box_hits_include(bx, by, k1, pop.cell(bx, by).len() as int, e);
    let u = choose|u: int| 0 <= u < pop.box_hits(bx, by).len() && pop.box_hits(bx, by)[u] == e;
    assert(pop.box_hits(bx, by)[u].0 == p2.id);
}

/// Replacing the vector of cell `(bx, by)` keeps the grid's shape and its
/// other cells, and changes its agent count by the difference in length.
proof fn lemma_cell_replaced(s0: Population, s1: Population, bx: int, by: int)
    requires
        s0.shaped(),
        s0.valid_cell(bx, by),
        s1.world_width == s0.world_width,
        s1.world_height == s0.world_height,
        s1.people@ == s0.people@.update(bx, s1.people@[bx]),
        s1.people@[bx]@ == s0.people@[bx]@.update(by, s1.people@[bx]@[by]),
    ensures
        s1.shaped(),
        s1.cols() == s0.cols(),
        s1.rows() == s0.rows(),
        s1.width() == s0.width(),
        s1.height() == s0.height(),
        forall|a: int, b: int| s0.valid_cell(a, b) && (a, b) != (bx, by) ==> #[trigger] s1.cell(a, b) == s0.cell(a, b),
        s1.size() == s0.size() - s0.cell(bx, by).len() + s1.cell(bx, by).len(),
{
    lemma_cell_len_update(s0.people@, s1.people@, bx, by);
    assert(s1.rows() == s0.rows()) by {
        if bx != 0 {
            assert(s1.people@[0] == s0.people@[0]);
        }
    }
    assert forall|a: int| 0 <= a < s1.cols() implies (#[trigger] s1.grid()[a])@.len() == s1.rows() by {
        assert(s0.grid()[a]@.len() == s0.rows());
    }
}

/// A row of empty cells holds no agent.
proof fn lemma_empty_row(row: Seq<Vec<Person>>)
    requires
        forall|b: int| 0 <= b < row.len() ==> (#[trigger] row[b])@.len() == 0,
    ensures
        row_people(row).len() == 0,
    decreases row.len(),
{
    if row.len() > 0 {
        lemma_empty_row(row.drop_last());
    }
}

/// A grid of empty cells holds no agent.
proof fn lemma_empty_grid(g: Seq<Vec<Vec<Person>>>)
    requires
        forall|a: int, b: int| 0 <= a < g.len() && 0 <= b < g[a]@.len() ==> (#[trigger] g[a]@[b])@.len() == 0,
    ensures
        grid_people(g).len() == 0,
    decreases g.len(),
{
    if g.len() > 0 {
        lemma_empty_grid(g.drop_last());
        let row = g.last()@;
        assert forall|b: int| 0 <= b < row.len() implies (#[trigger] row[b])@.len() == 0 by {
            assert(g[g.len() - 1]@[b]@.len() == 0);
        }
        lemma_empty_row(row);
    }
}

/// Replacing cell `j` of a row by `v` changes the row's agent count by the
/// difference in the cell's length.
pub proof fn lemma_row_len_update(row: Seq<Vec<Person>>, j: int, v: Vec<Person>)
    requires
        0 <= j < row.len(),
    ensures
        row_people(row.update(j, v)).len() == row_people(row).len() - row[j]@.len() + v@.len(),
    decreases row.len(),
{
    let r2 = row.update(j, v);
    if j == row.len() - 1 {
        assert(r2.drop_last() =~= row.drop_last());
    } else {
        assert(r2.drop_last() =~= row.drop_last().update(j, v));
        lemma_row_len_update(row.drop_last(), j, v);
    }
}

/// Replacing column `i` of a grid by `r` changes the grid's agent count by
/// the difference in the column's count.
pub proof fn lemma_grid_len_update(g: Seq<Vec<Vec<Person>>>, i: int, r: Vec<Vec<Person>>)
    requires
        0 <= i < g.len(),
    ensures
        grid_people(g.update(i, r)).len() == grid_people(g).len() - row_people(g[i]@).len()
            + row_people(r@).len(),
    decreases g.len(),
{
    let g2 = g.update(i, r);
    if i == g.len() - 1 {
        assert(g2.drop_last() =~= g.drop_last());
    } else {
        assert(g2.drop_last() =~= g.drop_last().update(i, r));
        lemma_grid_len_update(g.drop_last(), i, r);
    }
}

/// Replacing cell `(i, j)` of a grid by `c` changes the grid's agent count by
/// the difference in the cell's length.
pub proof fn lemma_cell_len_update(g: Seq<Vec<Vec<Person>>>, g2: Seq<Vec<Vec<Person>>>, i: int, j: int)
    requires
        0 <= i < g.len(),
        0 <= j < g[i]@.len(),
        g2 == g.update(i, g2[i]),
        g2[i]@ == g[i]@.update(j, g2[i]@[j]),
    ensures
        grid_people(g2).len() == grid_people(g).len() - g[i]@[j]@.len() + g2[i]@[j]@.len(),
{
    lemma_grid_len_update(g, i, g2[i]);
    lemma_row_len_update(g[i]@, j, g2[i]@[j]);
}

} // verus!
