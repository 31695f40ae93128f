use vstd::prelude::*;

use crate::{AiDifficulty, GridOptions, GridSize, grid_dim};
use crate::client::WorldEvent;
use bike::{Bike, BikeUpdate, is_dir, size_ok, start_pos};

pub mod ai;
pub mod bike;

verus! {

pub type Point = (i16, i16);

pub type ColorId = u8;
pub type TeamId = u8;
pub type PlayerId = u8;
pub type BikeId = u8;

pub const BIKE_MASK: u8 = 0x80;
pub const BOOST_MASK: u8 = 0x40;
pub const SPLODE_MASK: u8 = 0x20;
pub const COLOR_MASK: u8 = 0x1f;

/// Largest color id a cell can hold (the owner is stored as id + 1 in five bits).
pub const MAX_COLOR: u8 = 30;

pub open spec fn spec_point_add(a: Point, b: Point) -> (int, int) {
    (a.0 + b.0, a.1 + b.1)
}

pub fn point_eq(a: Point, b: Point) -> (r: bool)
    ensures
        r == (a == b),
{
    a.0 == b.0 && a.1 == b.1
}

pub fn point_add(a: Point, b: Point) -> (r: Point)
    requires
        i16::MIN <= a.0 + b.0 <= i16::MAX,
        i16::MIN <= a.1 + b.1 <= i16::MAX,
    ensures
        r.0 == a.0 + b.0,
        r.1 == a.1 + b.1,
{
    (a.0 + b.0, a.1 + b.1)
}

pub open spec fn spec_color_to_team(color: int) -> int {
    color / 4
}

pub open spec fn spec_team_to_color(team: int, player: int) -> int {
    team * 4 + player
}

/// The team that owns a color.
pub fn color_to_team(color: ColorId) -> (r: TeamId)
    ensures
        r == spec_color_to_team(color as int),
{
    color / 4
}

/// The color of a (team, player) pair.
pub fn team_to_color(team: TeamId, player: PlayerId) -> (r: ColorId)
    requires
        team < 4,
        player < 4,
    ensures
        r == spec_team_to_color(team as int, player as int),
{
    team * 4 + player
}

/// The slot (and vehicle) id of a (team, player) pair.
pub fn bike_id(options: &GridOptions, team: TeamId, player: PlayerId) -> (r: BikeId)
    requires
        team * options.players + player <= u8::MAX,
    ensures
        r == team * options.players + player,
{
    team * options.players + player
}

/// The team of a slot.
pub fn team_from_bike(options: &GridOptions, bike_id: BikeId) -> (r: TeamId)
    requires
        options.players > 0,
    ensures
        r == bike_id / options.players,
{
    bike_id / options.players
}

/// The player index within its team of a slot.
pub fn player_from_bike(options: &GridOptions, bike_id: BikeId) -> (r: PlayerId)
    requires
        options.players > 0,
    ensures
        r == bike_id % options.players,
{
    bike_id % options.players
}

/// Whether a packed cell value has an owner.
pub open spec fn bits_occupied(v: u8) -> bool {
    v & COLOR_MASK != 0
}

pub open spec fn bits_bike(v: u8) -> bool {
    v & BIKE_MASK != 0
}

pub open spec fn bits_boost(v: u8) -> bool {
    v & BOOST_MASK != 0
}

pub open spec fn bits_exploded(v: u8) -> bool {
    v & SPLODE_MASK != 0
}

/// The owner color of a packed cell value (0 where there is no owner).
pub open spec fn bits_color(v: u8) -> u8 {
    if v & COLOR_MASK != 0 {
        ((v & COLOR_MASK) - 1) as u8
    } else {
        0
    }
}

/// The packed value of a cell freshly claimed by `color`.
pub open spec fn bits_claimed(color: u8, is_bike: bool, is_boost: bool) -> u8 {
    ((color + 1) as u8 | if is_bike { BIKE_MASK } else { 0u8 }) | if is_boost { BOOST_MASK } else { 0u8 }
}

/// The packed value after an explosion: flagged as exploded, no longer a head.
pub open spec fn bits_explode(v: u8) -> u8 {
    (v | SPLODE_MASK) & !BIKE_MASK
}

/// The packed value after a head leaves the cell.
pub open spec fn bits_free(v: u8) -> u8 {
    v & !BIKE_MASK
}

/// One grid unit, packed into a byte: owner color + 1 in the low five bits,
/// then the exploded, boost-trail and vehicle-head flags.
#[derive(Clone, Copy, Debug)]
pub struct Cell {
    pub val: u8,
}

impl Cell {
    pub fn new() -> (r: Self)
        ensures
            r.val == 0,
    {
        Cell { val: 0 }
    }

    pub fn occupy(&mut self, val: u8, is_bike: bool, is_boost: bool)
        requires
            val <= MAX_COLOR,
        ensures
            final(self).val == bits_claimed(val, is_bike, is_boost),
            bits_occupied(final(self).val),
            bits_color(final(self).val) == val,
            bits_bike(final(self).val) == is_bike,
            bits_boost(final(self).val) == is_boost,
            !bits_exploded(final(self).val),
    {
        let b: u8 = if is_bike { BIKE_MASK } else { 0 };
        let s: u8 = if is_boost { BOOST_MASK } else { 0 };
        let c: u8 = val + 1;
        self.val = c | b | s;
        proof {
            let v = self.val;
            assert(1 <= c <= 31);
            assert(b == 0 || b == 0x80);
            assert(s == 0 || s == 0x40);
            assert(v & 0x1f == c && (v & 0x80 != 0) == (b != 0) && (v & 0x40 != 0) == (s != 0) && v & 0x20 == 0)
                by (bit_vector)
                requires
                    1 <= c <= 31,
                    b == 0 || b == 0x80,
                    s == 0 || s == 0x40,
                    v == c | b | s,
            ;
        }
    }

    pub fn is_occupied(&self) -> (r: bool)
        ensures
            r == bits_occupied(self.val),
    {
        self.val & COLOR_MASK != 0
    }

    pub fn is_bike(&self) -> (r: bool)
        ensures
            r == bits_bike(self.val),
    {
        self.val & BIKE_MASK != 0
    }

    pub fn is_boost(&self) -> (r: bool)
        ensures
            r == bits_boost(self.val),
    {
        self.val & BOOST_MASK != 0
    }

    pub fn get_color(&self) -> (r: ColorId)
        ensures
            r == bits_color(self.val),
    {
        let c = self.val & COLOR_MASK;
        if c != 0 {
            c - 1
        } else {
            0
        }
    }

    /// Marks the cell destroyed; it is no longer a vehicle head.
    pub fn explode(&mut self)
        ensures
            final(self).val == bits_explode(old(self).val),
            bits_exploded(final(self).val),
            !bits_bike(final(self).val),
            bits_color(final(self).val) == bits_color(old(self).val),
            bits_occupied(final(self).val) == bits_occupied(old(self).val),
    {
        let v0 = self.val;
        self.val = (self.val | SPLODE_MASK) & !BIKE_MASK;
        proof {
            let v = self.val;
            assert(v & 0x20 != 0 && v & 0x80 == 0 && v & 0x1f == v0 & 0x1f) by (bit_vector)
                requires
                    v == (v0 | 0x20) & !0x80u8,
            ;
        }
    }

    pub fn is_exploded(&self) -> (r: bool)
        ensures
            r == bits_exploded(self.val),
    {
        self.val & SPLODE_MASK != 0
    }

    /// Clears the head flag; false when the cell had been exploded.
    pub fn free(&mut self, _id: u8) -> (r: bool)
        ensures
            final(self).val == bits_free(old(self).val),
            r == !bits_exploded(old(self).val),
    {
        let v0 = self.val;
        self.val = self.val & !BIKE_MASK;
        let v = self.val;
        assert(v & 0x20 == v0 & 0x20) by (bit_vector)
            requires
                v == v0 & !0x80u8,
        ;
        self.val & SPLODE_MASK == 0
    }

    /// Empties the cell entirely.
    pub fn free_for_real(&mut self)
        ensures
            final(self).val == 0,
    {
        self.val = 0;
    }
}

/// Whether a position lies on a grid of the given size.
pub open spec fn in_bounds(size: Point, p: Point) -> bool {
    0 <= p.0 < size.0 && 0 <= p.1 < size.1
}

/// The model of the occupancy grid: its size and its rows of cells.
pub struct Board {
    pub size: Point,
    pub cells: Seq<Seq<Cell>>,
}

impl Board {
    /// The grid of the given size with every cell empty.
    pub open spec fn empty(size: Point) -> Board {
        Board { size, cells: Seq::new(size.1 as nat, |y: int| Seq::new(size.0 as nat, |x: int| Cell { val: 0 })) }
    }

    pub open spec fn wf(&self) -> bool {
        &&& self.size.0 > 0
        &&& self.size.1 > 0
        &&& self.cells.len() == self.size.1
        &&& forall|y: int| 0 <= y < self.cells.len() ==> #[trigger] self.cells[y].len() == self.size.0
    }

    /// The packed value at an in-bounds position.
    pub open spec fn at(&self, p: Point) -> u8 {
        self.cells[p.1 as int][p.0 as int].val
    }

    pub open spec fn set(&self, p: Point, v: u8) -> Board {
        Board {
            size: self.size,
            cells: self.cells.update(p.1 as int, self.cells[p.1 as int].update(p.0 as int, Cell { val: v })),
        }
    }

    /// Whether a position is blocked: off the grid, or owned by some trail.
    pub open spec fn blocked(&self, p: Point) -> bool {
        !in_bounds(self.size, p) || bits_occupied(self.at(p))
    }

    /// Claiming a cell for a head: off the grid or onto an occupied cell is a
    /// collision (a head hit there is flagged exploded); else the cell is taken.
    pub open spec fn occupy(&self, p: Point, id: u8, boost: bool) -> (Board, bool) {
        if !in_bounds(self.size, p) {
            (*self, true)
        } else if bits_occupied(self.at(p)) {
            if bits_bike(self.at(p)) {
                (self.set(p, bits_explode(self.at(p))), true)
            } else {
                (*self, true)
            }
        } else {
            (self.set(p, bits_claimed(id, true, boost)), false)
        }
    }

    /// A head leaving its cell: the flag clears; false when it had exploded.
    pub open spec fn free(&self, p: Point) -> (Board, bool) {
        (self.set(p, bits_free(self.at(p))), !bits_exploded(self.at(p)))
    }

    /// Marking a death point: an owned on-grid cell is flagged exploded.
    pub open spec fn explode(&self, p: Point) -> Board {
        if in_bounds(self.size, p) && bits_occupied(self.at(p)) {
            self.set(p, bits_explode(self.at(p)))
        } else {
            *self
        }
    }

    /// Emptying a cell destroyed by a projectile; an exploded cell stays as it is.
    pub open spec fn clear(&self, p: Point) -> Board {
        if in_bounds(self.size, p) && !bits_exploded(self.at(p)) {
            self.set(p, 0)
        } else {
            *self
        }
    }
}

pub proof fn lemma_set_wf(b: Board, p: Point, v: u8)
    requires
        b.wf(),
        in_bounds(b.size, p),
    ensures
        b.set(p, v).wf(),
        b.set(p, v).at(p) == v,
        forall|q: Point| in_bounds(b.size, q) && q != p ==> #[trigger] b.set(p, v).at(q) == b.at(q),
{
    let nb = b.set(p, v);
    assert forall|y: int| 0 <= y < nb.cells.len() implies #[trigger] nb.cells[y].len() == nb.size.0 by {
        assert(b.cells[y].len() == b.size.0);
    }
    assert forall|q: Point| in_bounds(b.size, q) && q != p implies #[trigger] nb.at(q) == b.at(q) by {
        assert(b.cells[q.1 as int].len() == b.size.0);
    }
}

proof fn lemma_rows_set(rows0: Seq<Vec<Cell>>, rows1: Seq<Vec<Cell>>, p: Point, c: Cell)
    requires
        0 <= p.1 < rows0.len(),
        rows1 == rows0.update(p.1 as int, rows1[p.1 as int]),
        rows1[p.1 as int]@ == rows0[p.1 as int]@.update(p.0 as int, c),
    ensures
        rows1.map_values(|r: Vec<Cell>| r@) == rows0.map_values(|r: Vec<Cell>| r@).update(
            p.1 as int,
            rows0[p.1 as int]@.update(p.0 as int, c),
        ),
{
    assert(rows1.map_values(|r: Vec<Cell>| r@) =~= rows0.map_values(|r: Vec<Cell>| r@).update(
        p.1 as int,
        rows0[p.1 as int]@.update(p.0 as int, c),
    ));
}

/// The occupancy grid: rows indexed by y, cells by x.
pub struct Occupied {
    pub size: Point,
    pub occupied: Vec<Vec<Cell>>,
}

impl View for Occupied {
    type V = Board;

    open spec fn view(&self) -> Board {
        Board { size: self.size, cells: self.occupied@.map_values(|r: Vec<Cell>| r@) }
    }
}

impl Occupied {
    pub open spec fn wf(&self) -> bool {
        self@.wf()
    }

    /// An empty grid of the given size.
    pub fn new(size: GridSize) -> (r: Self)
        ensures
            r.wf(),
            r@ == Board::empty(grid_dim(size)),
    {
        let size = size.dim();
        let mut rows: Vec<Vec<Cell>> = Vec::new();
        let mut y: i16 = 0;
        while y < size.1
            invariant
                0 <= y <= size.1,
                size.0 > 0,
                rows@.len() == y,
                forall|j: int| 0 <= j < y ==> #[trigger] rows@[j]@.len() == size.0,
                forall|j: int, i: int| 0 <= j < y && 0 <= i < size.0 ==> #[trigger] rows@[j]@[i].val == 0,
            decreases size.1 - y,
        {
            let mut row: Vec<Cell> = Vec::new();
            let mut x: i16 = 0;
            while x < size.0
                invariant
                    0 <= x <= size.0,
                    row@.len() == x,
                    forall|i: int| 0 <= i < x ==> #[trigger] row@[i].val == 0,
                decreases size.0 - x,
            {
                row.push(Cell::new());
                x += 1;
            }
            rows.push(row);
            y += 1;
        }
        let r = Occupied { size, occupied: rows };
        assert forall|j: int| 0 <= j < r@.cells.len() implies #[trigger] r@.cells[j].len() == r@.size.0 by {
            assert(rows@[j]@.len() == size.0);
        }
        assert(r@.cells =~~= Board::empty(size).cells) by {
            assert forall|j: int| 0 <= j < size.1 implies #[trigger] r@.cells[j] =~= Board::empty(size).cells[j] by {
                assert(rows@[j]@.len() == size.0);
                assert forall|i: int| 0 <= i < size.0 implies #[trigger] r@.cells[j][i] == Board::empty(size).cells[j][i] by {
                    assert(rows@[j]@[i].val == 0);
                }
            }
        }
        r
    }

    pub fn in_bounds(&self, pos: Point) -> (r: bool)
        ensures
            r == in_bounds(self.size, pos),
    {
        !(pos.0 < 0 || pos.1 < 0 || pos.0 >= self.size.0 || pos.1 >= self.size.1)
    }

    /// Off-grid positions count as occupied, so leaving the grid is a wall hit.
    pub fn is_occupied(&self, pos: Point) -> (r: bool)
        requires
            self.wf(),
        ensures
            r == self@.blocked(pos),
    {
        if !self.in_bounds(pos) {
            return true;
        }
        proof {
            assert(self@.cells[pos.1 as int].len() == self.size.0);
        }
        self.occupied[pos.1 as usize][pos.0 as usize].is_occupied()
    }

    /// The cell at an on-grid position; `None` off the grid.
    pub fn get_cell(&self, pos: Point) -> (r: Option<&Cell>)
        requires
            self.wf(),
        ensures
            in_bounds(self.size, pos) <==> r.is_some(),
            r.is_some() ==> r.unwrap().val == self@.at(pos),
    {
        if !self.in_bounds(pos) {
            return None;
        }
        proof {
            assert(self@.cells[pos.1 as int].len() == self.size.0);
        }
        Some(&self.occupied[pos.1 as usize][pos.0 as usize])
    }

    /// Claims a cell for a head of color `id`; true on collision.
    pub fn occupy(&mut self, pos: Point, id: u8, boost: bool) -> (r: bool)
        requires
            old(self).wf(),
            id <= MAX_COLOR,
        ensures
            final(self).wf(),
            (final(self)@, r) == old(self)@.occupy(pos, id, boost),
    {
        if !self.in_bounds(pos) {
            return true;
        }
        proof {
            assert(self@.cells[pos.1 as int].len() == self.size.0);
            lemma_set_wf(self@, pos, 0);
        }
        let y = pos.1 as usize;
        let x = pos.0 as usize;
        let mut cell = self.occupied[y][x];
        if cell.is_occupied() {
            if cell.is_bike() {
                cell.explode();
                self.occupied[y][x] = cell;
                proof {
                    lemma_rows_set(old(self).occupied@, self.occupied@, pos, Cell { val: cell.val });
                    lemma_set_wf(old(self)@, pos, cell.val);
                }
            }
            return true;
        }
        cell.occupy(id, true, boost);
        self.occupied[y][x] = cell;
        proof {
            lemma_rows_set(old(self).occupied@, self.occupied@, pos, Cell { val: cell.val });
            lemma_set_wf(old(self)@, pos, cell.val);
        }
        false
    }

    /// A head of color `id` leaves `pos`; false when the cell had been exploded.
    pub(crate) fn free(&mut self, pos: Point, id: u8) -> (r: bool)
        requires
            old(self).wf(),
            in_bounds(old(self).size, pos),
        ensures
            final(self).wf(),
            (final(self)@, r) == old(self)@.free(pos),
    {
        proof {
            assert(self@.cells[pos.1 as int].len() == self.size.0);
        }
        let y = pos.1 as usize;
        let x = pos.0 as usize;
        let mut cell = self.occupied[y][x];
        let r = cell.free(id);
        self.occupied[y][x] = cell;
        proof {
            lemma_rows_set(old(self).occupied@, self.occupied@, pos, Cell { val: cell.val });
            lemma_set_wf(old(self)@, pos, cell.val);
        }
        r
    }

    /// Flags an owned on-grid cell as exploded; elsewhere nothing happens.
    pub fn explose(&mut self, pos: Point)
        requires
            old(self).wf(),
        ensures
            final(self).wf(),
            final(self)@ == old(self)@.explode(pos),
    {
        if !self.in_bounds(pos) {
            return;
        }
        proof {
            assert(self@.cells[pos.1 as int].len() == self.size.0);
        }
        let y = pos.1 as usize;
        let x = pos.0 as usize;
        let mut cell = self.occupied[y][x];
        if !cell.is_occupied() {
            return;
        }
        cell.explode();
        self.occupied[y][x] = cell;
        proof {
            lemma_rows_set(old(self).occupied@, self.occupied@, pos, Cell { val: cell.val });
            lemma_set_wf(old(self)@, pos, cell.val);
        }
    }

    /// Empties an on-grid cell unless it has exploded; exploded cells stay
    /// blocked for good. Off the grid nothing happens.
    pub fn free_for_read(&mut self, pos: Point)
        requires
            old(self).wf(),
        ensures
            final(self).wf(),
            final(self)@ == old(self)@.clear(pos),
    {
        if !self.in_bounds(pos) {
            return;
        }
        proof {
            assert(self@.cells[pos.1 as int].len() == self.size.0);
        }
        let y = pos.1 as usize;
        let x = pos.0 as usize;
        if self.occupied[y][x].is_exploded() {
            return;
        }
        self.occupied[y][x] = Cell::new();
        proof {
            lemma_rows_set(old(self).occupied@, self.occupied@, pos, Cell { val: 0 });
            lemma_set_wf(old(self)@, pos, 0);
        }
    }
}

/// A projectile cell travelling one cell per tick.
#[derive(Debug, Clone, Copy)]
pub struct Bullet {
    pub pos: Point,
    pub dir: Point,
    pub color: u8,
}

impl Bullet {
    pub open spec fn wf(&self, size: Point) -> bool {
        in_bounds(size, self.pos) && is_dir(self.dir) && self.color <= MAX_COLOR
    }

    /// Launching from `from`: the first cell ahead is claimed as a boost cell;
    /// if it was taken, that cell is destroyed (emptied) and no projectile lives.
    pub open spec fn launch(board: Board, from: Point, dir: Point, color: u8) -> (Board, Option<Bullet>) {
        let pos = ((from.0 + dir.0) as i16, (from.1 + dir.1) as i16);
        let (b1, hit) = board.occupy(pos, color, true);
        if hit {
            (b1.clear(pos), None)
        } else {
            (b1, Some(Bullet { pos, dir, color }))
        }
    }

    /// One tick: the old cell empties, the next is claimed; on a hit the hit
    /// cell is emptied and the projectile is gone (false).
    pub open spec fn step(self, board: Board) -> (Board, Bullet, bool) {
        let b0 = board.clear(self.pos);
        let pos = ((self.pos.0 + self.dir.0) as i16, (self.pos.1 + self.dir.1) as i16);
        let (b1, hit) = b0.occupy(pos, self.color, true);
        if hit {
            (b1.clear(pos), Bullet { pos, ..self }, false)
        } else {
            (b1, Bullet { pos, ..self }, true)
        }
    }

    pub fn new(occupied: &mut Occupied, from_pos: Point, dir: Point, color: u8) -> (r: Option<Self>)
        requires
            old(occupied).wf(),
            in_bounds(old(occupied).size, from_pos),
            is_dir(dir),
            color <= MAX_COLOR,
        ensures
            final(occupied).wf(),
            final(occupied).size == old(occupied).size,
            (final(occupied)@, r) == Bullet::launch(old(occupied)@, from_pos, dir, color),
            r.is_some() ==> r.unwrap().wf(old(occupied).size),
    {
        let mut bullet = Bullet { pos: from_pos, dir, color };
        bullet.pos = point_add(bullet.pos, bullet.dir);
        if occupied.occupy(bullet.pos, bullet.color, true) {
            occupied.free_for_read(bullet.pos);
            None
        } else {
            Some(bullet)
        }
    }

    /// Moves one cell; false once it has hit something.
    pub fn update(&mut self, occupied: &mut Occupied) -> (r: bool)
        requires
            old(occupied).wf(),
            old(self).wf(old(occupied).size),
        ensures
            final(occupied).wf(),
            final(occupied).size == old(occupied).size,
            (final(occupied)@, *final(self), r) == old(self).step(old(occupied)@),
            r ==> final(self).wf(old(occupied).size),
    {
        occupied.free_for_read(self.pos);
        self.pos = point_add(self.pos, self.dir);
        if occupied.occupy(self.pos, self.color, true) {
            occupied.free_for_read(self.pos);
            false
        } else {
            true
        }
    }
}

/// The first `n` projectiles stepped in order; those still flying are kept.
pub open spec fn run_bullets(board: Board, bs: Seq<Bullet>, n: nat) -> (Board, Seq<Bullet>)
    decreases n,
{
    if n == 0 {
        (board, Seq::empty())
    } else {
        let (b0, kept) = run_bullets(board, bs, (n - 1) as nat);
        let (b1, nb, alive) = bs[n - 1].step(b0);
        (b1, if alive { kept.push(nb) } else { kept })
    }
}

/// A delta message: the tick it produces, the checksum after it, and the commands.
#[derive(Debug, Clone)]
pub struct GridUpdateMsg {
    pub tick: u32,
    pub hash: u64,
    pub updates: Vec<BikeUpdate>,
}

impl Default for GridUpdateMsg {
    fn default() -> (r: Self)
        ensures
            r.tick == 0,
            r.hash == 0,
            r.updates@.len() == 0,
    {
        GridUpdateMsg { tick: 0, hash: 0, updates: Vec::new() }
    }
}

impl GridUpdateMsg {
    /// A copy of the message.
    pub fn copy(&self) -> (r: Self)
        ensures
            r.tick == self.tick,
            r.hash == self.hash,
            r.updates@ == self.updates@,
    {
        let mut updates: Vec<BikeUpdate> = Vec::new();
        let mut i: usize = 0;
        while i < self.updates.len()
            invariant
                0 <= i <= self.updates@.len(),
                updates@ == self.updates@.take(i as int),
            decreases self.updates@.len() - i,
        {
            updates.push(self.updates[i]);
            i += 1;
        }
        assert(self.updates@.take(self.updates@.len() as int) =~= self.updates@);
        GridUpdateMsg { tick: self.tick, hash: self.hash, updates }
    }
}

/// Ticks the winning condition must hold before a round is decided.
pub const GAME_END_DELAY: u32 = 30;

#[derive(Debug, Clone, Copy, PartialEq, Eq, Structural)]
pub enum UpdateResult {
    MatchOver(Option<u8>),
    InProgress,
}

/// The model of a simulation: everything but the AI's random generator.
pub struct GridModel {
    pub tick: u32,
    pub hash: u64,
    pub bikes: Seq<Bike>,
    pub board: Board,
    pub delay: Option<u32>,
    pub ai_diff: AiDifficulty,
    pub bullets: Seq<Bullet>,
}

/// The simulation: occupancy grid, vehicles in a fixed order, projectiles.
pub struct Grid {
    pub tick: u32,
    pub hash: u64,
    pub bikes: Vec<Bike>,
    pub occupied: Occupied,
    pub rng: quad_rand::RandGenerator,
    pub delay: Option<u32>,
    pub ai_diff: AiDifficulty,
    pub bullets: Vec<Bullet>,
}

impl View for Grid {
    type V = GridModel;

    open spec fn view(&self) -> GridModel {
        GridModel {
            tick: self.tick,
            hash: self.hash,
            bikes: self.bikes@,
            board: self.occupied@,
            delay: self.delay,
            ai_diff: self.ai_diff,
            bullets: self.bullets@,
        }
    }
}

/// The vehicles of a match, slot by slot: slot i is (team i / players, player i % players).
pub open spec fn initial_bikes(options: GridOptions) -> Seq<Bike> {
    Seq::new(
        options.slots(),
        |i: int|
            Bike::initial(
                i as u8,
                (i / options.players as int) as u8,
                (i % options.players as int) as u8,
                grid_dim(options.grid_size),
            ),
    )
}

/// The empty grid with the first `n` starting heads claimed in slot order.
pub open spec fn initial_board(options: GridOptions, n: nat) -> Board
    decreases n,
{
    if n == 0 {
        Board::empty(grid_dim(options.grid_size))
    } else {
        let b = initial_bikes(options)[n - 1];
        initial_board(options, (n - 1) as nat).occupy(b.head, b.color, false).0
    }
}

/// The state of a freshly constructed simulation.
pub open spec fn initial_model(options: GridOptions) -> GridModel {
    GridModel {
        tick: 0,
        hash: 0,
        bikes: initial_bikes(options),
        board: initial_board(options, options.slots()),
        delay: None,
        ai_diff: options.ai_diff,
        bullets: Seq::empty(),
    }
}

/// Two distinct (team, player) pairs never share a starting cell.
pub proof fn lemma_start_distinct(ta: u8, pa: u8, tb: u8, pb: u8, size: Point)
    requires
        ta < 4,
        tb < 4,
        pa < 4,
        pb < 4,
        size_ok(size),
        ta != tb || pa != pb,
    ensures
        start_pos(ta, pa, size).0 != start_pos(tb, pb, size).0,
{
    reveal(start_pos);
}

pub proof fn lemma_start_in_bounds(team: u8, player: u8, size: Point)
    requires
        team < 4,
        player < 4,
        size_ok(size),
    ensures
        in_bounds(size, start_pos(team, player, size).0),
{
    reveal(start_pos);
}

proof fn lemma_div_mod_slot(n: int, team: int, player: int, players: int)
    requires
        players >= 1,
        0 <= player < players,
        team >= 0,
        n == team * players + player,
    ensures
        n / players == team,
        n % players == player,
{
    assert(n / players == team && n % players == player) by (nonlinear_arith)
        requires
            players >= 1,
            0 <= player < players,
            team >= 0,
            n == team * players + player,
    ;
}

/// The first `n` vehicles stepped in order on a shared board; also the
/// (id, head) of each vehicle that died on this tick.
pub open spec fn run_bikes(board: Board, bikes: Seq<Bike>, n: nat) -> (Board, Seq<Bike>, Seq<(u8, Point)>)
    decreases n,
{
    if n == 0 {
        (board, Seq::empty(), Seq::empty())
    } else {
        let (b0, done, deaths) = run_bikes(board, bikes, (n - 1) as nat);
        let (nb, b1, died) = bikes[n - 1].step(b0);
        (b1, done.push(nb), if died { deaths.push((nb.id, nb.head)) } else { deaths })
    }
}

/// The team of the first living vehicle, if any.
pub open spec fn first_alive_team(bikes: Seq<Bike>) -> Option<u8>
    decreases bikes.len(),
{
    if bikes.len() == 0 {
        None
    } else {
        match first_alive_team(bikes.drop_last()) {
            Some(t) => Some(t),
            None => if bikes.last().alive {
                Some(bikes.last().team)
            } else {
                None
            },
        }
    }
}

/// Every living vehicle is on the same team (vacuously so when none lives).
pub open spec fn survivors_agree(bikes: Seq<Bike>) -> bool {
    forall|i: int, j: int|
        0 <= i < bikes.len() && 0 <= j < bikes.len() && #[trigger] bikes[i].alive && #[trigger] bikes[j].alive
            ==> bikes[i].team == bikes[j].team
}

pub proof fn lemma_first_alive_team(bikes: Seq<Bike>)
    ensures
        first_alive_team(bikes).is_none() ==> forall|k: int| 0 <= k < bikes.len() ==> !#[trigger] bikes[k].alive,
        first_alive_team(bikes).is_some() ==> exists|k: int|
            0 <= k < bikes.len() && #[trigger] bikes[k].alive && bikes[k].team == first_alive_team(bikes).unwrap(),
    decreases bikes.len(),
{
    if bikes.len() > 0 {
        let s = bikes.drop_last();
        lemma_first_alive_team(s);
        if first_alive_team(s).is_some() {
            let k = choose|k: int| 0 <= k < s.len() && #[trigger] s[k].alive && s[k].team == first_alive_team(s).unwrap();
            assert(bikes[k] == s[k]);
        } else {
            assert forall|k: int| 0 <= k < bikes.len() - 1 implies !#[trigger] bikes[k].alive by {
                assert(bikes[k] == s[k]);
            }
        }
    }
}

/// What the words of one vehicle add to the checksum: id, head, heading, alive.
pub open spec fn bike_words(b: Bike) -> Seq<i64> {
    seq![b.id as i64, b.head.0 as i64, b.head.1 as i64, b.dir.0 as i64, b.dir.1 as i64, if b.alive { 1i64 } else { 0i64 }]
}

/// The words hashed for a tick, vehicle by vehicle in their fixed order.
pub open spec fn hash_words(bikes: Seq<Bike>) -> Seq<i64>
    decreases bikes.len(),
{
    if bikes.len() == 0 {
        Seq::empty()
    } else {
        hash_words(bikes.drop_last()) + bike_words(bikes.last())
    }
}

/// The checksum sees each vehicle's id, head, heading and alive flag, in slot
/// order, and nothing else: vehicles that agree on those, slot by slot, give
/// the same checksum whatever their other fields or the grid hold.
pub proof fn lemma_checksum_of_vehicles(x: Seq<Bike>, y: Seq<Bike>)
    requires
        x.len() == y.len(),
        forall|k: int|
            0 <= k < x.len() ==> {
                &&& (#[trigger] x[k]).id == y[k].id
                &&& x[k].head == y[k].head
                &&& x[k].dir == y[k].dir
                &&& x[k].alive == y[k].alive
            },
    ensures
        hash_words(x) == hash_words(y),
        state_checksum(hash_words(x)) == state_checksum(hash_words(y)),
    decreases x.len(),
{
    if x.len() > 0 {
        let xs = x.drop_last();
        let ys = y.drop_last();
        assert forall|k: int| 0 <= k < xs.len() implies {
            &&& (#[trigger] xs[k]).id == ys[k].id
            &&& xs[k].head == ys[k].head
            &&& xs[k].dir == ys[k].dir
            &&& xs[k].alive == ys[k].alive
        } by {
            assert(xs[k] == x[k] && ys[k] == y[k]);
        }
        lemma_checksum_of_vehicles(xs, ys);
        assert(bike_words(x.last()) == bike_words(y.last()));
    }
}

/// What std's `DefaultHasher` makes of a sequence of words.
pub uninterp spec fn state_checksum(words: Seq<i64>) -> u64;

/// Relies on std's `BuildHasher::hash_one` with `DefaultHasher`, whose keys are
/// fixed: the checksum depends on the words alone.
#[verifier::external_body]
fn checksum(words: &Vec<i64>) -> (r: u64)
    ensures
        r == state_checksum(words@),
{
    std::hash::BuildHasher::hash_one(&std::hash::BuildHasherDefault::<std::hash::DefaultHasher>::default(), words)
}

/// The grace window: a winning condition starts it, holds it down to zero,
/// and only then decides the round.
pub open spec fn settle(delay: Option<u32>, winner: bool, team: Option<u8>) -> (Option<u32>, UpdateResult) {
    if !winner {
        (delay, UpdateResult::InProgress)
    } else {
        match delay {
            None => (Some(GAME_END_DELAY), UpdateResult::InProgress),
            Some(d) => if d > 0 {
                (Some((d - 1) as u32), UpdateResult::InProgress)
            } else {
                (delay, UpdateResult::MatchOver(team))
            },
        }
    }
}

/// Same vehicles in the same slots: ids, teams, players and colors agree.
pub open spec fn same_roster(a: Seq<Bike>, b: Seq<Bike>) -> bool {
    &&& a.len() == b.len()
    &&& forall|k: int| 0 <= k < a.len() ==> same_slot(#[trigger] a[k], b[k])
}

/// The same vehicle slot: id, team, player and color agree.
pub open spec fn same_slot(x: Bike, y: Bike) -> bool {
    x.id == y.id && x.team == y.team && x.player == y.player && x.color == y.color
}

/// Commands that name existing vehicles and unit headings.
pub open spec fn commands_valid(updates: Seq<BikeUpdate>, n: nat) -> bool {
    forall|k: int| 0 <= k < updates.len() ==> (#[trigger] updates[k]).id < n && is_dir(updates[k].dir)
}

/// Whether commands name existing vehicles and unit headings.
pub fn updates_valid(updates: &Vec<BikeUpdate>, n: usize) -> (r: bool)
    ensures
        r == commands_valid(updates@, n as nat),
{
    let mut i: usize = 0;
    while i < updates.len()
        invariant
            0 <= i <= updates@.len(),
            forall|k: int| 0 <= k < i ==> (#[trigger] updates@[k]).id < n && is_dir(updates@[k].dir),
        decreases updates@.len() - i,
    {
        let u = updates[i];
        let d = u.dir;
        let unit = (d.0 == 0 && (d.1 == 1 || d.1 == -1)) || (d.1 == 0 && (d.0 == 1 || d.0 == -1));
        if u.id as usize >= n || !unit {
            return false;
        }
        i += 1;
    }
    true
}

impl GridModel {
    /// One full tick: projectiles, then every vehicle in order, then the
    /// checksum and the round evaluation. Also the deaths of the tick.
    pub open spec fn step(self) -> (GridModel, UpdateResult, Seq<(u8, Point)>) {
        let (b0, bullets) = run_bullets(self.board, self.bullets, self.bullets.len());
        let (b1, bikes, deaths) = run_bikes(b0, self.bikes, self.bikes.len());
        let (delay, res) = settle(self.delay, survivors_agree(bikes), first_alive_team(bikes));
        (
            GridModel { hash: state_checksum(hash_words(bikes)), bikes, board: b1, delay, bullets, ..self },
            res,
            deaths,
        )
    }

    /// The first `n` commands applied: each sets its vehicle's heading. When
    /// `fire` holds (the message opens a new tick), a boost from a vehicle
    /// with a charge left uses up that charge and launches a projectile from
    /// its head.
    pub open spec fn apply_commands(self, updates: Seq<BikeUpdate>, n: nat, fire: bool) -> GridModel
        decreases n,
    {
        if n == 0 {
            self
        } else {
            let m0 = self.apply_commands(updates, (n - 1) as nat, fire);
            let u = updates[n - 1];
            let b = Bike { dir: u.dir, ..m0.bikes[u.id as int] };
            if fire && u.boost && b.boost_count > 0 {
                let fired = Bike { boost_count: (b.boost_count - 1) as u8, ..b };
                let (board, shot) = Bullet::launch(m0.board, b.head, b.dir, b.color);
                GridModel {
                    bikes: m0.bikes.update(u.id as int, fired),
                    board,
                    bullets: match shot {
                        Some(x) => m0.bullets.push(x),
                        None => m0.bullets,
                    },
                    ..m0
                }
            } else {
                GridModel { bikes: m0.bikes.update(u.id as int, b), ..m0 }
            }
        }
    }

    /// A delta message. For a new tick the commands apply (boosts fire), the
    /// tick becomes the message's and one full step runs. A repeated tick only
    /// sets the headings again: nothing fires and nothing moves.
    pub open spec fn apply_msg(self, tick: u32, updates: Seq<BikeUpdate>) -> (GridModel, UpdateResult, Seq<(u8, Point)>) {
        if self.tick != tick {
            GridModel { tick, ..self.apply_commands(updates, updates.len(), true) }.step()
        } else {
            (self.apply_commands(updates, updates.len(), false), UpdateResult::InProgress, Seq::empty())
        }
    }

    pub open spec fn wf(&self) -> bool {
        &&& self.board.wf()
        &&& explosions_blocked(self.board)
        &&& size_ok(self.board.size)
        &&& self.bikes.len() <= 16
        &&& forall|i: int| 0 <= i < self.bikes.len() ==> #[trigger] self.bikes[i].wf(self.board.size)
        &&& forall|i: int| 0 <= i < self.bullets.len() ==> #[trigger] self.bullets[i].wf(self.board.size)
    }
}

/// Messages applied in order, each a tick number and its commands.
pub open spec fn replay(m: GridModel, msgs: Seq<(u32, Seq<BikeUpdate>)>) -> GridModel
    decreases msgs.len(),
{
    if msgs.len() == 0 {
        m
    } else {
        replay(m, msgs.drop_last()).apply_msg(msgs.last().0, msgs.last().1).0
    }
}

/// Lockstep: two simulations constructed from the same options (whatever
/// their random generators hold) and fed the same messages in order agree on
/// the whole state, checksum included, after every message.
pub proof fn lemma_lockstep(options: GridOptions, a: GridModel, b: GridModel, msgs: Seq<(u32, Seq<BikeUpdate>)>)
    requires
        a == initial_model(options),
        b == initial_model(options),
    ensures
        forall|i: int|
            0 <= i <= msgs.len() ==> #[trigger] replay(a, msgs.take(i)) == replay(b, msgs.take(i)) && replay(
                a,
                msgs.take(i),
            ).hash == replay(b, msgs.take(i)).hash,
{
}

/// The heading that the first `n` commands leave vehicle `k` with, starting from `d`.
pub open spec fn last_dir(updates: Seq<BikeUpdate>, n: nat, k: int, d: Point) -> Point
    decreases n,
{
    if n == 0 {
        d
    } else if updates[n - 1].id as int == k {
        updates[n - 1].dir
    } else {
        last_dir(updates, (n - 1) as nat, k, d)
    }
}

proof fn lemma_last_dir_idem(updates: Seq<BikeUpdate>, n: nat, k: int, d: Point)
    ensures
        last_dir(updates, n, k, last_dir(updates, n, k, d)) == last_dir(updates, n, k, d),
    decreases n,
{
    if n > 0 && updates[n - 1].id as int != k {
        lemma_last_dir_idem(updates, (n - 1) as nat, k, d);
    }
}

/// Commands set headings; only firing ones use up charges, launch
/// projectiles and so touch the grid.
proof fn lemma_apply_commands(m: GridModel, updates: Seq<BikeUpdate>, n: nat, fire: bool)
    requires
        n <= updates.len(),
        commands_valid(updates, m.bikes.len()),
    ensures
        ({
            let m1 = m.apply_commands(updates, n, fire);
            &&& m1.tick == m.tick
            &&& m1.hash == m.hash
            &&& m1.delay == m.delay
            &&& m1.ai_diff == m.ai_diff
            &&& m1.bikes.len() == m.bikes.len()
            &&& forall|k: int|
                0 <= k < m.bikes.len() ==> #[trigger] m1.bikes[k] == Bike {
                    dir: last_dir(updates, n, k, m.bikes[k].dir),
                    boost_count: m1.bikes[k].boost_count,
                    ..m.bikes[k]
                }
            &&& !fire ==> m1.board == m.board && m1.bullets == m.bullets
            &&& !fire ==> forall|k: int| 0 <= k < m.bikes.len() ==> (#[trigger] m1.bikes[k]).boost_count == m.bikes[k].boost_count
        }),
    decreases n,
{
    if n > 0 {
        lemma_apply_commands(m, updates, (n - 1) as nat, fire);
        let m0 = m.apply_commands(updates, (n - 1) as nat, fire);
        let m1 = m.apply_commands(updates, n, fire);
        let u = updates[n - 1];
        assert forall|k: int| 0 <= k < m.bikes.len() implies #[trigger] m1.bikes[k] == Bike {
            dir: last_dir(updates, n, k, m.bikes[k].dir),
            boost_count: m1.bikes[k].boost_count,
            ..m.bikes[k]
        } by {
            assert(m0.bikes[k] == Bike {
                dir: last_dir(updates, (n - 1) as nat, k, m.bikes[k].dir),
                boost_count: m0.bikes[k].boost_count,
                ..m.bikes[k]
            });
            if k != u.id as int {
                assert(m1.bikes[k] == m0.bikes[k]);
            }
        }
        if !fire {
            assert forall|k: int| 0 <= k < m.bikes.len() implies (#[trigger] m1.bikes[k]).boost_count == m.bikes[k].boost_count by {
                assert(m0.bikes[k].boost_count == m.bikes[k].boost_count);
                if k != u.id as int {
                    assert(m1.bikes[k] == m0.bikes[k]);
                }
            }
        }
    }
}

/// A step moves vehicles but never turns them.
proof fn lemma_run_bikes_dirs(board: Board, bikes: Seq<Bike>, n: nat)
    requires
        n <= bikes.len(),
    ensures
        run_bikes(board, bikes, n).1.len() == n,
        forall|k: int| 0 <= k < n ==> (#[trigger] run_bikes(board, bikes, n).1[k]).dir == bikes[k].dir,
    decreases n,
{
    if n > 0 {
        lemma_run_bikes_dirs(board, bikes, (n - 1) as nat);
        let prev = run_bikes(board, bikes, (n - 1) as nat).1;
        assert forall|k: int| 0 <= k < n implies (#[trigger] run_bikes(board, bikes, n).1[k]).dir == bikes[k].dir by {
            if k < n - 1 {
                assert(run_bikes(board, bikes, n).1[k] == prev[k]);
            }
        }
    }
}

/// A delta delivered twice in a row changes the simulation once: the second
/// copy runs no step, fires nothing, reports no death and leaves the whole
/// simulation (checksum included) exactly as the first copy left it.
pub proof fn lemma_duplicate_delivery(m: GridModel, tick: u32, updates: Seq<BikeUpdate>)
    requires
        commands_valid(updates, m.bikes.len()),
    ensures
        ({
            let m1 = m.apply_msg(tick, updates).0;
            let (m2, r2, d2) = m1.apply_msg(tick, updates);
            &&& m1.tick == tick
            &&& m2 == m1
            &&& r2 == UpdateResult::InProgress
            &&& d2.len() == 0
        }),
{
    let n = updates.len();
    let fire = m.tick != tick;
    lemma_apply_commands(m, updates, n, fire);
    let mc = m.apply_commands(updates, n, fire);
    let m1 = m.apply_msg(tick, updates).0;
    if fire {
        let (b0, bullets) = run_bullets(mc.board, mc.bullets, mc.bullets.len());
        lemma_run_bikes_dirs(b0, mc.bikes, mc.bikes.len());
    }
    assert(m1.bikes.len() == m.bikes.len());
    assert forall|k: int| 0 <= k < m.bikes.len() implies (#[trigger] m1.bikes[k]).dir == last_dir(updates, n, k, m.bikes[k].dir) by {
        assert(mc.bikes[k].dir == last_dir(updates, n, k, m.bikes[k].dir));
    }
    lemma_apply_commands(m1, updates, n, false);
    let m2 = m1.apply_commands(updates, n, false);
    assert forall|k: int| 0 <= k < m1.bikes.len() implies #[trigger] m2.bikes[k] == m1.bikes[k] by {
        lemma_last_dir_idem(updates, n, k, m.bikes[k].dir);
    }
    assert(m2.bikes =~= m1.bikes);
}

/// When no vehicle survives a tick, the round can only end as a tie: the
/// step reports no winner, and once the grace window has run out it reports
/// the round over with no winning team.
pub proof fn lemma_tie(m: GridModel)
    ensures
        ({
            let (m1, r, _d) = m.step();
            (forall|k: int| 0 <= k < m1.bikes.len() ==> !(#[trigger] m1.bikes[k]).alive) ==> {
                &&& r == UpdateResult::InProgress || r == UpdateResult::MatchOver(None)
                &&& m.delay == Some(0u32) ==> r == UpdateResult::MatchOver(None)
            }
        }),
{
    let (m1, r, _d) = m.step();
    lemma_first_alive_team(m1.bikes);
}

/// Every exploded cell is owned, so it blocks movement.
pub open spec fn explosions_blocked(b: Board) -> bool {
    forall|p: Point| in_bounds(b.size, p) && bits_exploded(#[trigger] b.at(p)) ==> bits_occupied(b.at(p))
}

/// From `a` to `b` no explosion is undone: every exploded cell of `a` is
/// still exploded in `b`, with the same owner, and `b` keeps explosions blocked.
pub open spec fn keeps_explosions(a: Board, b: Board) -> bool {
    &&& b.size == a.size
    &&& b.wf()
    &&& explosions_blocked(b)
    &&& forall|p: Point|
        in_bounds(a.size, p) && bits_exploded(a.at(p)) ==> bits_exploded(#[trigger] b.at(p)) && bits_color(b.at(p))
            == bits_color(a.at(p))
}

proof fn lemma_cell_bits(v: u8, c: u8, boost: bool)
    requires
        c <= MAX_COLOR,
    ensures
        bits_exploded(bits_free(v)) == bits_exploded(v),
        bits_occupied(bits_free(v)) == bits_occupied(v),
        bits_color(bits_free(v)) == bits_color(v),
        !bits_exploded(bits_claimed(c, true, boost)),
        !bits_exploded(0u8),
        bits_exploded(bits_explode(v)),
        bits_occupied(bits_explode(v)) == bits_occupied(v),
        bits_color(bits_explode(v)) == bits_color(v),
{
    assert((v & !0x80u8) & 0x20 == v & 0x20 && (v & !0x80u8) & 0x1f == v & 0x1f) by (bit_vector);
    assert((v | 0x20) & !0x80u8 & 0x20 != 0 && ((v | 0x20) & !0x80u8) & 0x1f == v & 0x1f) by (bit_vector);
    assert(0u8 & 0x20 == 0) by (bit_vector);
    let c1 = (c + 1) as u8;
    let b: u8 = 0x80;
    let s: u8 = if boost { 0x40 } else { 0 };
    assert(((c1 | b) | s) & 0x20 == 0) by (bit_vector)
        requires
            1 <= c1 <= 31,
            b == 0x80,
            s == 0 || s == 0x40,
    ;
}

proof fn lemma_keeps_set(a: Board, p: Point, v: u8)
    requires
        a.wf(),
        explosions_blocked(a),
        in_bounds(a.size, p),
        bits_exploded(a.at(p)) ==> bits_exploded(v) && bits_color(v) == bits_color(a.at(p)),
        bits_exploded(v) ==> bits_occupied(v),
    ensures
        keeps_explosions(a, a.set(p, v)),
{
    lemma_set_wf(a, p, v);
}

proof fn lemma_keeps_refl(a: Board)
    requires
        a.wf(),
        explosions_blocked(a),
    ensures
        keeps_explosions(a, a),
{
}

proof fn lemma_keeps_trans(a: Board, b: Board, c: Board)
    requires
        keeps_explosions(a, b),
        keeps_explosions(b, c),
    ensures
        keeps_explosions(a, c),
{
    assert forall|p: Point| in_bounds(a.size, p) && bits_exploded(a.at(p)) implies bits_exploded(#[trigger] c.at(p))
        && bits_color(c.at(p)) == bits_color(a.at(p)) by {
        assert(bits_exploded(b.at(p)));
    }
}

proof fn lemma_keeps_ops(a: Board, p: Point, c: u8, boost: bool)
    requires
        a.wf(),
        explosions_blocked(a),
        c <= MAX_COLOR,
    ensures
        keeps_explosions(a, a.occupy(p, c, boost).0),
        keeps_explosions(a, a.explode(p)),
        keeps_explosions(a, a.clear(p)),
        in_bounds(a.size, p) ==> keeps_explosions(a, a.free(p).0),
{
    lemma_keeps_refl(a);
    if in_bounds(a.size, p) {
        let v = a.at(p);
        lemma_cell_bits(v, c, boost);
        if bits_occupied(v) {
            if bits_bike(v) {
                lemma_keeps_set(a, p, bits_explode(v));
            }
            lemma_keeps_set(a, p, bits_explode(v));
        } else {
            lemma_keeps_set(a, p, bits_claimed(c, true, boost));
        }
        if !bits_exploded(v) {
            lemma_keeps_set(a, p, 0);
        }
        lemma_keeps_set(a, p, bits_free(v));
    }
}

proof fn lemma_keeps_bullet(a: Board, bt: Bullet)
    requires
        a.wf(),
        explosions_blocked(a),
        bt.color <= MAX_COLOR,
    ensures
        keeps_explosions(a, bt.step(a).0),
        keeps_explosions(a, Bullet::launch(a, bt.pos, bt.dir, bt.color).0),
{
    let b0 = a.clear(bt.pos);
    lemma_keeps_ops(a, bt.pos, bt.color, true);
    let pos = ((bt.pos.0 + bt.dir.0) as i16, (bt.pos.1 + bt.dir.1) as i16);
    lemma_keeps_ops(b0, pos, bt.color, true);
    let b1 = b0.occupy(pos, bt.color, true).0;
    lemma_keeps_ops(b1, pos, bt.color, true);
    lemma_keeps_trans(a, b0, b1);
    lemma_keeps_trans(a, b1, b1.clear(pos));
    lemma_keeps_ops(a, pos, bt.color, true);
    let l1 = a.occupy(pos, bt.color, true).0;
    lemma_keeps_ops(l1, pos, bt.color, true);
    lemma_keeps_trans(a, l1, l1.clear(pos));
}

proof fn lemma_keeps_bike(a: Board, b: Bike)
    requires
        a.wf(),
        explosions_blocked(a),
        b.wf(a.size),
    ensures
        keeps_explosions(a, b.step(a).1),
{
    lemma_keeps_refl(a);
    if b.alive && b.speed == 0 {
        lemma_keeps_ops(a, b.head, b.color, false);
        let b1 = a.free(b.head).0;
        lemma_keeps_ops(b1, b.next_head(), b.color, false);
        let b2 = b1.occupy(b.next_head(), b.color, false).0;
        lemma_keeps_ops(b2, b.head, b.color, false);
        lemma_keeps_trans(a, b1, b2);
        lemma_keeps_trans(a, b2, b2.explode(b.head));
    }
}

proof fn lemma_keeps_run_bullets(a: Board, bs: Seq<Bullet>, n: nat)
    requires
        a.wf(),
        explosions_blocked(a),
        n <= bs.len(),
        forall|k: int| 0 <= k < bs.len() ==> (#[trigger] bs[k]).color <= MAX_COLOR,
    ensures
        keeps_explosions(a, run_bullets(a, bs, n).0),
    decreases n,
{
    if n == 0 {
        lemma_keeps_refl(a);
    } else {
        lemma_keeps_run_bullets(a, bs, (n - 1) as nat);
        let b0 = run_bullets(a, bs, (n - 1) as nat).0;
        lemma_keeps_bullet(b0, bs[n - 1]);
        lemma_keeps_trans(a, b0, bs[n - 1].step(b0).0);
    }
}

proof fn lemma_keeps_run_bikes(a: Board, bikes: Seq<Bike>, n: nat)
    requires
        a.wf(),
        explosions_blocked(a),
        n <= bikes.len(),
        forall|k: int| 0 <= k < bikes.len() ==> (#[trigger] bikes[k]).wf(a.size),
    ensures
        keeps_explosions(a, run_bikes(a, bikes, n).0),
    decreases n,
{
    if n == 0 {
        lemma_keeps_refl(a);
    } else {
        lemma_keeps_run_bikes(a, bikes, (n - 1) as nat);
        let b0 = run_bikes(a, bikes, (n - 1) as nat).0;
        lemma_keeps_bike(b0, bikes[n - 1]);
        lemma_keeps_trans(a, b0, bikes[n - 1].step(b0).1);
    }
}

proof fn lemma_initial_board_blocked(options: GridOptions, n: nat)
    requires
        options.valid(),
        n <= options.slots(),
    ensures
        explosions_blocked(initial_board(options, n)),
        initial_board(options, n).wf(),
        initial_board(options, n).size == grid_dim(options.grid_size),
    decreases n,
{
    if n == 0 {
        let b = Board::empty(grid_dim(options.grid_size));
        assert(0u8 & 0x20 == 0) by (bit_vector);
        assert forall|y: int| 0 <= y < b.cells.len() implies #[trigger] b.cells[y].len() == b.size.0 by {}
    } else {
        lemma_initial_board_blocked(options, (n - 1) as nat);
        let k = n - 1;
        let bk = initial_bikes(options)[k];
        assert(bk.color <= MAX_COLOR) by {
            assert(k / (options.players as int) < 4 && k % (options.players as int) < 4) by (nonlinear_arith)
                requires
                    0 <= k < options.teams * options.players,
                    options.teams <= 4,
                    1 <= options.players <= 4,
            ;
        }
        lemma_keeps_ops(initial_board(options, (n - 1) as nat), bk.head, bk.color, false);
    }
}

/// A full tick undoes no explosion.
pub proof fn lemma_step_keeps_explosions(m: GridModel)
    requires
        m.wf(),
    ensures
        keeps_explosions(m.board, m.step().0.board),
{
    assert forall|k: int| 0 <= k < m.bullets.len() implies (#[trigger] m.bullets[k]).color <= MAX_COLOR by {
        assert(m.bullets[k].wf(m.board.size));
    }
    lemma_keeps_run_bullets(m.board, m.bullets, m.bullets.len());
    let b0 = run_bullets(m.board, m.bullets, m.bullets.len()).0;
    lemma_keeps_run_bikes(b0, m.bikes, m.bikes.len());
    lemma_keeps_trans(m.board, b0, run_bikes(b0, m.bikes, m.bikes.len()).0);
}

proof fn lemma_keeps_commands(m: GridModel, updates: Seq<BikeUpdate>, n: nat, fire: bool)
    requires
        m.wf(),
        explosions_blocked(m.board),
        n <= updates.len(),
        commands_valid(updates, m.bikes.len()),
    ensures
        keeps_explosions(m.board, m.apply_commands(updates, n, fire).board),
        m.apply_commands(updates, n, fire).wf(),
    decreases n,
{
    if n == 0 {
        lemma_keeps_refl(m.board);
    } else {
        lemma_keeps_commands(m, updates, (n - 1) as nat, fire);
        lemma_apply_commands(m, updates, (n - 1) as nat, fire);
        let m0 = m.apply_commands(updates, (n - 1) as nat, fire);
        let u = updates[n - 1];
        assert(u.id < m.bikes.len() && is_dir(u.dir));
        let b = Bike { dir: u.dir, ..m0.bikes[u.id as int] };
        assert(m0.bikes[u.id as int].wf(m0.board.size));
        lemma_keeps_bullet(m0.board, Bullet { pos: b.head, dir: b.dir, color: b.color });
        lemma_keeps_trans(m.board, m0.board, Bullet::launch(m0.board, b.head, b.dir, b.color).0);
        lemma_keeps_refl(m0.board);
        let m1 = m.apply_commands(updates, n, fire);
        assert forall|k: int| 0 <= k < m1.bikes.len() implies #[trigger] m1.bikes[k].wf(m1.board.size) by {
            assert(m0.bikes[k].wf(m0.board.size));
        }
        if fire && u.boost && b.boost_count > 0 {
            let shot = Bullet::launch(m0.board, b.head, b.dir, b.color).1;
            if shot.is_some() {
                assert(is_dir(b.dir));
                assert forall|k: int| 0 <= k < m1.bullets.len() implies #[trigger] m1.bullets[k].wf(m1.board.size) by {
                    if k < m0.bullets.len() {
                        assert(m1.bullets[k] == m0.bullets[k]);
                    } else {
                        assert(in_bounds(m0.board.size, shot.unwrap().pos));
                    }
                }
            }
        }
    }
}

/// Exploded cells stay exploded for good: no delta message, repeated or
/// not, undoes an explosion or changes its owner.
pub proof fn lemma_explosions_last(m: GridModel, tick: u32, updates: Seq<BikeUpdate>)
    requires
        m.wf(),
        commands_valid(updates, m.bikes.len()),
    ensures
        keeps_explosions(m.board, m.apply_msg(tick, updates).0.board),
{
    let fire = m.tick != tick;
    lemma_keeps_commands(m, updates, updates.len(), fire);
    let mc = m.apply_commands(updates, updates.len(), fire);
    if fire {
        let mt = GridModel { tick, ..mc };
        lemma_step_keeps_explosions(mt);
        lemma_keeps_trans(m.board, mc.board, mt.step().0.board);
    }
}

/// The events reporting the deaths of a tick.
pub open spec fn death_events(deaths: Seq<(u8, Point)>) -> Seq<WorldEvent> {
    deaths.map_values(|d: (u8, Point)| WorldEvent::BikeDeath(d.0, d.1))
}

impl Grid {
    pub open spec fn wf(&self) -> bool {
        self@.wf()
    }

    /// The color of a vehicle.
    pub fn get_color(&self, bike_id: u8) -> (r: u8)
        requires
            (bike_id as int) < self.bikes@.len(),
        ensures
            r == self.bikes@[bike_id as int].color,
    {
        self.bikes[bike_id as usize].get_color()
    }

    /// Width and height of the grid, in cells.
    pub fn size(&self) -> (r: Point)
        ensures
            r == self@.board.size,
    {
        self.occupied.size
    }

    /// Applies a delta message. Every command sets its vehicle's heading. Only
    /// if the message's tick differs from the current one do boosts fire
    /// (using up a charge each), the tick become the message's and one full
    /// step run. A second copy of a message changes nothing but headings,
    /// which it sets to the values they already have.
    pub fn apply_updates(&mut self, updates: &GridUpdateMsg, events: &mut Vec<WorldEvent>) -> (r: UpdateResult)
        requires
            old(self).wf(),
            commands_valid(updates.updates@, old(self).bikes@.len()),
        ensures
            final(self).wf(),
            (final(self)@, r) == (
                old(self)@.apply_msg(updates.tick, updates.updates@).0,
                old(self)@.apply_msg(updates.tick, updates.updates@).1,
            ),
            final(events)@ == old(events)@ + death_events(old(self)@.apply_msg(updates.tick, updates.updates@).2),
            same_roster(old(self).bikes@, final(self).bikes@),
            final(self)@.board.size == old(self)@.board.size,
            old(self).tick == updates.tick ==> {
                &&& r == UpdateResult::InProgress
                &&& final(events)@ == old(events)@
                &&& final(self)@.tick == old(self)@.tick
                &&& final(self)@.hash == old(self)@.hash
                &&& final(self)@.board == old(self)@.board
                &&& final(self)@.bullets == old(self)@.bullets
                &&& final(self)@.delay == old(self)@.delay
                &&& final(self)@.bikes.len() == old(self)@.bikes.len()
                &&& forall|k: int|
                    0 <= k < old(self)@.bikes.len() ==> #[trigger] final(self)@.bikes[k] == Bike {
                        dir: last_dir(updates.updates@, updates.updates@.len(), k, old(self)@.bikes[k].dir),
                        ..old(self)@.bikes[k]
                    }
            },
    {
        let ghost m0 = self@;
        let fire = self.tick != updates.tick;
        let mut i: usize = 0;
        while i < updates.updates.len()
            invariant
                0 <= i <= updates.updates@.len(),
                commands_valid(updates.updates@, m0.bikes.len()),
                m0.wf(),
                self.wf(),
                fire == (m0.tick != updates.tick),
                self@.board.size == m0.board.size,
                self@ == m0.apply_commands(updates.updates@, i as nat, fire),
                same_roster(m0.bikes, self.bikes@),
            decreases updates.updates@.len() - i,
        {
            let update = updates.updates[i];
            assert(updates.updates@[i as int].id < m0.bikes.len() && is_dir(updates.updates@[i as int].dir));
            let id = update.id as usize;
            assert(self.bikes@[id as int].wf(self@.board.size));
            let mut bike = self.bikes[id];
            bike.apply_update(&update);
            if fire && update.boost && bike.boost_count > 0 {
                bike.boost_count = bike.boost_count - 1;
                self.bikes.set(id, bike);
                let shot = Bullet::new(&mut self.occupied, bike.head, bike.dir, bike.get_color());
                match shot {
                    Some(bullet) => {
                        self.bullets.push(bullet);
                    },
                    None => {},
                }
            } else {
                self.bikes.set(id, bike);
            }
            proof {
                lemma_keeps_commands(m0, updates.updates@, (i + 1) as nat, fire);
                assert(bike.wf(self.occupied.size));
                assert forall|k: int| 0 <= k < self.bikes@.len() implies #[trigger] self.bikes@[k].wf(self@.board.size) by {
                    if k != id {
                        assert(self.bikes@[k] == m0.apply_commands(updates.updates@, i as nat, fire).bikes[k]);
                    }
                }
            }
            i += 1;
        }
        if fire {
            let ghost mid = self.bikes@;
            let ghost m1 = self@;
            self.tick = updates.tick;
            assert(self@.bikes == m1.bikes && self@.board == m1.board && self@.bullets == m1.bullets);
            let r = self.update(events);
            proof {
                assert forall|k: int| 0 <= k < m0.bikes.len() implies same_slot(#[trigger] m0.bikes[k], self.bikes@[k]) by {
                    assert(mid[k].id == self.bikes@[k].id);
                    assert(m0.bikes[k].id == mid[k].id);
                }
                assert(mid.len() == m0.bikes.len());
                assert(m0.bikes == old(self).bikes@);
                assert(same_roster(old(self).bikes@, self.bikes@));
            }
            r
        } else {
            proof {
                assert(events@ =~= old(events)@ + death_events(Seq::empty()));
                lemma_apply_commands(m0, updates.updates@, updates.updates@.len(), false);
            }
            UpdateResult::InProgress
        }
    }

    /// Runs one full tick; reports each death as an event.
    pub fn update(&mut self, events: &mut Vec<WorldEvent>) -> (r: UpdateResult)
        requires
            old(self).wf(),
        ensures
            final(self).wf(),
            (final(self)@, r) == (old(self)@.step().0, old(self)@.step().1),
            final(events)@ == old(events)@ + death_events(old(self)@.step().2),
            same_roster(old(self).bikes@, final(self).bikes@),
            final(self)@.board.size == old(self)@.board.size,
    {
        let ghost m0 = self@;
        // projectiles first, so they clear the way of the vehicle that fired them
        let mut kept: Vec<Bullet> = Vec::new();
        let mut i: usize = 0;
        while i < self.bullets.len()
            invariant
                self@.board.size == m0.board.size,
                self.occupied.wf(),
                self.bullets@ == m0.bullets,
                self.bikes@ == m0.bikes,
                self.delay == m0.delay,
                self.tick == m0.tick,
                self.ai_diff == m0.ai_diff,
                0 <= i <= m0.bullets.len(),
                m0.wf(),
                (self.occupied@, kept@) == run_bullets(m0.board, m0.bullets, i as nat),
                forall|k: int| 0 <= k < kept@.len() ==> #[trigger] kept@[k].wf(m0.board.size),
            decreases m0.bullets.len() - i,
        {
            let mut b = self.bullets[i];
            assert(m0.bullets[i as int].wf(m0.board.size));
            if b.update(&mut self.occupied) {
                kept.push(b);
            }
            i += 1;
        }
        self.bullets = kept;
        let ghost b0 = self.occupied@;
        let mut winning_team: Option<u8> = None;
        let mut winner = true;
        let mut words: Vec<i64> = Vec::new();
        let mut events_added: Ghost<Seq<(u8, Point)>> = Ghost(Seq::empty());
        let mut j: usize = 0;
        while j < self.bikes.len()
            invariant
                self@.board.size == m0.board.size,
                self.occupied.wf(),
                m0.wf(),
                self.bikes@.len() == m0.bikes.len(),
                self.delay == m0.delay,
                self.tick == m0.tick,
                self.ai_diff == m0.ai_diff,
                self.bullets@ == run_bullets(m0.board, m0.bullets, m0.bullets.len()).1,
                b0 == run_bullets(m0.board, m0.bullets, m0.bullets.len()).0,
                0 <= j <= m0.bikes.len(),
                forall|k: int| j <= k < m0.bikes.len() ==> #[trigger] self.bikes@[k] == m0.bikes[k],
                forall|k: int| 0 <= k < m0.bikes.len() ==> #[trigger] self.bikes@[k].wf(m0.board.size),
                (self.occupied@, self.bikes@.take(j as int), events_added@) == run_bikes(b0, m0.bikes, j as nat),
                same_roster(m0.bikes, self.bikes@),
                winning_team == first_alive_team(self.bikes@.take(j as int)),
                winner == survivors_agree(self.bikes@.take(j as int)),
                words@ == hash_words(self.bikes@.take(j as int)),
                events@ == old(events)@ + death_events(events_added@),
                forall|k: int| 0 <= k < self.bullets@.len() ==> #[trigger] self.bullets@[k].wf(m0.board.size),
            decreases m0.bikes.len() - j,
        {
            let ghost done = self.bikes@.take(j as int);
            let mut bike = self.bikes[j];
            let died = bike.update(&mut self.occupied);
            assert(bike.id == m0.bikes[j as int].id && bike.team == m0.bikes[j as int].team
                && bike.player == m0.bikes[j as int].player && bike.color == m0.bikes[j as int].color);
            if died {
                events.push(WorldEvent::BikeDeath(bike.id, bike.head));
                proof {
                    events_added@ = events_added@.push((bike.id, bike.head));
                }
            }
            proof {
                lemma_first_alive_team(done);
            }
            if bike.alive {
                match winning_team {
                    Some(team) => {
                        if team != bike.team {
                            winner = false;
                        }
                    },
                    None => {
                        winning_team = Some(bike.team);
                    },
                }
            }
            words.push(bike.id as i64);
            words.push(bike.head.0 as i64);
            words.push(bike.head.1 as i64);
            words.push(bike.dir.0 as i64);
            words.push(bike.dir.1 as i64);
            words.push(if bike.alive { 1 } else { 0 });
            let ghost before_set = self.bikes@;
            self.bikes.set(j, bike);
            proof {
                assert forall|k: int| 0 <= k < m0.bikes.len() implies same_slot(#[trigger] m0.bikes[k], self.bikes@[k]) by {
                    if k != j {
                        assert(self.bikes@[k] == before_set[k]);
                    }
                }
                let now = self.bikes@.take(j + 1);
                assert(now =~= done.push(bike));
                assert(now.drop_last() =~= done);
                assert(death_events(events_added@) =~= death_events(run_bikes(b0, m0.bikes, j as nat).2) + if died {
                    seq![WorldEvent::BikeDeath(bike.id, bike.head)]
                } else {
                    Seq::empty()
                });
                assert(words@ =~= hash_words(done) + bike_words(bike));
                if bike.alive {
                    if first_alive_team(done).is_some() {
                        let t = first_alive_team(done).unwrap();
                        if t != bike.team {
                            let k = choose|k: int| 0 <= k < done.len() && #[trigger] done[k].alive && done[k].team == t;
                            assert(now[k].alive && now[j as int].alive && now[k].team != now[j as int].team);
                        } else {
                            if survivors_agree(done) {
                                assert forall|a: int, b: int|
                                    0 <= a < now.len() && 0 <= b < now.len() && #[trigger] now[a].alive && #[trigger] now[b].alive
                                    implies now[a].team == now[b].team by {
                                    let k = choose|k: int| 0 <= k < done.len() && #[trigger] done[k].alive && done[k].team == t;
                                    if a < j {
                                        assert(done[a] == now[a]);
                                    }
                                    if b < j {
                                        assert(done[b] == now[b]);
                                    }
                                }
                            } else {
                                let (a, b) = choose|a: int, b: int|
                                    0 <= a < done.len() && 0 <= b < done.len() && #[trigger] done[a].alive && #[trigger] done[b].alive
                                        && done[a].team != done[b].team;
                                assert(now[a] == done[a] && now[b] == done[b]);
                            }
                        }
                    } else {
                        assert forall|a: int, b: int|
                            0 <= a < now.len() && 0 <= b < now.len() && #[trigger] now[a].alive && #[trigger] now[b].alive
                            implies now[a].team == now[b].team by {
                            if a < j {
                                assert(done[a] == now[a]);
                            }
                            if b < j {
                                assert(done[b] == now[b]);
                            }
                        }
                    }
                } else {
                    if survivors_agree(done) {
                        assert forall|a: int, b: int|
                            0 <= a < now.len() && 0 <= b < now.len() && #[trigger] now[a].alive && #[trigger] now[b].alive
                            implies now[a].team == now[b].team by {
                            assert(done[a] == now[a]);
                            assert(done[b] == now[b]);
                        }
                    } else {
                        let (a, b) = choose|a: int, b: int|
                            0 <= a < done.len() && 0 <= b < done.len() && #[trigger] done[a].alive && #[trigger] done[b].alive
                                && done[a].team != done[b].team;
                        assert(now[a] == done[a] && now[b] == done[b]);
                    }
                }
            }
            j += 1;
        }
        proof {
            assert(self.bikes@.take(self.bikes@.len() as int) =~= self.bikes@);
            lemma_step_keeps_explosions(m0);
            assert(m0.bikes == old(self).bikes@);
            assert(same_roster(old(self).bikes@, self.bikes@));
        }
        self.hash = checksum(&words);
        if winner {
            match self.delay {
                None => {
                    self.delay = Some(GAME_END_DELAY);
                },
                Some(d) => {
                    if d > 0 {
                        self.delay = Some(d - 1);
                    } else {
                        return UpdateResult::MatchOver(winning_team);
                    }
                },
            }
        }
        UpdateResult::InProgress
    }

    /// A fresh simulation: empty grid, every slot's vehicle at its start.
    pub fn new(options: GridOptions) -> (r: Self)
        requires
            options.valid(),
        ensures
            r.wf(),
            r@ == initial_model(options),
            r@.board.size == grid_dim(options.grid_size),
    {
        let mut occupied = Occupied::new(options.grid_size);
        let ghost size = grid_dim(options.grid_size);
        assert(size_ok(size));
        let mut bikes: Vec<Bike> = Vec::new();
        let mut team: u8 = 0;
        while team < options.teams
            invariant
                options.valid(),
                size_ok(size),
                size == grid_dim(options.grid_size),
                0 <= team <= options.teams,
                occupied.wf(),
                occupied.size == size,
                bikes@.len() == team * options.players,
                forall|k: int| 0 <= k < bikes@.len() ==> #[trigger] bikes@[k] == initial_bikes(options)[k],
                forall|k: int| 0 <= k < bikes@.len() ==> #[trigger] bikes@[k].wf(size),
                occupied@ == initial_board(options, bikes@.len() as nat),
                forall|p: Point|
                    in_bounds(size, p) && (forall|k: int| 0 <= k < bikes@.len() ==> #[trigger] bikes@[k].head != p)
                        ==> #[trigger] occupied@.at(p) == 0,
            decreases options.teams - team,
        {
            let mut player: u8 = 0;
            while player < options.players
                invariant
                    options.valid(),
                    size_ok(size),
                    size == grid_dim(options.grid_size),
                    0 <= team < options.teams,
                    0 <= player <= options.players,
                    occupied.wf(),
                    occupied.size == size,
                    bikes@.len() == team * options.players + player,
                    forall|k: int| 0 <= k < bikes@.len() ==> #[trigger] bikes@[k] == initial_bikes(options)[k],
                    forall|k: int| 0 <= k < bikes@.len() ==> #[trigger] bikes@[k].wf(size),
                    occupied@ == initial_board(options, bikes@.len() as nat),
                    forall|p: Point|
                        in_bounds(size, p) && (forall|k: int| 0 <= k < bikes@.len() ==> #[trigger] bikes@[k].head != p)
                            ==> #[trigger] occupied@.at(p) == 0,
                decreases options.players - player,
            {
                let n = bikes.len();
                proof {
                    assert((n as int) < options.teams * options.players) by (nonlinear_arith)
                        requires
                            n == team * options.players + player,
                            team < options.teams,
                            player < options.players,
                    ;
                    lemma_div_mod_slot(n as int, team as int, player as int, options.players as int);
                    assert(initial_bikes(options)[n as int] == Bike::initial(n as u8, team, player, size));
                    let start = start_pos(team, player, size).0;
                    assert forall|k: int| 0 <= k < bikes@.len() implies #[trigger] bikes@[k].head != start by {
                        let tk = k / (options.players as int);
                        let pk = k % (options.players as int);
                        assert(bikes@[k] == initial_bikes(options)[k]);
                        assert(0 <= tk < 4 && 0 <= pk < 4 && (tk != team || pk != player)) by (nonlinear_arith)
                            requires
                                0 <= k < n,
                                n == team * options.players + player,
                                tk == k / (options.players as int),
                                pk == k % (options.players as int),
                                team < 4,
                                player < options.players,
                                options.players >= 1,
                                options.players <= 4,
                        ;
                        lemma_start_distinct(tk as u8, pk as u8, team, player, size);
                    }
                    lemma_start_in_bounds(team, player, size);
                    assert(occupied@.at(start) == 0);
                    assert(0u8 & COLOR_MASK == 0) by (bit_vector);
                }
                let ghost prev = occupied@;
                let bike = Bike::new(&mut occupied, n as u8, team, player);
                proof {
                    assert(bike == initial_bikes(options)[n as int]);
                    lemma_set_wf(prev, bike.head, bits_claimed(bike.color, true, false));
                    assert(initial_board(options, (n + 1) as nat) == occupied@);
                }
                let ghost old_bikes = bikes@;
                bikes.push(bike);
                proof {
                    assert forall|p: Point|
                        in_bounds(size, p) && (forall|k: int| 0 <= k < bikes@.len() ==> #[trigger] bikes@[k].head != p)
                        implies #[trigger] occupied@.at(p) == 0 by {
                        assert(bikes@[n as int].head != p);
                        assert forall|k: int| 0 <= k < old_bikes.len() implies #[trigger] old_bikes[k].head != p by {
                            assert(bikes@[k] == old_bikes[k]);
                        }
                        assert(prev.at(p) == 0);
                    }
                }
                player += 1;
            }
            assert(team * options.players + options.players == (team + 1) * options.players) by (nonlinear_arith);
            team += 1;
        }
        assert(bikes@ =~= initial_bikes(options));
        proof {
            lemma_initial_board_blocked(options, options.slots());
        }
        assert(options.teams * options.players <= 16) by (nonlinear_arith)
            requires
                options.teams <= 4,
                options.players <= 4,
        ;
        Grid {
            hash: 0,
            bikes,
            occupied,
            tick: 0,
            rng: quad_rand::RandGenerator::new(),
            delay: None,
            ai_diff: options.ai_diff,
            bullets: Vec::new(),
        }
    }
}

} // verus!
