use vstd::prelude::*;

use crate::Action;
use crate::grid::{
    Board, Occupied, Point, bits_bike, bits_color, bits_explode, bits_exploded, bits_free, bits_occupied,
    in_bounds, lemma_set_wf, point_eq, spec_team_to_color, team_to_color,
};

verus! {

pub const UP: Point = (0, -1);
pub const DOWN: Point = (0, 1);
pub const RIGHT: Point = (1, 0);
pub const LEFT: Point = (-1, 0);

/// One of the four unit headings.
pub open spec fn is_dir(d: Point) -> bool {
    d == UP || d == DOWN || d == LEFT || d == RIGHT
}

pub open spec fn spec_invert_dir(d: Point) -> Point {
    if d == UP {
        DOWN
    } else if d == DOWN {
        UP
    } else if d == LEFT {
        RIGHT
    } else {
        LEFT
    }
}

pub open spec fn spec_rotate_right(d: Point) -> Point {
    if d == UP {
        RIGHT
    } else if d == RIGHT {
        DOWN
    } else if d == DOWN {
        LEFT
    } else {
        UP
    }
}

pub open spec fn spec_rotate_left(d: Point) -> Point {
    if d == UP {
        LEFT
    } else if d == RIGHT {
        UP
    } else if d == DOWN {
        RIGHT
    } else {
        DOWN
    }
}

pub fn invert_dir(dir: Point) -> (r: Point)
    requires
        is_dir(dir),
    ensures
        r == spec_invert_dir(dir),
        is_dir(r),
{
    if point_eq(dir, UP) {
        DOWN
    } else if point_eq(dir, DOWN) {
        UP
    } else if point_eq(dir, LEFT) {
        RIGHT
    } else {
        LEFT
    }
}

pub fn rotate_right(dir: Point) -> (r: Point)
    requires
        is_dir(dir),
    ensures
        r == spec_rotate_right(dir),
        is_dir(r),
{
    if point_eq(dir, UP) {
        RIGHT
    } else if point_eq(dir, RIGHT) {
        DOWN
    } else if point_eq(dir, DOWN) {
        LEFT
    } else {
        UP
    }
}

pub fn rotate_left(dir: Point) -> (r: Point)
    requires
        is_dir(dir),
    ensures
        r == spec_rotate_left(dir),
        is_dir(r),
{
    if point_eq(dir, UP) {
        LEFT
    } else if point_eq(dir, RIGHT) {
        UP
    } else if point_eq(dir, DOWN) {
        RIGHT
    } else {
        DOWN
    }
}

pub fn multiply(dir: Point, val: i16) -> (r: Point)
    requires
        i16::MIN <= dir.0 * val <= i16::MAX,
        i16::MIN <= dir.1 * val <= i16::MAX,
    ensures
        r.0 == dir.0 * val,
        r.1 == dir.1 * val,
{
    (dir.0 * val, dir.1 * val)
}

pub fn add(dir: Point, dir2: Point) -> (r: Point)
    requires
        i16::MIN <= dir.0 + dir2.0 <= i16::MAX,
        i16::MIN <= dir.1 + dir2.1 <= i16::MAX,
    ensures
        r.0 == dir.0 + dir2.0,
        r.1 == dir.1 + dir2.1,
{
    (dir.0 + dir2.0, dir.1 + dir2.1)
}

/// A command for one vehicle: its new heading, and whether it fires a boost.
#[derive(Debug, Clone, Copy)]
pub struct BikeUpdate {
    pub id: u8,
    pub dir: Point,
    pub boost: bool,
}

impl BikeUpdate {
    pub fn new(id: u8, dir: Point) -> (r: Self)
        ensures
            r == (BikeUpdate { id, dir, boost: false }),
    {
        BikeUpdate { id, dir, boost: false }
    }
}

/// Grid sizes on which every starting layout fits.
pub open spec fn size_ok(size: Point) -> bool {
    80 <= size.0 <= 120 && 80 <= size.1 <= 120
}

/// The base position and heading of a team.
pub open spec fn team_base(team: u8, size: Point) -> (Point, Point) {
    if team == 0 {
        ((8i16, (size.1 / 2) as i16), RIGHT)
    } else if team == 1 {
        (((size.0 - 9) as i16, (size.1 / 2) as i16), LEFT)
    } else if team == 2 {
        (((size.0 / 2) as i16, 8i16), DOWN)
    } else {
        (((size.0 / 2) as i16, (size.1 - 8) as i16), UP)
    }
}

/// A player's offset from the team base, staggered behind and to the sides.
pub open spec fn player_offset(player: u8, dir: Point) -> (int, int) {
    let r = spec_rotate_right(dir);
    let l = spec_rotate_left(dir);
    let b = spec_invert_dir(dir);
    if player == 0 {
        (0, 0)
    } else if player == 1 {
        (r.0 * 3 + b.0, r.1 * 3 + b.1)
    } else if player == 2 {
        (l.0 * 3 + b.0, l.1 * 3 + b.1)
    } else if player == 3 {
        (r.0 * 6 + b.0 * 3, r.1 * 6 + b.1 * 3)
    } else {
        (l.0 * 6 + b.0 * 3, l.1 * 6 + b.1 * 3)
    }
}

/// Starting head and heading of the vehicle of (team, player).
#[verifier::opaque]
pub open spec fn start_pos(team: u8, player: u8, size: Point) -> (Point, Point) {
    let (base, dir) = team_base(team, size);
    let off = player_offset(player, dir);
    (((base.0 + off.0) as i16, (base.1 + off.1) as i16), dir)
}

/// Derives the deterministic starting position and heading from (team, player).
pub fn bike_pos(team: u8, player: u8, size: Point) -> (r: (Point, Point))
    requires
        team < 4,
        player <= 4,
        size_ok(size),
    ensures
        r == start_pos(team, player, size),
        in_bounds(size, r.0),
        is_dir(r.1),
{
    let (pos, dir) = if team == 0 {
        ((8i16, size.1 / 2), RIGHT)
    } else if team == 1 {
        ((size.0 - 9, size.1 / 2), LEFT)
    } else if team == 2 {
        ((size.0 / 2, 8i16), DOWN)
    } else {
        ((size.0 / 2, size.1 - 8), UP)
    };
    proof {
        reveal(start_pos);
    }
    let player_offset = if player == 0 {
        (0i16, 0i16)
    } else if player == 1 {
        crate::grid::bike::add(multiply(rotate_right(dir), 3), invert_dir(dir))
    } else if player == 2 {
        crate::grid::bike::add(multiply(rotate_left(dir), 3), invert_dir(dir))
    } else if player == 3 {
        crate::grid::bike::add(multiply(rotate_right(dir), 6), multiply(invert_dir(dir), 3))
    } else {
        crate::grid::bike::add(multiply(rotate_left(dir), 6), multiply(invert_dir(dir), 3))
    };
    (crate::grid::bike::add(pos, player_offset), dir)
}

pub type Ticks = u8;

pub const BOOST_COUNT: u8 = 3;
pub const BOOST_TIME: Ticks = 20;

/// Ticks a vehicle waits between moves.
pub const NORMAL_SPEED: Ticks = 1;

/// Starting trail length (kept for display; trails are permanent).
pub const BIKE_LENGTH: u8 = 64;

/// A vehicle: a head that moves one cell per move, leaving a permanent trail.
#[derive(Debug, Clone, Copy)]
pub struct Bike {
    pub id: u8,
    pub team: u8,
    pub player: u8,
    pub color: u8,
    pub head: Point,
    pub dir: Point,
    pub alive: bool,
    pub speed: Ticks,
    pub boost_time: Ticks,
    pub boost_count: u8,
    pub length: u8,
}

/// The command that a player action asks of a vehicle: a turn to a new axis,
/// or a boost while charges remain; nothing otherwise.
pub open spec fn action_update(b: Bike, action: Action) -> Option<BikeUpdate> {
    match action {
        Action::Confirm => if b.boost_count == 0 {
            None
        } else {
            Some(BikeUpdate { id: b.id, dir: b.dir, boost: true })
        },
        Action::Left | Action::Right | Action::Up | Action::Down => {
            let d = match action {
                Action::Left => LEFT,
                Action::Right => RIGHT,
                Action::Up => UP,
                _ => DOWN,
            };
            if d == b.dir || d == spec_invert_dir(b.dir) {
                None
            } else {
                Some(BikeUpdate { id: b.id, dir: d, boost: false })
            }
        },
        _ => None,
    }
}

impl Bike {
    /// Invariant of a vehicle on a grid of the given size.
    pub open spec fn wf(&self, size: Point) -> bool {
        &&& is_dir(self.dir)
        &&& in_bounds(size, self.head)
        &&& self.team < 4
        &&& self.player < 4
        &&& self.color == spec_team_to_color(self.team as int, self.player as int)
    }

    /// The vehicle of (team, player) at its starting position.
    pub open spec fn initial(id: u8, team: u8, player: u8, size: Point) -> Bike {
        Bike {
            id,
            team,
            player,
            color: spec_team_to_color(team as int, player as int) as u8,
            head: start_pos(team, player, size).0,
            dir: start_pos(team, player, size).1,
            alive: true,
            speed: 0,
            boost_time: 0,
            boost_count: BOOST_COUNT,
            length: BIKE_LENGTH,
        }
    }

    /// The cell the head moves to next.
    pub open spec fn next_head(&self) -> Point {
        ((self.head.0 + self.dir.0) as i16, (self.head.1 + self.dir.1) as i16)
    }

    /// One tick of a vehicle: a dead one stays; a throttled one counts down;
    /// otherwise it leaves its head cell (dying if that cell was exploded) and
    /// claims the next one, dying on collision with its old head exploded.
    /// The result is the new vehicle, the new board, and whether it just died.
    pub open spec fn step(self, board: Board) -> (Bike, Board, bool) {
        if !self.alive {
            (self, board, false)
        } else if self.speed > 0 {
            (Bike { speed: (self.speed - 1) as u8, ..self }, board, false)
        } else {
            let b1 = Bike {
                speed: NORMAL_SPEED,
                boost_time: if self.boost_time > 0 { (self.boost_time - 1) as u8 } else { 0 },
                ..self
            };
            let (board1, ok) = board.free(self.head);
            if !ok {
                (Bike { alive: false, ..b1 }, board1, true)
            } else {
                let (board2, hit) = board1.occupy(self.next_head(), self.color, false);
                if hit {
                    (Bike { alive: false, ..b1 }, board2.explode(self.head), true)
                } else {
                    (Bike { head: self.next_head(), ..b1 }, board2, false)
                }
            }
        }
    }

    /// Places the vehicle of (team, player) on the grid.
    pub fn new(grid: &mut Occupied, id: u8, team: u8, player: u8) -> (r: Self)
        requires
            old(grid).wf(),
            size_ok(old(grid).size),
            team < 4,
            player < 4,
            !old(grid)@.blocked(start_pos(team, player, old(grid).size).0),
        ensures
            final(grid).wf(),
            r == Bike::initial(id, team, player, old(grid).size),
            r.wf(old(grid).size),
            final(grid)@ == old(grid)@.occupy(r.head, r.color, false).0,
    {
        let (head, dir) = bike_pos(team, player, grid.size);
        let color = team_to_color(team, player);
        let _ = grid.occupy(head, color, false);
        Bike {
            id,
            team,
            player,
            color,
            head,
            dir,
            alive: true,
            speed: 0,
            boost_time: 0,
            boost_count: BOOST_COUNT,
            length: BIKE_LENGTH,
        }
    }

    pub fn get_color(&self) -> (r: u8)
        ensures
            r == self.color,
    {
        self.color
    }

    /// Translates a player action into a command for this vehicle.
    pub fn handle_action(&self, action: Action) -> (r: Option<BikeUpdate>)
        requires
            is_dir(self.dir),
        ensures
            r == action_update(*self, action),
    {
        let new_dir = match action {
            Action::Left => LEFT,
            Action::Right => RIGHT,
            Action::Up => UP,
            Action::Down => DOWN,
            Action::Confirm => {
                if self.boost_count == 0 {
                    return None;
                }
                return Some(BikeUpdate { id: self.id, dir: self.dir, boost: true });
            },
            _ => return None,
        };
        if point_eq(new_dir, self.dir) || point_eq(new_dir, invert_dir(self.dir)) {
            return None;
        }
        Some(BikeUpdate { id: self.id, dir: new_dir, boost: false })
    }

    /// A command only sets the heading; movement happens in the step.
    pub fn apply_update(&mut self, update: &BikeUpdate)
        ensures
            *final(self) == (Bike { dir: update.dir, ..*old(self) }),
    {
        self.dir = update.dir;
    }

    /// Advances the vehicle one tick; true if it just died.
    pub fn update(&mut self, grid: &mut Occupied) -> (r: bool)
        requires
            old(grid).wf(),
            old(self).wf(old(grid).size),
        ensures
            final(grid).wf(),
            final(grid).size == old(grid).size,
            final(self).wf(old(grid).size),
            (*final(self), final(grid)@, r) == old(self).step(old(grid)@),
    {
        if !self.alive {
            return false;
        }
        if self.speed > 0 {
            self.speed -= 1;
            return false;
        } else {
            self.speed = if self.boost_time > 0 {
                self.boost_time -= 1;
                NORMAL_SPEED
            } else {
                NORMAL_SPEED
            };
        }
        if !grid.free(self.head, self.color) {
            self.alive = false;
            return true;
        }
        let new_head = (self.head.0 + self.dir.0, self.head.1 + self.dir.1);
        if grid.occupy(new_head, self.color, false) {
            self.alive = false;
            grid.explose(self.head);
            true
        } else {
            self.head = new_head;
            false
        }
    }
}

proof fn lemma_explode_bits(v: u8)
    ensures
        bits_exploded(bits_explode(v)),
        bits_color(bits_explode(v)) == bits_color(v),
        bits_occupied(bits_explode(v)) == bits_occupied(v),
        bits_exploded(bits_explode(bits_free(v))),
        bits_occupied(bits_free(v)) == bits_occupied(v),
{
    assert((v & !0x80u8) & 0x1f == v & 0x1f) by (bit_vector);
    assert((v | 0x20) & !0x80u8 & 0x20 != 0) by (bit_vector);
    assert(((v | 0x20) & !0x80u8) & 0x1f == v & 0x1f) by (bit_vector);
    assert((((v & !0x80u8) | 0x20) & !0x80u8) & 0x20 != 0) by (bit_vector);
}

/// A vehicle due to move whose next cell is taken dies on that very tick.
/// The taken cell keeps its owner and flags (a head there is only flagged
/// exploded), the cell the vehicle stood on becomes exploded, and no other
/// cell changes.
pub proof fn lemma_collision(b: Bike, board: Board)
    requires
        board.wf(),
        b.wf(board.size),
        b.alive,
        b.speed == 0,
        !bits_exploded(board.at(b.head)),
        bits_occupied(board.at(b.head)),
        in_bounds(board.size, b.next_head()),
        bits_occupied(board.at(b.next_head())),
    ensures
        ({
            let (nb, nboard, died) = b.step(board);
            &&& died
            &&& !nb.alive
            &&& nb.head == b.head
            &&& bits_exploded(nboard.at(b.head))
            &&& bits_occupied(nboard.at(b.next_head()))
            &&& bits_color(nboard.at(b.next_head())) == bits_color(board.at(b.next_head()))
            &&& !bits_bike(board.at(b.next_head())) ==> nboard.at(b.next_head()) == board.at(b.next_head())
            &&& forall|q: Point|
                in_bounds(board.size, q) && q != b.head && q != b.next_head() ==> #[trigger] nboard.at(q) == board.at(q)
        }),
{
    let h = b.head;
    let n = b.next_head();
    assert(n != h);
    let b1 = board.set(h, bits_free(board.at(h)));
    lemma_set_wf(board, h, bits_free(board.at(h)));
    assert(b1.at(n) == board.at(n));
    lemma_explode_bits(board.at(n));
    lemma_explode_bits(board.at(h));
    let b2 = b1.occupy(n, b.color, false).0;
    if bits_bike(board.at(n)) {
        lemma_set_wf(b1, n, bits_explode(b1.at(n)));
    }
    assert(b2.wf());
    assert(b2.at(h) == bits_free(board.at(h)));
    lemma_set_wf(b2, h, bits_explode(b2.at(h)));
}

/// A vehicle at the edge of the grid heading outward dies as it would on an
/// occupied cell: on that tick, with the cell it stood on exploded and no
/// other cell changed.
pub proof fn lemma_wall(b: Bike, board: Board)
    requires
        board.wf(),
        b.wf(board.size),
        b.alive,
        b.speed == 0,
        !bits_exploded(board.at(b.head)),
        bits_occupied(board.at(b.head)),
        !in_bounds(board.size, b.next_head()),
    ensures
        ({
            let (nb, nboard, died) = b.step(board);
            &&& died
            &&& !nb.alive
            &&& nb.head == b.head
            &&& bits_exploded(nboard.at(b.head))
            &&& forall|q: Point| in_bounds(board.size, q) && q != b.head ==> #[trigger] nboard.at(q) == board.at(q)
        }),
{
    let h = b.head;
    let b1 = board.set(h, bits_free(board.at(h)));
    lemma_set_wf(board, h, bits_free(board.at(h)));
    lemma_explode_bits(board.at(h));
    lemma_set_wf(b1, h, bits_explode(b1.at(h)));
}

} // verus!
