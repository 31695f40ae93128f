use vstd::prelude::*;

use crate::AiDifficulty;
use crate::grid::{Board, Grid, Occupied, Point, bits_occupied, in_bounds, point_eq};
use crate::grid::bike::{Bike, BikeUpdate, DOWN, LEFT, RIGHT, UP, is_dir};
use crate::rng::coin_flip;

verus! {

/// The survival turn order, or its reverse.
pub open spec fn survival_dirs(rev: bool) -> Seq<Point> {
    if rev {
        seq![RIGHT, LEFT, DOWN, UP]
    } else {
        seq![UP, DOWN, LEFT, RIGHT]
    }
}

/// Two cells that share a side.
pub open spec fn adjacent(a: Point, b: Point) -> bool {
    ||| (b.0 - a.0 == 0 && (b.1 - a.1 == 1 || b.1 - a.1 == -1))
    ||| (b.1 - a.1 == 0 && (b.0 - a.0 == 1 || b.0 - a.0 == -1))
}

pub open spec fn offset(p: Point, d: Point) -> Point {
    ((p.0 + d.0) as i16, (p.1 + d.1) as i16)
}

/// The first heading in `dirs` whose cell next to `head` is free.
pub open spec fn first_free(board: Board, head: Point, dirs: Seq<Point>) -> Option<Point>
    decreases dirs.len(),
{
    if dirs.len() == 0 {
        None
    } else if !board.blocked(offset(head, dirs[0])) {
        Some(dirs[0])
    } else {
        first_free(board, head, dirs.drop_first())
    }
}

/// Whether a cell is open to the search: on the grid, free, and not next to a head.
pub open spec fn passable(board: Board, avoid: Seq<Point>, p: Point) -> bool {
    in_bounds(board.size, p) && !bits_occupied(board.at(p)) && !avoid.contains(p)
}

/// A path as `bfs` returns it: from `start`, each step to a passable
/// neighbouring cell, ending on a target.
pub open spec fn path_valid(board: Board, avoid: Seq<Point>, targets: Seq<Point>, start: Point, path: Seq<Point>) -> bool {
    &&& path.len() >= 1
    &&& path[0] == start
    &&& targets.contains(path.last())
    &&& forall|k: int|
        1 <= k < path.len() ==> {
            &&& adjacent(path[k - 1], path[k])
            &&& #[trigger] passable(board, avoid, path[k])
        }
}

/// Outcome of the survival check: a decision, or no forced turn.
pub enum Survival {
    Decided(Option<BikeUpdate>),
    NotForced,
}

/// The command that follows a found path: head for its first step; boost
/// only on the hardest tier, with a charge left, none active, a short path
/// and a lucky roll. Going straight without boost needs no command.
pub open spec fn path_command(b: Bike, path: Seq<Point>, roll: u32, diff: AiDifficulty) -> Option<BikeUpdate> {
    if path.len() < 2 {
        None
    } else {
        let dir = ((path[1].0 - b.head.0) as i16, (path[1].1 - b.head.1) as i16);
        let boost = b.boost_time == 0 && path.len() < 15 && roll < u32::MAX / 10 && b.boost_count > 0
            && diff == AiDifficulty::Hard;
        if dir == b.dir && !boost {
            None
        } else {
            Some(BikeUpdate { id: b.id, dir, boost })
        }
    }
}

fn survival_dir(rev: bool, k: usize) -> (r: Point)
    requires
        k < 4,
    ensures
        r == survival_dirs(rev)[k as int],
{
    if rev {
        if k == 0 {
            RIGHT
        } else if k == 1 {
            LEFT
        } else if k == 2 {
            DOWN
        } else {
            UP
        }
    } else {
        if k == 0 {
            UP
        } else if k == 1 {
            DOWN
        } else if k == 2 {
            LEFT
        } else {
            RIGHT
        }
    }
}

proof fn lemma_first_free_suffix(board: Board, head: Point, dirs: Seq<Point>, k: int)
    requires
        0 <= k <= dirs.len(),
        forall|j: int| 0 <= j < k ==> board.blocked(offset(head, #[trigger] dirs[j])),
    ensures
        first_free(board, head, dirs) == first_free(board, head, dirs.subrange(k, dirs.len() as int)),
    decreases k,
{
    if k == 0 {
        assert(dirs.subrange(0, dirs.len() as int) =~= dirs);
    } else {
        assert(board.blocked(offset(head, dirs[0])));
        let rest = dirs.drop_first();
        assert forall|j: int| 0 <= j < k - 1 implies board.blocked(offset(head, #[trigger] rest[j])) by {
            assert(rest[j] == dirs[j + 1]);
        }
        lemma_first_free_suffix(board, head, rest, k - 1);
        assert(rest.subrange(k - 1, rest.len() as int) =~= dirs.subrange(k, dirs.len() as int));
    }
}

impl Bike {
    /// Survival: when the cell ahead is blocked, turn to the first free cell in
    /// the fixed order (reversed when `rev`); with none free, nothing is forced.
    pub fn ai_survival(&self, occupied: &Occupied, rev: bool) -> (r: Survival)
        requires
            occupied.wf(),
            self.wf(occupied.size),
        ensures
            !occupied@.blocked(self.next_head()) ==> r is NotForced,
            occupied@.blocked(self.next_head()) ==> match first_free(occupied@, self.head, survival_dirs(rev)) {
                None => r is NotForced,
                Some(d) => r == Survival::Decided(
                    if d == self.dir {
                        None
                    } else {
                        Some(BikeUpdate { id: self.id, dir: d, boost: false })
                    },
                ),
            },
    {
        let new_head = (self.head.0 + self.dir.0, self.head.1 + self.dir.1);
        assert(new_head == self.next_head());
        if !occupied.is_occupied(new_head) {
            return Survival::NotForced;
        }
        let mut k: usize = 0;
        while k < 4
            invariant
                0 <= k <= 4,
                occupied@.blocked(self.next_head()),
                occupied.wf(),
                self.wf(occupied.size),
                forall|j: int| 0 <= j < k ==> occupied@.blocked(offset(self.head, #[trigger] survival_dirs(rev)[j])),
            decreases 4 - k,
        {
            let dir = survival_dir(rev, k);
            let new_head = (self.head.0 + dir.0, self.head.1 + dir.1);
            if !occupied.is_occupied(new_head) {
                proof {
                    lemma_first_free_suffix(occupied@, self.head, survival_dirs(rev), k as int);
                }
                if !point_eq(self.dir, dir) {
                    return Survival::Decided(Some(BikeUpdate { id: self.id, dir, boost: false }));
                } else {
                    return Survival::Decided(None);
                }
            }
            k += 1;
        }
        proof {
            lemma_first_free_suffix(occupied@, self.head, survival_dirs(rev), 4);
        }
        Survival::NotForced
    }

    /// The command that a found path asks for.
    pub fn ai_follow_path(&self, path: &Vec<Point>, roll: u32, diff: AiDifficulty) -> (r: Option<BikeUpdate>)
        requires
            path@.len() >= 2 ==> adjacent(self.head, path@[1]),
        ensures
            r == path_command(*self, path@, roll, diff),
    {
        if path.len() < 2 {
            return None;
        }
        let pos = path[1];
        let dir = (pos.0 - self.head.0, pos.1 - self.head.1);
        let boost = self.boost_time == 0 && path.len() < 15 && roll < u32::MAX / 10 && self.boost_count > 0
            && diff == AiDifficulty::Hard;
        if point_eq(dir, self.dir) && !boost {
            return None;
        }
        Some(BikeUpdate { id: self.id, dir, boost })
    }
}

pub proof fn lemma_first_free(board: Board, head: Point, dirs: Seq<Point>)
    ensures
        first_free(board, head, dirs) matches Some(d) ==> dirs.contains(d) && !board.blocked(offset(head, d)),
        first_free(board, head, dirs).is_none() ==> forall|k: int| 0 <= k < dirs.len() ==> board.blocked(offset(head, #[trigger] dirs[k])),
    decreases dirs.len(),
{
    if dirs.len() > 0 {
        let rest = dirs.drop_first();
        lemma_first_free(board, head, rest);
        if first_free(board, head, dirs).is_none() {
            assert forall|k: int| 0 <= k < dirs.len() implies board.blocked(offset(head, #[trigger] dirs[k])) by {
                if k > 0 {
                    assert(dirs[k] == rest[k - 1]);
                }
            }
        }
        if let Some(d) = first_free(board, head, rest) {
            if board.blocked(offset(head, dirs[0])) {
                let k = choose|k: int| 0 <= k < rest.len() && rest[k] == d;
                assert(dirs[k + 1] == d);
            }
        }
    }
}

/// Whether `v` holds `p`.
pub fn contains_point(v: &Vec<Point>, p: Point) -> (r: bool)
    ensures
        r == v@.contains(p),
{
    let mut i: usize = 0;
    while i < v.len()
        invariant
            0 <= i <= v@.len(),
            forall|k: int| 0 <= k < i ==> v@[k] != p,
        decreases v@.len() - i,
    {
        if point_eq(v[i], p) {
            return true;
        }
        i += 1;
    }
    false
}

/// The neighbours of `p` that the search may enter, right, left, down, up.
pub fn open_neighbours(occupied: &Occupied, avoid: &Vec<Point>, p: Point) -> (r: Vec<Point>)
    requires
        occupied.wf(),
    ensures
        forall|k: int| 0 <= k < r@.len() ==> adjacent(p, #[trigger] r@[k]) && passable(occupied@, avoid@, r@[k]),
        in_bounds(occupied@.size, p) ==> forall|q: Point| adjacent(p, q) && passable(occupied@, avoid@, q) ==> #[trigger] r@.contains(q),
{
    let mut r: Vec<Point> = Vec::new();
    let mut k: usize = 0;
    while k < 4
        invariant
            0 <= k <= 4,
            occupied.wf(),
            forall|j: int| 0 <= j < r@.len() ==> adjacent(p, #[trigger] r@[j]) && passable(occupied@, avoid@, r@[j]),
            in_bounds(occupied@.size, p) ==> forall|j: int| 0 <= j < k && passable(occupied@, avoid@, neighbour(p, j)) ==> #[trigger] r@.contains(neighbour(p, j)),
        decreases 4 - k,
    {
        let ghost before = r@;
        let cand: Option<Point> = if k == 0 {
            if p.0 < i16::MAX { Some((p.0 + 1, p.1)) } else { None }
        } else if k == 1 {
            if p.0 > i16::MIN { Some((p.0 - 1, p.1)) } else { None }
        } else if k == 2 {
            if p.1 < i16::MAX { Some((p.0, p.1 + 1)) } else { None }
        } else {
            if p.1 > i16::MIN { Some((p.0, p.1 - 1)) } else { None }
        };
        proof {
            if in_bounds(occupied@.size, p) {
                assert(cand.is_some() && cand.unwrap() == neighbour(p, k as int));
            }
        }
        if let Some(q) = cand {
            if !occupied.is_occupied(q) && !contains_point(avoid, q) {
                r.push(q);
                assert(r@[r@.len() - 1] == q);
            }
        }
        let ghost after = r@;
        assert(after.len() >= before.len() && forall|i: int| 0 <= i < before.len() ==> #[trigger] after[i] == before[i]);
        proof {
            if in_bounds(occupied@.size, p) {
                assert forall|j: int| 0 <= j < k + 1 && passable(occupied@, avoid@, neighbour(p, j)) implies #[trigger] after.contains(
                    neighbour(p, j),
                ) by {
                    if j < k {
                        assert(before.contains(neighbour(p, j)));
                        let i = choose|i: int| 0 <= i < before.len() && before[i] == neighbour(p, j);
                        assert(after[i] == before[i]);
                    } else {
                        assert(cand.unwrap() == neighbour(p, j));
                        assert(after[after.len() - 1] == neighbour(p, j));
                    }
                }
            }
        }
        k += 1;
    }
    proof {
        if in_bounds(occupied@.size, p) {
        assert forall|q: Point| adjacent(p, q) && passable(occupied@, avoid@, q) implies #[trigger] r@.contains(q) by {
            if q == neighbour(p, 0) {
            } else if q == neighbour(p, 1) {
            } else if q == neighbour(p, 2) {
            } else {
                assert(q == neighbour(p, 3));
            }
        }
        }
    }
    r
}

/// The neighbours of `p` in search order: right, left, down, up.
pub open spec fn neighbour(p: Point, k: int) -> Point {
    if k == 0 {
        ((p.0 + 1) as i16, p.1)
    } else if k == 1 {
        ((p.0 - 1) as i16, p.1)
    } else if k == 2 {
        (p.0, (p.1 + 1) as i16)
    } else {
        (p.0, (p.1 - 1) as i16)
    }
}

/// Relies on pathfinding's `bfs`: it returns a shortest path from `start` to a
/// node that passes the success test, each later node being one that the
/// successor function gave for the node before it, or `None` when no such
/// path exists. The successor function here gives every open neighbour.
#[verifier::external_body]
fn bfs_path(occupied: &Occupied, avoid: &Vec<Point>, targets: &Vec<Point>, start: Point) -> (r: Option<Vec<Point>>)
    requires
        occupied.wf(),
        in_bounds(occupied@.size, start),
    ensures
        r matches Some(path) ==> path_valid(occupied@, avoid@, targets@, start, path@) && forall|other: Seq<Point>|
            path_valid(occupied@, avoid@, targets@, start, other) ==> path@.len() <= other.len(),
        r.is_none() ==> forall|other: Seq<Point>| !path_valid(occupied@, avoid@, targets@, start, other),
{
    pathfinding::prelude::bfs(&start, |p: &Point| open_neighbours(occupied, avoid, *p), |p: &Point| contains_point(targets, *p))
}

/// A draw from the simulation's generator.
fn roll(grid: &Grid) -> u32 {
    grid.rng.rand()
}

impl Bike {
    /// The AI's command for this vehicle this tick. Survival comes first:
    /// with the cell ahead blocked and any neighbouring cell free, it turns to
    /// the first free cell in the fixed order or its reverse (a coin flip).
    /// Only on the hardest tier does it then chase the cells just
    /// ahead of living rivals by breadth-first search, never through a cell
    /// next to another head.
    pub fn ai_update(&self, grid: &Grid) -> (r: Option<BikeUpdate>)
        requires
            grid.wf(),
            self.wf(grid@.board.size),
        ensures
            !self.alive ==> r.is_none(),
            r matches Some(u) ==> {
                &&& u.id == self.id
                &&& is_dir(u.dir)
                &&& !grid@.board.blocked(offset(self.head, u.dir))
                &&& u.boost ==> grid.ai_diff == AiDifficulty::Hard && self.boost_count > 0 && self.boost_time == 0
            },
            self.alive && grid@.board.blocked(self.next_head()) && (exists|d: Point|
                is_dir(d) && !grid@.board.blocked(offset(self.head, d))) ==> (r matches Some(u) && !u.boost),
            self.alive && grid@.board.blocked(self.next_head()) && (exists|d: Point|
                is_dir(d) && !grid@.board.blocked(offset(self.head, d))) ==> exists|rev: bool|
                r == Some(
                    BikeUpdate {
                        id: self.id,
                        dir: first_free(grid@.board, self.head, survival_dirs(rev)).unwrap(),
                        boost: false,
                    },
                ),
            self.alive && !grid@.board.blocked(self.next_head()) && grid.ai_diff != AiDifficulty::Hard ==> r.is_none(),
            self.alive && grid.ai_diff == AiDifficulty::Hard && not_forced(grid@.board, *self) ==> {
                let targets = rival_targets(grid.bikes@, *self, grid.bikes@.len());
                let avoid = head_rings(grid.bikes@, *self, grid.bikes@.len());
                &&& (forall|p: Seq<Point>| !path_valid(grid@.board, avoid, targets, self.head, p)) ==> r.is_none()
                &&& (exists|p: Seq<Point>| path_valid(grid@.board, avoid, targets, self.head, p)) ==> exists|
                    p: Seq<Point>,
                    roll: u32,
                |
                    path_valid(grid@.board, avoid, targets, self.head, p) && (forall|o: Seq<Point>|
                        path_valid(grid@.board, avoid, targets, self.head, o) ==> p.len() <= o.len()) && r
                        == path_command(*self, p, roll, AiDifficulty::Hard)
            },
    {
        if !self.alive {
            return None;
        }
        let new_head = (self.head.0 + self.dir.0, self.head.1 + self.dir.1);
        assert(new_head == self.next_head());
        if grid.occupied.is_occupied(new_head) {
            let rev = coin_flip(&grid.rng) != 0;
            let survival = self.ai_survival(&grid.occupied, rev);
            proof {
                lemma_first_free(grid@.board, self.head, survival_dirs(rev));
                if exists|d: Point| is_dir(d) && !grid@.board.blocked(offset(self.head, d)) {
                    let d = choose|d: Point| is_dir(d) && !grid@.board.blocked(offset(self.head, d));
                    if first_free(grid@.board, self.head, survival_dirs(rev)).is_none() {
                        assert(survival_dirs(rev).contains(d) ==> grid@.board.blocked(offset(self.head, d)));
                        if rev {
                            assert(survival_dirs(rev)[3 - dir_index(d)] == d);
                        } else {
                            assert(survival_dirs(rev)[dir_index(d)] == d);
                        }
                    }
                }
                if not_forced(grid@.board, *self) && grid@.board.blocked(self.next_head()) {
                    if let Some(d) = first_free(grid@.board, self.head, survival_dirs(rev)) {
                        let k = choose|k: int| 0 <= k < 4 && survival_dirs(rev)[k] == d;
                        assert(is_dir(survival_dirs(rev)[k]));
                    }
                }
                if let Some(d) = first_free(grid@.board, self.head, survival_dirs(rev)) {
                    let k = choose|k: int| 0 <= k < 4 && survival_dirs(rev)[k] == d;
                    assert(is_dir(survival_dirs(rev)[k]));
                    assert(d != self.dir);
                }
            }
            match survival {
                Survival::Decided(u) => {
                    return u;
                },
                Survival::NotForced => {},
            }
        }
        if grid.ai_diff != AiDifficulty::Hard {
            return None;
        }
        // the cells just ahead of every living rival
        let mut cutoff_pos: Vec<Point> = Vec::new();
        // never path next to another head
        let mut avoid_pos: Vec<Point> = Vec::new();
        let mut i: usize = 0;
        while i < grid.bikes.len()
            invariant
                grid.wf(),
                0 <= i <= grid.bikes@.len(),
                cutoff_pos@ == rival_targets(grid.bikes@, *self, i as nat),
                avoid_pos@ == head_rings(grid.bikes@, *self, i as nat),
            decreases grid.bikes@.len() - i,
        {
            let bike = grid.bikes[i];
            assert(grid.bikes@[i as int].wf(grid@.board.size));
            if bike.id != self.id && bike.team != self.team && bike.alive {
                cutoff_pos.push((bike.head.0 + 2 * bike.dir.0, bike.head.1 + 2 * bike.dir.1));
            }
            if bike.id != self.id && bike.alive {
                avoid_pos.push((bike.head.0 + LEFT.0, bike.head.1 + LEFT.1));
                avoid_pos.push((bike.head.0 + RIGHT.0, bike.head.1 + RIGHT.1));
                avoid_pos.push((bike.head.0 + UP.0, bike.head.1 + UP.1));
                avoid_pos.push((bike.head.0 + DOWN.0, bike.head.1 + DOWN.1));
            }
            proof {
                let ring = seq![offset(bike.head, LEFT), offset(bike.head, RIGHT), offset(bike.head, UP), offset(bike.head, DOWN)];
                if bike.id != self.id && bike.alive {
                    assert(avoid_pos@ =~= head_rings(grid.bikes@, *self, i as nat) + ring);
                }
            }
            i += 1;
        }
        match bfs_path(&grid.occupied, &avoid_pos, &cutoff_pos, self.head) {
            Some(path) => {
                if path.len() < 2 {
                    proof {
                        assert(path_command(*self, path@, 0, AiDifficulty::Hard) == None::<BikeUpdate>);
                    }
                    return None;
                }
                proof {
                    assert(passable(grid@.board, avoid_pos@, path@[1]));
                    assert(adjacent(path@[0], path@[1]));
                }
                let r: u32 = if self.boost_time == 0 && path.len() < 15 {
                    roll(grid)
                } else {
                    u32::MAX
                };
                let command = self.ai_follow_path(&path, r, grid.ai_diff);
                proof {
                    assert(command == path_command(*self, path@, r, AiDifficulty::Hard));
                }
                command
            },
            None => None,
        }
    }
}

/// The cells two ahead of each living rival among the first `n` vehicles:
/// where the chase aims.
pub open spec fn rival_targets(bikes: Seq<Bike>, me: Bike, n: nat) -> Seq<Point>
    decreases n,
{
    if n == 0 {
        Seq::empty()
    } else {
        let b = bikes[n - 1];
        let t = rival_targets(bikes, me, (n - 1) as nat);
        if b.id != me.id && b.team != me.team && b.alive {
            t.push(((b.head.0 + 2 * b.dir.0) as i16, (b.head.1 + 2 * b.dir.1) as i16))
        } else {
            t
        }
    }
}

/// The cells next to the head of each other living vehicle among the first
/// `n`: the chase never passes through them.
pub open spec fn head_rings(bikes: Seq<Bike>, me: Bike, n: nat) -> Seq<Point>
    decreases n,
{
    if n == 0 {
        Seq::empty()
    } else {
        let b = bikes[n - 1];
        let t = head_rings(bikes, me, (n - 1) as nat);
        if b.id != me.id && b.alive {
            t + seq![offset(b.head, LEFT), offset(b.head, RIGHT), offset(b.head, UP), offset(b.head, DOWN)]
        } else {
            t
        }
    }
}

/// Whether the survival rule leaves the decision to the chase: the cell
/// ahead is free, or every neighbouring cell is blocked.
pub open spec fn not_forced(board: Board, b: Bike) -> bool {
    !board.blocked(b.next_head()) || forall|d: Point| is_dir(d) ==> board.blocked(offset(b.head, d))
}

/// The position of a heading in the fixed survival order.
pub open spec fn dir_index(d: Point) -> int {
    if d == UP {
        0
    } else if d == DOWN {
        1
    } else if d == LEFT {
        2
    } else {
        3
    }
}

} // verus!
