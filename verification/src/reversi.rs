pub mod position;
pub mod score;
pub mod side;

use vstd::pervasive::VecAdditionalExecFns;
use vstd::prelude::*;

use position::Position;
use score::Score;
use side::Side;

verus! {

/// Why a placement was rejected.
#[derive(Debug, Clone, Copy, PartialEq, Eq, Structural)]
pub enum ErrorKind {
    /// The target cell is outside the board or already holds a disk.
    InvalidPosition,
    /// The target cell is empty and in-board, but captures no opponent run
    /// in any of the eight directions.
    NoValidLine,
}

impl ErrorKind {
    /// A human-readable message for the presentation layer.
    pub fn message(&self) -> (r: &'static str)
        ensures
            *self is InvalidPosition ==> r@ == "Position isn't in board or another disk already placed."@,
            *self is NoValidLine ==> r@ == "This position hasn't valid line."@,
    {
        match self {
            ErrorKind::InvalidPosition => "Position isn't in board or another disk already placed.",
            ErrorKind::NoValidLine => "This position hasn't valid line.",
        }
    }
}

/// Row offset of direction `d` (directions are numbered 0 to 7:
/// NW, N, NE, E, SE, S, SW, W).
pub open spec fn dir_dr(d: int) -> int {
    if d <= 2 {
        -1
    } else if d == 3 || d == 7 {
        0
    } else {
        1
    }
}

/// Column offset of direction `d`.
pub open spec fn dir_dc(d: int) -> int {
    if d == 0 || d == 6 || d == 7 {
        -1
    } else if d == 1 || d == 5 {
        0
    } else {
        1
    }
}

/// The unit offsets of direction `d`, for 0 <= d < 8.
fn dir_delta(d: usize) -> (p: (isize, isize))
    requires
        d < 8,
    ensures
        p.0 == dir_dr(d as int),
        p.1 == dir_dc(d as int),
{
    if d == 0 {
        (-1, -1)
    } else if d == 1 {
        (-1, 0)
    } else if d == 2 {
        (-1, 1)
    } else if d == 3 {
        (0, 1)
    } else if d == 4 {
        (1, 1)
    } else if d == 5 {
        (1, 0)
    } else if d == 6 {
        (1, -1)
    } else {
        (0, -1)
    }
}

/// The coordinate reached from `x` after `i` steps of offset `dx`.
pub open spec fn ray(x: int, dx: int, i: int) -> int
    decreases i,
{
    if i <= 0 {
        x
    } else {
        ray(x, dx, i - 1) + dx
    }
}

/// Stepping along a unit (or zero) offset moves the coordinate linearly.
pub proof fn lemma_ray_linear(x: int, dx: int, i: int)
    requires
        0 <= i,
    ensures
        dx == 0 ==> ray(x, dx, i) == x,
        dx == 1 ==> ray(x, dx, i) == x + i,
        dx == -1 ==> ray(x, dx, i) == x - i,
    decreases i,
{
    if i > 0 {
        lemma_ray_linear(x, dx, i - 1);
    }
}

/// Whether `(r2, c2)` occurs among the first `k` entries of `flips`.
spec fn in_flip_prefix(flips: Seq<Position>, k: int, r2: int, c2: int) -> bool {
    exists|j: int| 0 <= j < k && (#[trigger] flips[j]).0 == r2 && flips[j].1 == c2
}

/// Extending the prefix by one entry adds exactly that entry's cell.
proof fn lemma_in_prefix_step(flips: Seq<Position>, k: int, r2: int, c2: int)
    requires
        0 <= k < flips.len(),
    ensures
        in_flip_prefix(flips, k + 1, r2, c2) <==> (in_flip_prefix(flips, k, r2, c2) || (flips[
            k
        ].0 == r2 && flips[k].1 == c2)),
{
    if in_flip_prefix(flips, k + 1, r2, c2) {
        let j = choose|j: int| 0 <= j < k + 1 && (#[trigger] flips[j]).0 == r2 && flips[j].1 == c2;
        if j < k {
            assert(in_flip_prefix(flips, k, r2, c2));
        }
    }
    if in_flip_prefix(flips, k, r2, c2) {
        let j = choose|j: int| 0 <= j < k && (#[trigger] flips[j]).0 == r2 && flips[j].1 == c2;
        assert(0 <= j < k + 1 && flips[j].0 == r2 && flips[j].1 == c2);
    }
    if flips[k].0 == r2 && flips[k].1 == c2 {
        assert(0 <= k < k + 1 && flips[k].0 == r2 && flips[k].1 == c2);
    }
}

/// Membership in a prefix survives appending an entry at the back.
proof fn lemma_in_prefix_push(flips: Seq<Position>, p: Position, k: int, r2: int, c2: int)
    requires
        0 <= k <= flips.len(),
        in_flip_prefix(flips, k, r2, c2),
    ensures
        in_flip_prefix(flips.push(p), flips.len() as int + 1, r2, c2),
{
    let j = choose|j: int| 0 <= j < k && (#[trigger] flips[j]).0 == r2 && flips[j].1 == c2;
    assert(flips.push(p)[j] == flips[j]);
}

/// Number of cells of `s` that hold a disk of side `side`.
pub open spec fn count_disks(s: Seq<Option<Side>>, side: Side) -> int
    decreases s.len(),
{
    if s.len() == 0 {
        0
    } else {
        count_disks(s.drop_last(), side) + (if s.last() == Some(side) {
            1int
        } else {
            0int
        })
    }
}

/// Updating one cell changes a side's count by the difference of the old
/// and new contributions of that cell.
pub proof fn lemma_count_update(s: Seq<Option<Side>>, side: Side, k: int, v: Option<Side>)
    requires
        0 <= k < s.len(),
    ensures
        count_disks(s.update(k, v), side) == count_disks(s, side) - (if s[k] == Some(side) {
            1int
        } else {
            0int
        }) + (if v == Some(side) {
            1int
        } else {
            0int
        }),
    decreases s.len(),
{
    let t = s.update(k, v);
    if k == s.len() - 1 {
        assert(t.drop_last() =~= s.drop_last());
        assert(t.last() == v);
    } else {
        assert(t.drop_last() =~= s.drop_last().update(k, v));
        assert(t.last() == s.last());
        lemma_count_update(s.drop_last(), side, k, v);
    }
}

/// The flat index of an in-board cell lies within the board area.
pub proof fn lemma_idx_bounds(w: int, h: int, r: int, c: int)
    by (nonlinear_arith)
    requires
        0 < w,
        0 < h,
        1 <= r <= h,
        1 <= c <= w,
    ensures
        0 <= (r - 1) * w + (c - 1),
        (r - 1) * w + (c - 1) < w * h,
{
}

/// Distinct in-board cells have distinct flat indices.
pub proof fn lemma_idx_injective(w: int, h: int, r1: int, c1: int, r2: int, c2: int)
    by (nonlinear_arith)
    requires
        0 < w,
        0 < h,
        1 <= r1 <= h,
        1 <= c1 <= w,
        1 <= r2 <= h,
        1 <= c2 <= w,
        (r1 - 1) * w + (c1 - 1) == (r2 - 1) * w + (c2 - 1),
    ensures
        r1 == r2,
        c1 == c2,
{
}

/// Each board dimension is at most the board area.
pub proof fn lemma_dim_le_area(w: int, h: int)
    by (nonlinear_arith)
    requires
        0 < w,
        0 < h,
    ensures
        h <= w * h,
        w <= w * h,
{
}

/// The engine: board dimensions, the side whose turn it is, and the
/// occupancy of every cell, stored row-major.
#[derive(Debug)]
pub struct Reversi {
    pub width: isize,
    pub height: isize,
    pub active_side: Side,
    pub cells: Vec<Option<Side>>,
}

impl Reversi {
    /// Well-formedness: positive, bounded dimensions and one stored cell
    /// per board square.
    pub closed spec fn wf(self) -> bool {
        &&& 0 < self.width
        &&& 0 < self.height
        &&& self.width * self.height < isize::MAX
        &&& self.cells@.len() == self.width * self.height
    }

    /// Whether `(r, c)` lies on the board.
    pub open spec fn in_board_spec(self, r: int, c: int) -> bool {
        1 <= r <= self.height && 1 <= c <= self.width
    }

    /// The disk at `(r, c)`: `None` for an empty cell and for any
    /// coordinate outside the board.
    pub closed spec fn disk_at_spec(self, r: int, c: int) -> Option<Side> {
        if self.in_board_spec(r, c) && 0 <= (r - 1) * self.width + (c - 1)
            < self.cells@.len() {
            self.cells@[(r - 1) * self.width + (c - 1)]
        } else {
            None
        }
    }

    /// Number of disks of `side` on the board.
    pub closed spec fn count_side(self, side: Side) -> int {
        count_disks(self.cells@, side)
    }

    /// Total number of disks on the board.
    pub open spec fn total_disks(self) -> int {
        self.count_side(Side::White) + self.count_side(Side::Dark)
    }

    /// Steps 1 to `n` from `(r, c)` along direction `d` all hold disks of
    /// the side opposing the active side.
    pub open spec fn opp_run(self, r: int, c: int, d: int, n: int) -> bool {
        forall|i: int|
            1 <= i <= n ==> self.disk_at_spec(
                #[trigger] ray(r, dir_dr(d), i),
                ray(c, dir_dc(d), i),
            ) == Some(self.active_side.spec_rev())
    }

    /// Direction `d` from `(r, c)` traps a run of exactly `n` opponent
    /// disks, bracketed by a disk of the active side.
    pub open spec fn dir_valid_n(self, r: int, c: int, d: int, n: int) -> bool {
        &&& 1 <= n
        &&& self.opp_run(r, c, d, n)
        &&& self.disk_at_spec(ray(r, dir_dr(d), n + 1), ray(c, dir_dc(d), n + 1)) == Some(
            self.active_side,
        )
    }

    /// Direction `d` from `(r, c)` captures some opponent run.
    pub open spec fn dir_valid(self, r: int, c: int, d: int) -> bool {
        exists|n: int| self.dir_valid_n(r, c, d, n)
    }

    /// A legal move for the active side: an empty in-board cell that
    /// captures an opponent run in at least one of the eight directions.
    pub open spec fn valid_move(self, r: int, c: int) -> bool {
        &&& self.in_board_spec(r, c)
        &&& self.disk_at_spec(r, c) is None
        &&& exists|d: int| 0 <= d < 8 && #[trigger] self.dir_valid(r, c, d)
    }

    /// Cell `(r2, c2)` is flipped when the active side places at `(r, c)`.
    pub open spec fn captured(self, r: int, c: int, r2: int, c2: int) -> bool {
        exists|d: int, n: int, i: int|
            #![trigger self.dir_valid_n(r, c, d, n), ray(r, dir_dr(d), i)]
            {
                &&& 0 <= d < 8
                &&& self.dir_valid_n(r, c, d, n)
                &&& 1 <= i <= n
                &&& r2 == ray(r, dir_dr(d), i)
                &&& c2 == ray(c, dir_dc(d), i)
            }
    }

    /// A captured run has a single possible length in a given direction.
    pub proof fn lemma_run_len_unique(self, r: int, c: int, d: int, n1: int, n2: int)
        requires
            self.dir_valid_n(r, c, d, n1),
            self.dir_valid_n(r, c, d, n2),
        ensures
            n1 == n2,
    {
        if n1 < n2 {
            assert(self.disk_at_spec(ray(r, dir_dr(d), n1 + 1), ray(c, dir_dc(d), n1 + 1))
                == Some(self.active_side.spec_rev()));
        }
        if n2 < n1 {
            assert(self.disk_at_spec(ray(r, dir_dr(d), n2 + 1), ray(c, dir_dc(d), n2 + 1))
                == Some(self.active_side.spec_rev()));
        }
    }

    /// Whether `pos` lies on the board.
    pub fn in_board(&self, pos: Position) -> (r: bool)
        ensures
            r == self.in_board_spec(pos.0 as int, pos.1 as int),
    {
        pos.0 > 0 && pos.0 <= self.height && pos.1 > 0 && pos.1 <= self.width
    }

    /// The flat index of the in-board cell `(r, c)`.
    fn cell_index(&self, r: isize, c: isize) -> (i: usize)
        requires
            self.wf(),
            self.in_board_spec(r as int, c as int),
        ensures
            i == (r - 1) * self.width + (c - 1),
            i < self.cells@.len(),
    {
        proof {
            lemma_idx_bounds(self.width as int, self.height as int, r as int, c as int);
        }
        ((r - 1) as usize) * (self.width as usize) + ((c - 1) as usize)
    }

    /// The disk at `pos`, or `None` for an empty or out-of-board cell.
    pub fn disk_at(&self, pos: Position) -> (r: Option<Side>)
        requires
            self.wf(),
        ensures
            r == self.disk_at_spec(pos.0 as int, pos.1 as int),
    {
        if self.in_board(pos) {
            let i: usize = self.cell_index(pos.0, pos.1);
            self.cells[i]
        } else {
            None
        }
    }

    /// Whether the cell `(r, c)` holds a disk of side `s`.
    fn disk_is(&self, r: isize, c: isize, s: Side) -> (b: bool)
        requires
            self.wf(),
        ensures
            b == (self.disk_at_spec(r as int, c as int) == Some(s)),
    {
        if r > 0 && r <= self.height && c > 0 && c <= self.width {
            let i: usize = self.cell_index(r, c);
            match self.cells[i] {
                Some(x) => x == s,
                None => false,
            }
        } else {
            false
        }
    }

    /// Put a disk of side `s` on the in-board cell `(r, c)`, leaving every
    /// other cell as it was.
    fn set_cell(&mut self, r: isize, c: isize, s: Side)
        requires
            old(self).wf(),
            old(self).in_board_spec(r as int, c as int),
        ensures
            final(self).wf(),
            final(self).width == old(self).width,
            final(self).height == old(self).height,
            final(self).active_side == old(self).active_side,
            forall|r2: int, c2: int|
                #[trigger] final(self).disk_at_spec(r2, c2) == (if r2 == r as int && c2
                    == c as int {
                    Some(s)
                } else {
                    old(self).disk_at_spec(r2, c2)
                }),
            forall|sd: Side|
                #[trigger] final(self).count_side(sd) == old(self).count_side(sd) - (if old(
                    self,
                ).disk_at_spec(r as int, c as int) == Some(sd) {
                    1int
                } else {
                    0int
                }) + (if sd == s {
                    1int
                } else {
                    0int
                }),
    {
        let i: usize = self.cell_index(r, c);
        let ghost pre = *self;
        self.cells.set(i, Some(s));
        proof {
            let w = self.width as int;
            let h = self.height as int;
            let ri = r as int;
            let ci = c as int;
            assert forall|r2: int, c2: int|
                #[trigger] self.disk_at_spec(r2, c2) == (if r2 == ri && c2 == ci {
                    Some(s)
                } else {
                    pre.disk_at_spec(r2, c2)
                }) by {
                if self.in_board_spec(r2, c2) {
                    lemma_idx_bounds(w, h, r2, c2);
                    if !(r2 == ri && c2 == ci) {
                        if (r2 - 1) * w + (c2 - 1) == (ri - 1) * w + (ci - 1) {
                            lemma_idx_injective(w, h, r2, c2, ri, ci);
                        }
                    }
                }
            }
            assert forall|sd: Side|
                #[trigger] self.count_side(sd) == pre.count_side(sd) - (if pre.disk_at_spec(
                    ri,
                    ci,
                ) == Some(sd) {
                    1int
                } else {
                    0int
                }) + (if sd == s {
                    1int
                } else {
                    0int
                }) by {
                lemma_idx_bounds(w, h, ri, ci);
                lemma_count_update(pre.cells@, sd, i as int, Some(s));
            }
        }
    }

    /// Walk outward from `(r, c)` along direction `d` and report the length
    /// of the opponent run captured there, if the direction captures one.
    fn probe_dir(&self, r: isize, c: isize, d: usize) -> (res: Option<usize>)
        requires
            self.wf(),
            d < 8,
            self.in_board_spec(r as int, c as int),
        ensures
            match res {
                Some(n) => self.dir_valid_n(r as int, c as int, d as int, n as int),
                None => forall|m: int| !self.dir_valid_n(r as int, c as int, d as int, m),
            },
    {
        let ghost ri = r as int;
        let ghost ci = c as int;
        let ghost di = d as int;
        let ghost ddr = dir_dr(d as int);
        let ghost ddc = dir_dc(d as int);
        proof {
            lemma_dim_le_area(self.width as int, self.height as int);
        }
        let delta: (isize, isize) = dir_delta(d);
        let dr: isize = delta.0;
        let dc: isize = delta.1;
        let other: Side = self.active_side.rev();
        let mut cr: isize = r + dr;
        let mut cc: isize = c + dc;
        let mut n: usize = 0;
        proof {
            assert(ray(ri, ddr, 0) == ri);
            assert(ray(ri, ddr, 1) == ray(ri, ddr, 0) + ddr);
            assert(ray(ci, ddc, 0) == ci);
            assert(ray(ci, ddc, 1) == ray(ci, ddc, 0) + ddc);
        }
        while self.disk_is(cr, cc, other)
            invariant
                self.wf(),
                self.width < isize::MAX,
                self.height < isize::MAX,
                d < 8,
                dr == ddr,
                dc == ddc,
                ddr == dir_dr(di),
                ddc == dir_dc(di),
                ri == r as int,
                ci == c as int,
                di == d as int,
                other == self.active_side.spec_rev(),
                self.in_board_spec(ri, ci),
                cr as int == ray(ri, ddr, n as int + 1),
                cc as int == ray(ci, ddc, n as int + 1),
                0 <= cr <= self.height + 1,
                0 <= cc <= self.width + 1,
                n as int <= self.height + self.width,
                self.opp_run(ri, ci, di, n as int),
            decreases self.height + self.width - n,
        {
            proof {
                assert(self.in_board_spec(cr as int, cc as int));
                assert forall|i: int|
                    1 <= i <= n as int + 1 implies self.disk_at_spec(
                    #[trigger] ray(ri, ddr, i),
                    ray(ci, ddc, i),
                ) == Some(other) by {
                    if i == n as int + 1 {
                        assert(ray(ri, ddr, i) == cr as int);
                        assert(ray(ci, ddc, i) == cc as int);
                    }
                }
                lemma_ray_linear(ri, ddr, n as int + 2);
                lemma_ray_linear(ci, ddc, n as int + 2);
                assert(ddr != 0 || ddc != 0);
            }
            n = n + 1;
            cr = cr + dr;
            cc = cc + dc;
        }
        let active: Side = self.active_side;
        if n >= 1 && self.disk_is(cr, cc, active) {
            proof {
                assert(self.disk_at_spec(ray(ri, ddr, n as int + 1), ray(ci, ddc, n as int + 1))
                    == Some(active));
            }
            Some(n)
        } else {
            proof {
                assert forall|m: int| !self.dir_valid_n(ri, ci, di, m) by {
                    if self.dir_valid_n(ri, ci, di, m) {
                        assert(other != self.active_side);
                        if m < n as int {
                            assert(self.disk_at_spec(
                                #[trigger] ray(ri, ddr, m + 1),
                                ray(ci, ddc, m + 1),
                            ) == Some(other));
                        } else if m == n as int {
                            assert(self.disk_at_spec(ray(ri, ddr, m + 1), ray(ci, ddc, m + 1))
                                == Some(self.active_side));
                        } else {
                            assert(self.disk_at_spec(
                                #[trigger] ray(ri, ddr, n as int + 1),
                                ray(ci, ddc, n as int + 1),
                            ) == Some(other));
                        }
                    }
                }
            }
            None
        }
    }

    /// Whether placing a disk of the active side at `pos` is a legal move.
    pub fn is_valid_place(&self, pos: Position) -> (r: bool)
        requires
            self.wf(),
        ensures
            r == self.valid_move(pos.0 as int, pos.1 as int),
    {
        if !self.in_board(pos) {
            return false;
        }
        match self.disk_at(pos) {
            Some(_) => {
                return false;
            },
            None => {},
        }
        let mut d: usize = 0;
        let mut found = false;
        while d < 8
            invariant
                self.wf(),
                d <= 8,
                self.in_board_spec(pos.0 as int, pos.1 as int),
                self.disk_at_spec(pos.0 as int, pos.1 as int) is None,
                found ==> exists|dd: int|
                    0 <= dd < 8 && #[trigger] self.dir_valid(pos.0 as int, pos.1 as int, dd),
                !found ==> forall|dd: int|
                    0 <= dd < d as int ==> !#[trigger] self.dir_valid(
                        pos.0 as int,
                        pos.1 as int,
                        dd,
                    ),
            decreases 8 - d,
        {
            if !found {
                match self.probe_dir(pos.0, pos.1, d) {
                    Some(_n) => {
                        proof {
                            assert(self.dir_valid(pos.0 as int, pos.1 as int, d as int));
                        }
                        found = true;
                    },
                    None => {},
                }
            }
            d = d + 1;
        }
        found
    }

    /// Every legal move for the active side, in row-major order: exactly
    /// the positions on which `valid_move` holds, each listed once, sorted
    /// by row and then by column.
    pub fn possible_places(&self) -> (res: Vec<Position>)
        requires
            self.wf(),
        ensures
            forall|j: int|
                0 <= j < res@.len() ==> self.valid_move(
                    #[trigger] res@[j].0 as int,
                    res@[j].1 as int,
                ),
            forall|r: int, c: int|
                #[trigger] self.valid_move(r, c) ==> exists|j: int|
                    0 <= j < res@.len() && (#[trigger] res@[j]).0 == r && res@[j].1 == c,
            forall|j: int, k: int|
                0 <= j < k < res@.len() ==> (res@[j].0 < res@[k].0 || (res@[j].0 == res@[k].0
                    && res@[j].1 < res@[k].1)),
    {
        proof {
            lemma_dim_le_area(self.width as int, self.height as int);
        }
        let mut res: Vec<Position> = Vec::new();
        let mut row: isize = 1;
        while row <= self.height
            invariant
                self.wf(),
                self.width < isize::MAX,
                self.height < isize::MAX,
                1 <= row <= self.height + 1,
                forall|j: int|
                    0 <= j < res@.len() ==> self.valid_move(
                        #[trigger] res@[j].0 as int,
                        res@[j].1 as int,
                    ),
                forall|j: int| 0 <= j < res@.len() ==> (#[trigger] res@[j]).0 < row,
                forall|r: int, c: int|
                    #[trigger] self.valid_move(r, c) && r < row ==> exists|j: int|
                        0 <= j < res@.len() && (#[trigger] res@[j]).0 == r && res@[j].1 == c,
                forall|j: int, k: int|
                    0 <= j < k < res@.len() ==> (res@[j].0 < res@[k].0 || (res@[j].0 == res@[k].0
                        && res@[j].1 < res@[k].1)),
            decreases self.height + 1 - row,
        {
            let mut col: isize = 1;
            while col <= self.width
                invariant
                    self.wf(),
                    self.width < isize::MAX,
                    self.height < isize::MAX,
                    1 <= row <= self.height,
                    1 <= col <= self.width + 1,
                    forall|j: int|
                        0 <= j < res@.len() ==> self.valid_move(
                            #[trigger] res@[j].0 as int,
                            res@[j].1 as int,
                        ),
                    forall|j: int|
                        0 <= j < res@.len() ==> ((#[trigger] res@[j]).0 < row || (res@[j].0 == row
                            && res@[j].1 < col)),
                    forall|r: int, c: int|
                        #[trigger] self.valid_move(r, c) && (r < row || (r == row && c < col))
                            ==> exists|j: int|
                            0 <= j < res@.len() && (#[trigger] res@[j]).0 == r && res@[j].1 == c,
                    forall|j: int, k: int|
                        0 <= j < k < res@.len() ==> (res@[j].0 < res@[k].0 || (res@[j].0
                            == res@[k].0 && res@[j].1 < res@[k].1)),
                decreases self.width + 1 - col,
            {
                let pos = Position(row, col);
                if self.is_valid_place(pos) {
                    let ghost oldres = res@;
                    res.push(pos);
                    proof {
                        assert forall|r: int, c: int|
                            #[trigger] self.valid_move(r, c) && (r < row as int || (r == row as int
                                && c < col as int + 1)) implies exists|j: int|
                            0 <= j < res@.len() && (#[trigger] res@[j]).0 == r && res@[j].1
                                == c by {
                            if r == row as int && c == col as int {
                                assert(res@[res@.len() - 1] == pos);
                            } else {
                                let j = choose|j: int|
                                    0 <= j < oldres.len() && (#[trigger] oldres[j]).0 == r
                                        && oldres[j].1 == c;
                                assert(res@[j] == oldres[j]);
                            }
                        }
                    }
                }
                col = col + 1;
            }
            row = row + 1;
        }
        proof {
            assert forall|r: int, c: int| #[trigger] self.valid_move(r, c) implies r < row as int by {
            }
        }
        res
    }

    /// The current score: White's disk count, then Dark's.
    pub fn get_scores(&self) -> (s: Score)
        requires
            self.wf(),
        ensures
            s.0 == self.count_side(Side::White),
            s.1 == self.count_side(Side::Dark),
    {
        let ghost all = self.cells@;
        let mut white: isize = 0;
        let mut dark: isize = 0;
        let mut i: usize = 0;
        while i < self.cells.len()
            invariant
                self.wf(),
                all == self.cells@,
                i <= all.len(),
                0 <= white,
                0 <= dark,
                white + dark <= i,
                white == count_disks(all.take(i as int), Side::White),
                dark == count_disks(all.take(i as int), Side::Dark),
            decreases all.len() - i,
        {
            proof {
                assert(all.take(i as int + 1).drop_last() =~= all.take(i as int));
                assert(all.take(i as int + 1).last() == all[i as int]);
            }
            match self.cells[i] {
                Some(Side::White) => {
                    white = white + 1;
                },
                Some(Side::Dark) => {
                    dark = dark + 1;
                },
                None => {},
            }
            i = i + 1;
        }
        proof {
            assert(all.take(all.len() as int) =~= all);
        }
        Score(white, dark)
    }

    /// The disk that a fresh `width` by `height` board holds at `(r, c)`:
    /// a 2x2 block around the centre, White on one diagonal and Dark on
    /// the other, and nothing anywhere else.
    pub open spec fn init_disk(width: int, height: int, r: int, c: int) -> Option<Side> {
        let cr = height / 2;
        let cc = width / 2;
        if (r == cr && c == cc) || (r == cr + 1 && c == cc + 1) {
            Some(Side::White)
        } else if (r == cr && c == cc + 1) || (r == cr + 1 && c == cc) {
            Some(Side::Dark)
        } else {
            None
        }
    }

    /// A fresh game: Dark to move, and the four initial disks around the
    /// centre of the board (any of the four that would fall outside a
    /// degenerate board is dropped).
    pub fn new(width: isize, height: isize) -> (r: Reversi)
        requires
            0 < width,
            0 < height,
            width * height < isize::MAX,
        ensures
            r.wf(),
            r.width == width,
            r.height == height,
            r.active_side == Side::Dark,
            forall|r2: int, c2: int|
                r.in_board_spec(r2, c2) ==> #[trigger] r.disk_at_spec(r2, c2) == Self::init_disk(
                    width as int,
                    height as int,
                    r2,
                    c2,
                ),
    {
        proof {
            lemma_dim_le_area(width as int, height as int);
        }
        let total: usize = (width as usize) * (height as usize);
        let mut cells: Vec<Option<Side>> = Vec::new();
        while cells.len() < total
            invariant
                cells@.len() <= total,
                forall|k: int| 0 <= k < cells@.len() ==> cells@[k] is None,
            decreases total - cells@.len(),
        {
            cells.push(None);
        }
        let mut game = Reversi { width, height, active_side: Side::Dark, cells };
        proof {
            assert forall|r2: int, c2: int|
                game.in_board_spec(r2, c2) implies #[trigger] game.disk_at_spec(r2, c2) is None by {
                lemma_idx_bounds(width as int, height as int, r2, c2);
            }
        }
        let cr: isize = height / 2;
        let cc: isize = width / 2;
        if game.in_board(Position(cr, cc)) {
            game.set_cell(cr, cc, Side::White);
        }
        if game.in_board(Position(cr + 1, cc + 1)) {
            game.set_cell(cr + 1, cc + 1, Side::White);
        }
        if game.in_board(Position(cr, cc + 1)) {
            game.set_cell(cr, cc + 1, Side::Dark);
        }
        if game.in_board(Position(cr + 1, cc)) {
            game.set_cell(cr + 1, cc, Side::Dark);
        }
        game
    }

    /// Place a disk of the active side at `pos`. On success the placed cell
    /// and every captured opponent cell turn to the active side, the turn
    /// passes to the other side, and the disk total grows by one. On any
    /// failure the state is left exactly as it was.
    pub fn place(&mut self, pos: Position) -> (res: Result<(), ErrorKind>)
        requires
            old(self).wf(),
        ensures
            final(self).wf(),
            final(self).width == old(self).width,
            final(self).height == old(self).height,
            res is Err ==> final(self).active_side == old(self).active_side && (forall|
                r2: int,
                c2: int,
            |
                #[trigger] final(self).disk_at_spec(r2, c2) == old(self).disk_at_spec(r2, c2)),
            res == Err::<(), ErrorKind>(ErrorKind::InvalidPosition) <==> (!old(self).in_board_spec(
                pos.0 as int,
                pos.1 as int,
            ) || old(self).disk_at_spec(pos.0 as int, pos.1 as int) is Some),
            res == Err::<(), ErrorKind>(ErrorKind::NoValidLine) <==> (old(self).in_board_spec(
                pos.0 as int,
                pos.1 as int,
            ) && old(self).disk_at_spec(pos.0 as int, pos.1 as int) is None && (forall|d: int|
                0 <= d < 8 ==> !#[trigger] old(self).dir_valid(pos.0 as int, pos.1 as int, d))),
            res is Ok <==> old(self).valid_move(pos.0 as int, pos.1 as int),
            res is Ok ==> final(self).active_side == old(self).active_side.spec_rev(),
            res is Ok ==> (forall|r2: int, c2: int|
                #[trigger] final(self).disk_at_spec(r2, c2) == (if (r2 == pos.0 as int && c2
                    == pos.1 as int) || old(self).captured(pos.0 as int, pos.1 as int, r2, c2) {
                    Some(old(self).active_side)
                } else {
                    old(self).disk_at_spec(r2, c2)
                })),
            res is Ok ==> final(self).total_disks() == old(self).total_disks() + 1,
    {
        if !self.in_board(pos) {
            return Err(ErrorKind::InvalidPosition);
        }
        match self.disk_at(pos) {
            Some(_) => {
                return Err(ErrorKind::InvalidPosition);
            },
            None => {},
        }
        let ghost pri = pos.0 as int;
        let ghost pci = pos.1 as int;
        proof {
            lemma_dim_le_area(self.width as int, self.height as int);
        }
        let active: Side = self.active_side;
        let mut flips: Vec<Position> = Vec::new();
        flips.push(pos);
        let mut d: usize = 0;
        while d < 8
            invariant
                self.wf(),
                self.width < isize::MAX,
                self.height < isize::MAX,
                d <= 8,
                active == self.active_side,
                pri == pos.0 as int,
                pci == pos.1 as int,
                self.in_board_spec(pri, pci),
                self.disk_at_spec(pri, pci) is None,
                flips@.len() >= 1,
                flips@[0] == pos,
                forall|j: int|
                    1 <= j < flips@.len() ==> self.disk_at_spec(
                        (#[trigger] flips@[j]).0 as int,
                        flips@[j].1 as int,
                    ) == Some(active.spec_rev()),
                forall|j: int|
                    1 <= j < flips@.len() ==> self.captured(
                        pri,
                        pci,
                        (#[trigger] flips@[j]).0 as int,
                        flips@[j].1 as int,
                    ),
                forall|d2: int, n2: int, i2: int|
                    #![trigger self.dir_valid_n(pri, pci, d2, n2), ray(pri, dir_dr(d2), i2)]
                    (0 <= d2 < d as int && self.dir_valid_n(pri, pci, d2, n2) && 1 <= i2 <= n2)
                        ==> in_flip_prefix(
                        flips@,
                        flips@.len() as int,
                        ray(pri, dir_dr(d2), i2),
                        ray(pci, dir_dc(d2), i2),
                    ),
                flips@.len() > 1 ==> (exists|dd: int|
                    0 <= dd < 8 && #[trigger] self.dir_valid(pri, pci, dd)),
                flips@.len() == 1 ==> (forall|dd: int|
                    0 <= dd < d as int ==> !#[trigger] self.dir_valid(pri, pci, dd)),
            decreases 8 - d,
        {
            match self.probe_dir(pos.0, pos.1, d) {
                Some(n) => {
                    let ghost di = d as int;
                    let ghost ddr = dir_dr(di);
                    let ghost ddc = dir_dc(di);
                    proof {
                        lemma_dim_le_area(self.width as int, self.height as int);
                        assert(ray(pri, ddr, 0) == pri);
                        assert(ray(pci, ddc, 0) == pci);
                    }
                    let delta: (isize, isize) = dir_delta(d);
                    let dr: isize = delta.0;
                    let dc: isize = delta.1;
                    let mut cr: isize = pos.0;
                    let mut cc: isize = pos.1;
                    let mut i: usize = 0;
                    while i < n
                        invariant
                            self.wf(),
                            self.width < isize::MAX,
                            self.height < isize::MAX,
                            d < 8,
                            di == d as int,
                            ddr == dir_dr(di),
                            ddc == dir_dc(di),
                            dr == ddr,
                            dc == ddc,
                            active == self.active_side,
                            pri == pos.0 as int,
                            pci == pos.1 as int,
                            self.in_board_spec(pri, pci),
                            self.disk_at_spec(pri, pci) is None,
                            self.dir_valid_n(pri, pci, di, n as int),
                            i <= n,
                            cr as int == ray(pri, ddr, i as int),
                            cc as int == ray(pci, ddc, i as int),
                            i >= 1 ==> self.in_board_spec(cr as int, cc as int),
                            i == 0 ==> (cr == pos.0 && cc == pos.1),
                            flips@.len() >= 1,
                            flips@[0] == pos,
                            forall|j: int|
                                1 <= j < flips@.len() ==> self.disk_at_spec(
                                    (#[trigger] flips@[j]).0 as int,
                                    flips@[j].1 as int,
                                ) == Some(active.spec_rev()),
                            forall|j: int|
                                1 <= j < flips@.len() ==> self.captured(
                                    pri,
                                    pci,
                                    (#[trigger] flips@[j]).0 as int,
                                    flips@[j].1 as int,
                                ),
                            forall|d2: int, n2: int, i2: int|
                                #![trigger self.dir_valid_n(pri, pci, d2, n2), ray(pri, dir_dr(d2), i2)]
                                (0 <= d2 < d as int && self.dir_valid_n(pri, pci, d2, n2) && 1 <= i2
                                    <= n2) ==> in_flip_prefix(
                                    flips@,
                                    flips@.len() as int,
                                    ray(pri, dir_dr(d2), i2),
                                    ray(pci, dir_dc(d2), i2),
                                ),
                            forall|i2: int|
                                1 <= i2 <= i as int ==> in_flip_prefix(
                                    flips@,
                                    flips@.len() as int,
                                    #[trigger] ray(pri, ddr, i2),
                                    ray(pci, ddc, i2),
                                ),
                            flips@.len() > 1 ==> (exists|dd: int|
                                0 <= dd < 8 && #[trigger] self.dir_valid(pri, pci, dd)),
                            flips@.len() == 1 ==> (forall|dd: int|
                                0 <= dd < d as int ==> !#[trigger] self.dir_valid(pri, pci, dd)),
                        decreases n - i,
                    {
                        proof {
                            assert(self.disk_at_spec(
                                #[trigger] ray(pri, ddr, i as int + 1),
                                ray(pci, ddc, i as int + 1),
                            ) == Some(active.spec_rev()));
                        }
                        cr = cr + dr;
                        cc = cc + dc;
                        i = i + 1;
                        let ghost oldflips = flips@;
                        flips.push(Position(cr, cc));
                        proof {
                            assert(flips@[flips@.len() - 1] == Position(cr, cc));
                            assert(self.dir_valid(pri, pci, di));
                            assert forall|i2: int|
                                1 <= i2 <= i as int implies in_flip_prefix(
                                flips@,
                                flips@.len() as int,
                                #[trigger] ray(pri, ddr, i2),
                                ray(pci, ddc, i2),
                            ) by {
                                if i2 == i as int {
                                    assert((flips@[flips@.len() - 1]).0 == ray(pri, ddr, i2)
                                        && flips@[flips@.len() - 1].1 == ray(pci, ddc, i2));
                                } else {
                                    lemma_in_prefix_push(
                                        oldflips,
                                        Position(cr, cc),
                                        oldflips.len() as int,
                                        ray(pri, ddr, i2),
                                        ray(pci, ddc, i2),
                                    );
                                }
                            }
                            assert forall|d2: int, n2: int, i2: int|
                                #![trigger self.dir_valid_n(pri, pci, d2, n2), ray(pri, dir_dr(d2), i2)]
                                (0 <= d2 < d as int && self.dir_valid_n(pri, pci, d2, n2) && 1 <= i2
                                    <= n2) implies in_flip_prefix(
                                flips@,
                                flips@.len() as int,
                                ray(pri, dir_dr(d2), i2),
                                ray(pci, dir_dc(d2), i2),
                            ) by {
                                lemma_in_prefix_push(
                                    oldflips,
                                    Position(cr, cc),
                                    oldflips.len() as int,
                                    ray(pri, dir_dr(d2), i2),
                                    ray(pci, dir_dc(d2), i2),
                                );
                            }
                        }
                    }
                    proof {
                        assert forall|d2: int, n2: int, i2: int|
                            #![trigger self.dir_valid_n(pri, pci, d2, n2), ray(pri, dir_dr(d2), i2)]
                            (0 <= d2 < d as int + 1 && self.dir_valid_n(pri, pci, d2, n2) && 1 <= i2
                                <= n2) implies in_flip_prefix(
                            flips@,
                            flips@.len() as int,
                            ray(pri, dir_dr(d2), i2),
                            ray(pci, dir_dc(d2), i2),
                        ) by {
                            if d2 == d as int {
                                self.lemma_run_len_unique(pri, pci, d2, n2, n as int);
                            }
                        }
                    }
                },
                None => {
                    proof {
                        assert forall|d2: int, n2: int, i2: int|
                            #![trigger self.dir_valid_n(pri, pci, d2, n2), ray(pri, dir_dr(d2), i2)]
                            (0 <= d2 < d as int + 1 && self.dir_valid_n(pri, pci, d2, n2) && 1 <= i2
                                <= n2) implies in_flip_prefix(
                            flips@,
                            flips@.len() as int,
                            ray(pri, dir_dr(d2), i2),
                            ray(pci, dir_dc(d2), i2),
                        ) by {
                        }
                    }
                },
            }
            d = d + 1;
        }
        if flips.len() == 1 {
            return Err(ErrorKind::NoValidLine);
        }
        proof {
            assert(self.valid_move(pri, pci));
        }
        let ghost pre = *self;
        let ghost fl = flips@;
        let mut j: usize = 0;
        while j < flips.len()
            invariant
                self.wf(),
                pre.wf(),
                self.width == pre.width,
                self.height == pre.height,
                self.active_side == pre.active_side,
                fl == flips@,
                j <= fl.len(),
                fl.len() >= 2,
                fl[0] == pos,
                pri == pos.0 as int,
                pci == pos.1 as int,
                pre.in_board_spec(pri, pci),
                pre.disk_at_spec(pri, pci) is None,
                active == pre.active_side,
                forall|j2: int|
                    1 <= j2 < fl.len() ==> pre.disk_at_spec(
                        (#[trigger] fl[j2]).0 as int,
                        fl[j2].1 as int,
                    ) == Some(active.spec_rev()),
                forall|j2: int|
                    1 <= j2 < fl.len() ==> pre.captured(
                        pri,
                        pci,
                        (#[trigger] fl[j2]).0 as int,
                        fl[j2].1 as int,
                    ),
                forall|d2: int, n2: int, i2: int|
                    #![trigger pre.dir_valid_n(pri, pci, d2, n2), ray(pri, dir_dr(d2), i2)]
                    (0 <= d2 < 8 && pre.dir_valid_n(pri, pci, d2, n2) && 1 <= i2 <= n2)
                        ==> in_flip_prefix(
                        fl,
                        fl.len() as int,
                        ray(pri, dir_dr(d2), i2),
                        ray(pci, dir_dc(d2), i2),
                    ),
                forall|r2: int, c2: int|
                    #[trigger] self.disk_at_spec(r2, c2) == (if in_flip_prefix(
                        fl,
                        j as int,
                        r2,
                        c2,
                    ) {
                        Some(active)
                    } else {
                        pre.disk_at_spec(r2, c2)
                    }),
                self.total_disks() == pre.total_disks() + (if j >= 1 {
                    1int
                } else {
                    0int
                }),
            decreases fl.len() - j,
        {
            let p = flips[j];
            proof {
                if j >= 1 {
                    assert(pre.disk_at_spec(p.0 as int, p.1 as int) == Some(active.spec_rev()));
                }
                assert(pre.in_board_spec(p.0 as int, p.1 as int));
            }
            let ghost mid = *self;
            self.set_cell(p.0, p.1, active);
            j = j + 1;
            proof {
                assert forall|r2: int, c2: int|
                    #[trigger] self.disk_at_spec(r2, c2) == (if in_flip_prefix(
                        fl,
                        j as int,
                        r2,
                        c2,
                    ) {
                        Some(active)
                    } else {
                        pre.disk_at_spec(r2, c2)
                    }) by {
                    lemma_in_prefix_step(fl, j as int - 1, r2, c2);
                }
                let midp = mid.disk_at_spec(p.0 as int, p.1 as int);
                if j == 1 {
                    assert(!in_flip_prefix(fl, 0, p.0 as int, p.1 as int));
                    assert(midp == pre.disk_at_spec(pri, pci));
                    assert(midp is None);
                } else {
                    if in_flip_prefix(fl, j as int - 1, p.0 as int, p.1 as int) {
                        assert(midp == Some(active));
                    } else {
                        assert(midp == Some(active.spec_rev()));
                    }
                }
            }
        }
        let ghost done = *self;
        proof {
            assert forall|r2: int, c2: int|
                #[trigger] done.disk_at_spec(r2, c2) == (if (r2 == pri && c2 == pci)
                    || pre.captured(pri, pci, r2, c2) {
                    Some(pre.active_side)
                } else {
                    pre.disk_at_spec(r2, c2)
                }) by {
                assert(done.disk_at_spec(r2, c2) == (if in_flip_prefix(
                    fl,
                    fl.len() as int,
                    r2,
                    c2,
                ) {
                    Some(active)
                } else {
                    pre.disk_at_spec(r2, c2)
                }));
                if in_flip_prefix(fl, fl.len() as int, r2, c2) {
                    let j2 = choose|j2: int|
                        0 <= j2 < fl.len() && (#[trigger] fl[j2]).0 == r2 && fl[j2].1 == c2;
                    if j2 >= 1 {
                        assert(pre.captured(pri, pci, (fl[j2]).0 as int, fl[j2].1 as int));
                    }
                } else {
                    if pre.captured(pri, pci, r2, c2) {
                        let (d2, n2, i2) = choose|d2: int, n2: int, i2: int|
                            #![trigger pre.dir_valid_n(pri, pci, d2, n2), ray(pri, dir_dr(d2), i2)]
                            {
                                &&& 0 <= d2 < 8
                                &&& pre.dir_valid_n(pri, pci, d2, n2)
                                &&& 1 <= i2 <= n2
                                &&& r2 == ray(pri, dir_dr(d2), i2)
                                &&& c2 == ray(pci, dir_dc(d2), i2)
                            };
                        assert(in_flip_prefix(fl, fl.len() as int, r2, c2));
                    }
                    if r2 == pri && c2 == pci {
                        assert((fl[0]).0 == r2 && fl[0].1 == c2);
                        assert(in_flip_prefix(fl, fl.len() as int, r2, c2));
                    }
                }
            }
        }
        self.active_side = active.rev();
        proof {
            assert forall|r2: int, c2: int|
                #[trigger] self.disk_at_spec(r2, c2) == done.disk_at_spec(r2, c2) by {}
            assert(self.count_side(Side::White) == done.count_side(Side::White));
            assert(self.count_side(Side::Dark) == done.count_side(Side::Dark));
        }
        Ok(())
    }
}

} // verus!
