//! Points, colours and the position of a game.

use vstd::prelude::*;

verus! {

/// The largest board has this many lines.
pub const MAX: usize = 19;

/// Number of cells in every per-point buffer, enough for the largest board.
pub const CELLS: usize = 361;

pub const EMPTY: u8 = 0;

pub const BLACK: u8 = 1;

pub const WHITE: u8 = 2;

/// The call succeeded.
pub const OK: i32 = 0;

/// The point already holds a stone.
pub const ERR_OCCUPIED: i32 = -1;

/// The point is off the board, or there is nothing to act on.
pub const ERR_OFFBOARD: i32 = -2;

/// The stone would be left without liberties.
pub const ERR_SUICIDE: i32 = -3;

/// The point is barred by the simple ko rule.
pub const ERR_KO: i32 = -4;

pub const RULE_CHINESE: u8 = 0;

pub const RULE_JAPANESE: u8 = 1;

pub const RULE_KOREAN: u8 = 2;

/// A point, column first.
pub type Pt = (i32, i32);

/// The point lies on a board with `s` lines.
pub open spec fn inb(s: int, q: Pt) -> bool {
    0 <= q.0 < s && 0 <= q.1 < s
}

/// Number of points on a board with `s` lines.
#[verifier::opaque]
pub open spec fn area(s: int) -> int {
    s * s
}

/// Index of a point in the row-major layout.
#[verifier::opaque]
pub open spec fn idx(s: int, q: Pt) -> int {
    q.1 * s + q.0
}

/// The point at an index of the row-major layout.
#[verifier::opaque]
pub open spec fn pt(s: int, i: int) -> Pt {
    ((i % s) as i32, (i / s) as i32)
}

pub broadcast proof fn lemma_area(s: int)
    requires
        0 <= s <= MAX,
    ensures
        0 <= #[trigger] area(s) <= CELLS,
{
    reveal(area);
    assert(s * s <= 19 * 19) by (nonlinear_arith)
        requires
            0 <= s <= 19,
    ;
    assert(0 <= s * s) by (nonlinear_arith);
}

pub broadcast proof fn lemma_idx(s: int, q: Pt)
    requires
        inb(s, q),
    ensures
        0 <= #[trigger] idx(s, q) < area(s),
        pt(s, idx(s, q)) == q,
{
    reveal(area);
    reveal(idx);
    reveal(pt);
    let x = q.0 as int;
    let y = q.1 as int;
    assert(0 <= y * s + x < s * s && (y * s + x) % s == x && (y * s + x) / s == y)
        by (nonlinear_arith)
        requires
            0 <= x < s,
            0 <= y < s,
    {
        assert(y * s <= (s - 1) * s);
        vstd::arithmetic::div_mod::lemma_fundamental_div_mod_converse(y * s + x, s, y, x);
    }
}

pub broadcast proof fn lemma_pt(s: int, i: int)
    requires
        0 <= i < area(s),
        0 < s <= MAX,
    ensures
        inb(s, #[trigger] pt(s, i)),
        idx(s, pt(s, i)) == i,
{
    reveal(area);
    reveal(idx);
    reveal(pt);
    assert(0 <= i % s < s && 0 <= i / s < s && (i / s) * s + i % s == i) by (nonlinear_arith)
        requires
            0 <= i < s * s,
            0 < s,
    {
        vstd::arithmetic::div_mod::lemma_fundamental_div_mod(i, s);
    }
}

pub broadcast group group_points {
    lemma_area,
    lemma_idx,
    lemma_pt,
}

/// What stands on a point.
pub open spec fn cell(s: int, b: Seq<u8>, q: Pt) -> u8 {
    b[idx(s, q)]
}

/// The two points are next to each other along a line.
pub open spec fn adj(q: Pt, r: Pt) -> bool {
    ||| q.1 == r.1 && (q.0 - r.0 == 1 || r.0 - q.0 == 1)
    ||| q.0 == r.0 && (q.1 - r.1 == 1 || r.1 - q.1 == 1)
}

/// The neighbour of a point in direction `d`: right, left, down, up.
pub open spec fn nb(q: Pt, d: int) -> Pt {
    if d == 0 {
        ((q.0 + 1) as i32, q.1)
    } else if d == 1 {
        ((q.0 - 1) as i32, q.1)
    } else if d == 2 {
        (q.0, (q.1 + 1) as i32)
    } else {
        (q.0, (q.1 - 1) as i32)
    }
}

/// The point diagonally next to a point in direction `d`.
pub open spec fn diag(q: Pt, d: int) -> Pt {
    if d == 0 {
        ((q.0 - 1) as i32, (q.1 - 1) as i32)
    } else if d == 1 {
        ((q.0 + 1) as i32, (q.1 - 1) as i32)
    } else if d == 2 {
        ((q.0 - 1) as i32, (q.1 + 1) as i32)
    } else {
        ((q.0 + 1) as i32, (q.1 + 1) as i32)
    }
}

/// The four neighbours of a point of the board are the points next to it.
pub proof fn lemma_nb(s: int, q: Pt, r: Pt)
    requires
        inb(s, q),
        s <= MAX,
    ensures
        adj(q, r) <==> (r == nb(q, 0) || r == nb(q, 1) || r == nb(q, 2) || r == nb(q, 3)),
{
}

/// The colour that plays against `c`.
pub open spec fn foe(c: u8) -> u8 {
    if c == BLACK {
        WHITE
    } else {
        BLACK
    }
}

/// The neighbour of (x, y) in direction `d`: right, left, down, up.
pub fn neighbour(x: i32, y: i32, d: usize) -> (r: (i32, i32))
    requires
        0 <= x < MAX,
        0 <= y < MAX,
        d < 4,
    ensures
        r == nb((x, y), d as int),
{
    if d == 0 {
        (x + 1, y)
    } else if d == 1 {
        (x - 1, y)
    } else if d == 2 {
        (x, y + 1)
    } else {
        (x, y - 1)
    }
}

/// The point diagonally next to (x, y) in direction `d`.
pub fn diagonal(x: i32, y: i32, d: usize) -> (r: (i32, i32))
    requires
        0 <= x < MAX,
        0 <= y < MAX,
        d < 4,
    ensures
        r == diag((x, y), d as int),
{
    if d == 0 {
        (x - 1, y - 1)
    } else if d == 1 {
        (x + 1, y - 1)
    } else if d == 2 {
        (x - 1, y + 1)
    } else {
        (x + 1, y + 1)
    }
}

/// The colour that plays against `c`.
pub fn opponent(c: u8) -> (r: u8)
    ensures
        r == foe(c),
{
    if c == BLACK {
        WHITE
    } else {
        BLACK
    }
}

/// Row-major index of a point.
pub fn index_of(s: usize, x: i32, y: i32) -> (i: usize)
    requires
        s <= MAX,
        inb(s as int, (x, y)),
    ensures
        i == idx(s as int, (x, y)),
        i < CELLS,
{
    proof {
        reveal(idx);
        assert((y as int) * (s as int) <= 19 * 19) by (nonlinear_arith)
            requires
                0 <= y < s <= 19,
        ;
        assert(0 <= (y as int) * (s as int)) by (nonlinear_arith)
            requires
                0 <= y,
                0 <= s,
        ;
        lemma_area(s as int);
        lemma_idx(s as int, (x, y));
    }
    y as usize * s + x as usize
}

/// Number of points on a board with `s` lines.
pub fn area_of(s: usize) -> (n: usize)
    requires
        s <= MAX,
    ensures
        n == area(s as int),
        n <= CELLS,
{
    proof {
        reveal(area);
        lemma_area(s as int);
    }
    s * s
}

/// The point at an index of the row-major layout.
pub fn point_of(s: usize, i: usize) -> (q: (i32, i32))
    requires
        0 < s <= MAX,
        i < area(s as int),
    ensures
        q == pt(s as int, i as int),
        inb(s as int, q),
{
    proof {
        reveal(pt);
        lemma_area(s as int);
        lemma_pt(s as int, i as int);
        assert(0 <= (i as int) % (s as int) < s && 0 <= (i as int) / (s as int) <= i)
            by (nonlinear_arith)
            requires
                0 < s,
                0 <= i,
        ;
    }
    ((i % s) as i32, (i / s) as i32)
}

/// The position: the stones with their move numbers, whose turn it is, and the
/// counters that a move changes.
pub struct Position {
    pub size: usize,
    pub board: Vec<u8>,
    /// Move number of the stone on each point; negative for a stone set up in
    /// analysis, 0 where there is none.
    pub moveno: Vec<i32>,
    pub turn: u8,
    pub move_count: i32,
    pub last_x: i32,
    pub last_y: i32,
    pub ko_active: bool,
    pub ko_x: i32,
    pub ko_y: i32,
    pub captured_by_black: i32,
    pub captured_by_white: i32,
    pub pass_count: i32,
}

/// Mathematical view of a [`Position`].
#[verifier::ext_equal]
pub struct Pos {
    pub size: int,
    pub board: Seq<u8>,
    pub moveno: Seq<i32>,
    pub turn: u8,
    pub move_count: int,
    pub last: Pt,
    pub ko_active: bool,
    pub ko: Pt,
    pub captured_by_black: int,
    pub captured_by_white: int,
    pub pass_count: int,
}

/// The stones and dimensions of a position fit together, and no number is left on
/// an empty point.
pub open spec fn pos_ok(p: Pos) -> bool {
    &&& 5 <= p.size <= MAX
    &&& p.board.len() == CELLS
    &&& p.moveno.len() == CELLS
    &&& forall|i: int| 0 <= i < CELLS ==> #[trigger] p.board[i] <= WHITE
    &&& forall|i: int|
        0 <= i < CELLS ==> #[trigger] p.board[i] == EMPTY ==> p.moveno[i] == 0
    &&& p.turn == BLACK || p.turn == WHITE
    &&& 0 <= p.move_count <= i32::MAX
    &&& 0 <= p.captured_by_black <= i32::MAX
    &&& 0 <= p.captured_by_white <= i32::MAX
    &&& 0 <= p.pass_count <= i32::MAX
}

impl View for Position {
    type V = Pos;

    open spec fn view(&self) -> Pos {
        Pos {
            size: self.size as int,
            board: self.board@,
            moveno: self.moveno@,
            turn: self.turn,
            move_count: self.move_count as int,
            last: (self.last_x, self.last_y),
            ko_active: self.ko_active,
            ko: (self.ko_x, self.ko_y),
            captured_by_black: self.captured_by_black as int,
            captured_by_white: self.captured_by_white as int,
            pass_count: self.pass_count as int,
        }
    }
}

impl Position {
    pub open spec fn wf(&self) -> bool {
        pos_ok(self@)
    }

    /// What stands on a point of the board.
    pub fn at(&self, x: i32, y: i32) -> (v: u8)
        requires
            self.wf(),
            inb(self@.size, (x, y)),
        ensures
            v == cell(self@.size, self@.board, (x, y)),
            v <= WHITE,
    {
        let i: usize = index_of(self.size, x, y);
        self.board[i]
    }

    /// Puts `v` on a point of the board.
    pub fn set(&mut self, x: i32, y: i32, v: u8)
        requires
            old(self).wf(),
            inb(old(self)@.size, (x, y)),
            v <= WHITE,
            v == EMPTY ==> old(self)@.moveno[idx(old(self)@.size, (x, y))] == 0,
        ensures
            final(self).wf(),
            final(self)@ == (Pos {
                board: old(self)@.board.update(idx(old(self)@.size, (x, y)), v),
                ..old(self)@
            }),
    {
        let i: usize = index_of(self.size, x, y);
        self.board.set(i, v);
    }

    /// A copy that shares no storage with it.
    pub fn duplicate(&self) -> (r: Position)
        ensures
            r@ == self@,
    {
        Position {
            size: self.size,
            board: self.board.clone(),
            moveno: self.moveno.clone(),
            turn: self.turn,
            move_count: self.move_count,
            last_x: self.last_x,
            last_y: self.last_y,
            ko_active: self.ko_active,
            ko_x: self.ko_x,
            ko_y: self.ko_y,
            captured_by_black: self.captured_by_black,
            captured_by_white: self.captured_by_white,
            pass_count: self.pass_count,
        }
    }
}

/// The point (x, y) lies on the board.
pub fn in_board(pos: &Position, x: i32, y: i32) -> (r: bool)
    requires
        pos.size <= MAX,
    ensures
        r == inb(pos@.size, (x, y)),
{
    let s: i32 = pos.size as i32;
    x >= 0 && y >= 0 && x < s && y < s
}

} // verus!
