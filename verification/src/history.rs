//! The record of moves that undo and redo walk along.

use crate::board::{area, group_points, inb, BLACK, CELLS, MAX, WHITE};
use vstd::prelude::*;

verus! {

broadcast use group_points;

/// Number of moves that the history holds.
pub const MAX_HIST: usize = 1024;

/// Number of places for captured stones.
pub const CAP_MAX: usize = 4096;

/// Places for captured stones that must stay free for the next move.
pub const CAP_RESERVE: usize = 400;

/// A move by the side to move.
pub const KIND_PLAY: u8 = 0;

pub const KIND_PASS: u8 = 1;

/// A stone set up in analysis.
pub const KIND_PLACE: u8 = 2;

/// One move with what is needed to take it back.
#[derive(Clone, Copy)]
pub struct MoveRec {
    pub kind: u8,
    pub x: i32,
    pub y: i32,
    pub color: u8,
    /// Places for captured stones that were taken before the move.
    pub cap_start: usize,
    /// Places that the stones captured by the move take.
    pub n_cap: usize,
    pub prev_turn: u8,
    pub prev_move_count: i32,
    pub prev_last_x: i32,
    pub prev_last_y: i32,
    pub prev_ko_active: bool,
    pub prev_ko_x: i32,
    pub prev_ko_y: i32,
    pub prev_cap_b: i32,
    pub prev_cap_w: i32,
    pub prev_pass: i32,
    /// Move number that stood on the point of a set-up stone, else 0.
    pub prev_moveno: i32,
}

/// The moves made so far and those taken back that can be made again, each with the
/// stones that it captured.
pub struct History {
    pub records: Vec<MoveRec>,
    pub len: usize,
    /// Index and move number of each stone that the move in the same slot captured.
    pub caps: Vec<Vec<(u16, i32)>>,
    /// Places for captured stones that are taken. When too few are left, the history is
    /// dropped, and the count starts anew.
    pub cap_top: usize,
    /// Records from `len` up to here can be made again.
    pub redo_top: usize,
}

/// Mathematical view of a [`History`].
#[verifier::ext_equal]
pub struct Hist {
    pub records: Seq<MoveRec>,
    pub len: int,
    pub caps: Seq<Seq<(u16, i32)>>,
    pub cap_top: int,
    pub redo_top: int,
}

/// The record can be taken back and made again on a board with `s` lines.
pub open spec fn rec_ok(rec: MoveRec, s: int) -> bool {
    &&& rec.kind <= KIND_PLACE
    &&& rec.kind != KIND_PASS ==> inb(s, (rec.x, rec.y)) && (rec.color == BLACK || rec.color
        == WHITE)
    &&& rec.cap_start + rec.n_cap <= CAP_MAX
    &&& rec.prev_turn == BLACK || rec.prev_turn == WHITE
    &&& 0 <= rec.prev_move_count
    &&& 0 <= rec.prev_cap_b
    &&& 0 <= rec.prev_cap_w
    &&& 0 <= rec.prev_pass
}

/// The captured stones stood on a board with `s` lines.
pub open spec fn caps_on(caps: Seq<(u16, i32)>, s: int) -> bool {
    forall|k: int| 0 <= k < caps.len() ==> (#[trigger] caps[k]).0 < area(s)
}

/// The buffers have their sizes and everything in them belongs to a board with `s`
/// lines.
pub open spec fn hist_ok(h: Hist, s: int) -> bool {
    &&& h.records.len() == MAX_HIST
    &&& h.caps.len() == MAX_HIST
    &&& 0 <= h.len <= h.redo_top <= MAX_HIST
    &&& 0 <= h.cap_top <= CAP_MAX
    &&& forall|i: int| 0 <= i < MAX_HIST ==> rec_ok(#[trigger] h.records[i], s)
    &&& forall|i: int| 0 <= i < MAX_HIST ==> caps_on(#[trigger] h.caps[i], s)
}

impl View for History {
    type V = Hist;

    open spec fn view(&self) -> Hist {
        Hist {
            records: self.records@,
            len: self.len as int,
            caps: self.caps@.map_values(|v: Vec<(u16, i32)>| v@),
            cap_top: self.cap_top as int,
            redo_top: self.redo_top as int,
        }
    }
}

/// A move that captures `n` stones finds the history full.
pub open spec fn hist_full(h: Hist, n: int) -> bool {
    h.len >= MAX_HIST || h.cap_top + n + CAP_RESERVE > CAP_MAX
}

/// Places that `n` captured stones take where `top` are taken already.
pub open spec fn places(top: int, n: int) -> int {
    if n <= CAP_MAX - top {
        n
    } else {
        CAP_MAX - top
    }
}

/// The record with the places that its captured stones take from `start` on.
pub open spec fn capturing(rec: MoveRec, start: int, n: int) -> MoveRec {
    MoveRec { cap_start: start as usize, n_cap: n as usize, ..rec }
}

/// The history with one more move, which captured the stones `caps`. Moves that could
/// have been made again are forgotten. A full history is dropped: it holds the new move
/// alone, and no place for captured stones is taken.
pub open spec fn entered(h: Hist, rec: MoveRec, caps: Seq<(u16, i32)>) -> Hist {
    let n = caps.len() as int;
    let at = if hist_full(h, n) {
        0
    } else {
        h.len
    };
    Hist {
        records: h.records.update(at, capturing(rec, h.cap_top, places(h.cap_top, n))),
        len: at + 1,
        caps: h.caps.update(at, caps),
        cap_top: if hist_full(h, n) {
            0
        } else {
            h.cap_top + n
        },
        redo_top: at + 1,
    }
}

/// A list of captured stones that shares no storage with the given one.
fn copy_of(caps: &Vec<(u16, i32)>) -> (r: Vec<(u16, i32)>)
    ensures
        r@ == caps@,
{
    let mut r: Vec<(u16, i32)> = Vec::new();
    let mut k: usize = 0;
    while k < caps.len()
        invariant
            0 <= k <= caps@.len(),
            r@ == caps@.take(k as int),
        decreases caps@.len() - k,
    {
        let e: (u16, i32) = caps[k];
        r.push(e);
        proof {
            assert(r@ =~= caps@.take(k + 1));
        }
        k = k + 1;
    }
    r
}

/// As many empty lists of captured stones as there are slots.
fn no_captures() -> (v: Vec<Vec<(u16, i32)>>)
    ensures
        v@.len() == MAX_HIST,
        forall|i: int| 0 <= i < MAX_HIST ==> (#[trigger] v@[i])@.len() == 0,
{
    let mut v: Vec<Vec<(u16, i32)>> = Vec::new();
    while v.len() < MAX_HIST
        invariant
            v@.len() <= MAX_HIST,
            forall|i: int| 0 <= i < v@.len() ==> (#[trigger] v@[i])@.len() == 0,
        decreases MAX_HIST - v@.len(),
    {
        v.push(Vec::new());
    }
    v
}

impl History {
    /// An empty history.
    pub fn new() -> (h: History)
        ensures
            h@.len == 0,
            h@.cap_top == 0,
            h@.redo_top == 0,
            forall|s: int| 5 <= s <= MAX ==> hist_ok(h@, s),
    {
        let blank: MoveRec = MoveRec {
            kind: KIND_PASS,
            x: -1,
            y: -1,
            color: 0,
            cap_start: 0,
            n_cap: 0,
            prev_turn: BLACK,
            prev_move_count: 0,
            prev_last_x: -1,
            prev_last_y: -1,
            prev_ko_active: false,
            prev_ko_x: -1,
            prev_ko_y: -1,
            prev_cap_b: 0,
            prev_cap_w: 0,
            prev_pass: 0,
            prev_moveno: 0,
        };
        let h = History {
            records: vec![blank; MAX_HIST],
            len: 0,
            caps: no_captures(),
            cap_top: 0,
            redo_top: 0,
        };
        proof {
            assert forall|i: int| 0 <= i < MAX_HIST implies (#[trigger] h@.caps[i]).len() == 0 by {
                assert(h.caps@[i]@.len() == 0);
            }
        }
        h
    }

    /// A copy that shares no storage with it.
    pub fn duplicate(&self) -> (r: History)
        ensures
            r@ == self@,
    {
        let mut caps: Vec<Vec<(u16, i32)>> = Vec::new();
        let mut k: usize = 0;
        while k < self.caps.len()
            invariant
                0 <= k <= self.caps@.len(),
                caps@.len() == k,
                forall|i: int| 0 <= i < k ==> (#[trigger] caps@[i])@ == self.caps@[i]@,
            decreases self.caps@.len() - k,
        {
            caps.push(copy_of(&self.caps[k]));
            k = k + 1;
        }
        let r = History {
            records: self.records.clone(),
            len: self.len,
            caps,
            cap_top: self.cap_top,
            redo_top: self.redo_top,
        };
        proof {
            assert(r@.records =~= self@.records);
            assert(r@.caps =~= self@.caps);
        }
        r
    }

    /// Appends a move with the stones that it captured. When the history is full, all
    /// that it holds is dropped first.
    pub fn push_rec(&mut self, rec: MoveRec, caps: Vec<(u16, i32)>)
        requires
            old(self).records@.len() == MAX_HIST,
            old(self).caps@.len() == MAX_HIST,
            old(self).cap_top <= CAP_MAX,
            caps@.len() <= CELLS,
        ensures
            final(self)@ == entered(old(self)@, rec, caps@),
    {
        let ghost h = self@;
        let ghost list = caps@;
        let mut full: MoveRec = rec;
        full.cap_start = self.cap_top;
        full.n_cap = self.places_for(caps.len());
        self.cap_top = self.cap_top + full.n_cap;
        if self.len >= MAX_HIST || self.cap_top + CAP_RESERVE > CAP_MAX {
            self.len = 0;
            self.cap_top = 0;
            self.redo_top = 0;
        }
        self.records.set(self.len, full);
        self.caps.set(self.len, caps);
        self.len = self.len + 1;
        self.redo_top = self.len;
        proof {
            assert(self@.caps =~= entered(h, rec, list).caps);
        }
    }

    /// Places that `n` captured stones take.
    pub fn places_for(&self, n: usize) -> (r: usize)
        requires
            self.cap_top <= CAP_MAX,
        ensures
            r == places(self@.cap_top, n as int),
    {
        if n <= CAP_MAX - self.cap_top {
            n
        } else {
            CAP_MAX - self.cap_top
        }
    }
}

/// Appending an acceptable move keeps a history acceptable.
pub proof fn lemma_entered_ok(h: Hist, rec: MoveRec, caps: Seq<(u16, i32)>, s: int)
    requires
        hist_ok(h, s),
        rec_ok(capturing(rec, 0, 0), s),
        caps.len() <= CELLS,
        caps_on(caps, s),
    ensures
        hist_ok(entered(h, rec, caps), s),
{
    let n = entered(h, rec, caps);
    assert forall|i: int| 0 <= i < MAX_HIST implies rec_ok(#[trigger] n.records[i], s) by {
        if i != n.len - 1 {
            assert(n.records[i] == h.records[i]);
        }
    }
    assert forall|i: int| 0 <= i < MAX_HIST implies caps_on(#[trigger] n.caps[i], s) by {
        if i != n.len - 1 {
            assert(n.caps[i] == h.caps[i]);
        }
    }
}

} // verus!
