//! No chain stays on the board without a liberty.

use crate::board::{
    adj, cell, foe, group_points, idx, inb, lemma_area, pos_ok, pt, Pos, Pt, BLACK, CELLS, EMPTY,
    MAX, OK, WHITE,
};
use crate::chain::{
    connected, has_liberty, is_liberty, lemma_closed, lemma_connected_cell, lemma_connected_refl,
    lemma_connected_step, lemma_connected_sym, lemma_same_block, link,
};
use crate::rules::{
    board_after, captures, dies, lemma_removed, lemma_stone_stays, play_code, play_result, put,
};
use vstd::prelude::*;

verus! {

broadcast use group_points;

/// Every stone on the board belongs to a chain with a liberty.
pub open spec fn all_alive(s: int, b: Seq<u8>) -> bool {
    forall|r: Pt| inb(s, r) && cell(s, b, r) != EMPTY ==> #[trigger] has_liberty(s, b, r)
}

/// Boards that agree on the stones of colour `c` but for one point `x` outside the
/// chain of `r` agree on that chain.
pub proof fn lemma_same_chain(s: int, b1: Seq<u8>, b2: Seq<u8>, c: u8, r: Pt, x: Pt)
    requires
        inb(s, r),
        cell(s, b1, r) == c,
        forall|t: Pt|
            inb(s, t) && t != x ==> (#[trigger] cell(s, b1, t) == c <==> cell(s, b2, t) == c),
        r != x,
        !connected(s, b2, r, x),
        inb(s, x) ==> cell(s, b1, x) != c,
    ensures
        forall|t: Pt| connected(s, b1, r, t) <==> connected(s, b2, r, t),
{
    let in1 = |t: Pt| connected(s, b1, r, t);
    let in2 = |t: Pt| connected(s, b2, r, t);
    lemma_connected_refl(s, b1, r);
    lemma_connected_refl(s, b2, r);
    assert forall|m: Pt, t: Pt| #[trigger] in2(m) && #[trigger] link(s, b1, m, t) implies in2(
        t,
    ) by {
        lemma_connected_cell(s, b2, r, m);
        assert(m != x);
        assert(cell(s, b1, m) == c);
        assert(cell(s, b1, t) == c);
        assert(link(s, b2, m, t));
        lemma_connected_step(s, b2, r, m, t);
    }
    assert forall|m: Pt, t: Pt| #[trigger] in1(m) && #[trigger] link(s, b2, m, t) && connected(
        s,
        b2,
        r,
        t,
    ) implies in1(t) by {
        lemma_connected_cell(s, b1, r, m);
        lemma_connected_cell(s, b2, r, t);
        assert(t != x);
        assert(cell(s, b1, t) == c);
        assert(link(s, b1, m, t));
        lemma_connected_step(s, b1, r, m, t);
    }
    let both = |t: Pt| connected(s, b1, r, t) && connected(s, b2, r, t);
    assert forall|m: Pt, t: Pt| #[trigger] both(m) && #[trigger] link(s, b2, m, t) implies both(
        t,
    ) by {
        lemma_connected_step(s, b2, r, m, t);
        assert(in1(m));
    }
    assert forall|t: Pt| connected(s, b1, r, t) <==> connected(s, b2, r, t) by {
        if connected(s, b1, r, t) {
            lemma_closed(s, b1, r, t, in2);
        }
        if connected(s, b2, r, t) {
            lemma_closed(s, b2, r, t, both);
        }
    }
}

/// What the board after a stone and its captures holds on each point.
pub proof fn lemma_after_cells(s: int, b: Seq<u8>, q: Pt, c: u8)
    requires
        inb(s, q),
        s <= MAX,
        b.len() == CELLS,
        cell(s, b, q) == EMPTY,
        c == BLACK || c == WHITE,
    ensures
        forall|t: Pt|
            inb(s, t) ==> #[trigger] cell(s, board_after(s, b, q, c), t) == (if dies(
                s,
                put(s, b, q, c),
                q,
                c,
                t,
            ) {
                EMPTY
            } else if t == q {
                c
            } else {
                cell(s, b, t)
            }),
        forall|t: Pt|
            inb(s, t) ==> #[trigger] cell(s, put(s, b, q, c), t) == (if t == q {
                c
            } else {
                cell(s, b, t)
            }),
{
    lemma_area(s);
    assert forall|t: Pt| inb(s, t) implies #[trigger] cell(s, put(s, b, q, c), t) == (if t == q {
        c
    } else {
        cell(s, b, t)
    }) by {
        assert(pt(s, idx(s, t)) == t && pt(s, idx(s, q)) == q);
    }
    assert forall|t: Pt| inb(s, t) implies #[trigger] cell(s, board_after(s, b, q, c), t) == (
    if dies(s, put(s, b, q, c), q, c, t) {
        EMPTY
    } else if t == q {
        c
    } else {
        cell(s, b, t)
    }) by {
        assert(pt(s, idx(s, t)) == t);
        assert(captures(s, b, q, c).contains(idx(s, t)) <==> dies(s, put(s, b, q, c), q, c, t));
    }
}

proof fn lemma_alive_own(s: int, b: Seq<u8>, q: Pt, c: u8, r: Pt)
    requires
        inb(s, q),
        inb(s, r),
        s <= MAX,
        b.len() == CELLS,
        cell(s, b, q) == EMPTY,
        c == BLACK || c == WHITE,
        all_alive(s, b),
        has_liberty(s, board_after(s, b, q, c), q),
        cell(s, board_after(s, b, q, c), r) == c,
    ensures
        has_liberty(s, board_after(s, b, q, c), r),
{
    let b2 = board_after(s, b, q, c);
    lemma_after_cells(s, b, q, c);
    lemma_stone_stays(s, b, q, c);
    if connected(s, b2, r, q) {
        lemma_same_block(s, b2, r, q);
    } else {
        lemma_connected_refl(s, b2, q);
        assert(r != q);
        assert(cell(s, b, r) == c);
        lemma_same_chain(s, b, b2, c, r, q);
        assert(has_liberty(s, b, r));
        let e = choose|e: Pt| is_liberty(s, b, r, e);
        let m = choose|m: Pt| #[trigger] connected(s, b, r, m) && adj(m, e);
        assert(connected(s, b2, r, m));
        lemma_connected_cell(s, b2, r, m);
        if e == q {
            assert(link(s, b2, m, q));
            lemma_connected_step(s, b2, r, m, q);
            assert(false);
        }
        assert(cell(s, b2, e) == EMPTY);
        assert(is_liberty(s, b2, r, e));
    }
}

proof fn lemma_alive_other(s: int, b: Seq<u8>, q: Pt, c: u8, r: Pt)
    requires
        inb(s, q),
        inb(s, r),
        s <= MAX,
        b.len() == CELLS,
        cell(s, b, q) == EMPTY,
        c == BLACK || c == WHITE,
        all_alive(s, b),
        cell(s, board_after(s, b, q, c), r) == foe(c),
    ensures
        has_liberty(s, board_after(s, b, q, c), r),
{
    let b1 = put(s, b, q, c);
    let b2 = board_after(s, b, q, c);
    lemma_after_cells(s, b, q, c);
    assert(r != q);
    assert(cell(s, b, r) == foe(c) && cell(s, b1, r) == foe(c));
    assert(!dies(s, b1, q, c, r));
    if connected(s, b1, r, q) {
        lemma_connected_cell(s, b1, r, q);
    }
    lemma_same_chain(s, b, b1, foe(c), r, q);
    assert(has_liberty(s, b, r));
    let e = choose|e: Pt| is_liberty(s, b, r, e);
    let m = choose|m: Pt| #[trigger] connected(s, b, r, m) && adj(m, e);
    assert(connected(s, b1, r, m));
    if e == q {
        lemma_connected_sym(s, b1, r, m);
        assert(connected(s, b1, m, r) && adj(q, m));
    } else {
        assert(cell(s, b1, e) == EMPTY);
        assert(is_liberty(s, b1, r, e));
    }
    assert(has_liberty(s, b1, r));
    let gone = |t: Pt| dies(s, b1, q, c, t);
    assert forall|x: Pt, t: Pt| #[trigger] gone(x) && #[trigger] link(s, b1, x, t) implies gone(
        t,
    ) by {
        let n = choose|n: Pt| #[trigger] connected(s, b1, n, x) && adj(q, n);
        lemma_connected_step(s, b1, n, x, t);
        lemma_connected_refl(s, b1, x);
        lemma_connected_step(s, b1, x, x, t);
        lemma_same_block(s, b1, x, t);
    }
    assert forall|t: Pt| inb(s, t) implies (#[trigger] gone(t) ==> cell(s, b1, t) == foe(c) && cell(
        s,
        b2,
        t,
    ) == EMPTY) && (!gone(t) ==> cell(s, b2, t) == cell(s, b1, t)) by {
        assert(cell(s, b2, t) == cell(s, b2, t));
        assert(cell(s, b1, t) == cell(s, b1, t));
    }
    lemma_removed(s, b1, b2, gone, foe(c), r);
}

/// Setting a stone that keeps a liberty leaves no chain without liberties.
pub proof fn law_stones_stay_alive(s: int, b: Seq<u8>, q: Pt, c: u8)
    requires
        inb(s, q),
        s <= MAX,
        b.len() == CELLS,
        forall|i: int| 0 <= i < CELLS ==> #[trigger] b[i] <= WHITE,
        cell(s, b, q) == EMPTY,
        c == BLACK || c == WHITE,
        all_alive(s, b),
        has_liberty(s, board_after(s, b, q, c), q),
    ensures
        all_alive(s, board_after(s, b, q, c)),
{
    let b2 = board_after(s, b, q, c);
    lemma_after_cells(s, b, q, c);
    lemma_area(s);
    assert forall|r: Pt| inb(s, r) && cell(s, b2, r) != EMPTY implies #[trigger] has_liberty(
        s,
        b2,
        r,
    ) by {
        assert(cell(s, b, r) <= WHITE);
        if cell(s, b2, r) == c {
            lemma_alive_own(s, b, q, c, r);
        } else {
            lemma_alive_other(s, b, q, c, r);
        }
    }
}

/// After every legal move each chain on the board has a liberty.
pub proof fn law_play_keeps_all_alive(p: Pos, q: Pt)
    requires
        pos_ok(p),
        all_alive(p.size, p.board),
        play_code(p, q) == OK,
    ensures
        all_alive(p.size, play_result(p, q).board),
{
    law_stones_stay_alive(p.size, p.board, q, p.turn);
}

} // verus!
