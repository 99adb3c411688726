//! The rules of play: captures, suicide, simple ko, and moves that can be taken
//! back.

use crate::board::{
    adj, area, cell, foe, group_points, idx, in_board, inb, index_of, lemma_area, lemma_idx,
    lemma_nb, nb, neighbour, opponent, pos_ok, pt, Pos, Position, Pt, BLACK, CELLS, EMPTY, ERR_KO,
    ERR_OCCUPIED, ERR_OFFBOARD, ERR_SUICIDE, MAX, OK, WHITE,
};
use crate::chain::{
    block, connected, has_liberty, is_liberty, lemma_closed, lemma_connected_cell,
    lemma_connected_refl, lemma_connected_step, lemma_flood, lemma_same_block, link, Filler,
};
use vstd::prelude::*;

verus! {

broadcast use group_points;

/// The board with `c` put on `q`.
pub open spec fn put(s: int, b: Seq<u8>, q: Pt, c: u8) -> Seq<u8> {
    b.update(idx(s, q), c)
}

/// With a stone of colour `c` already on `q`, the stone on `r` is captured: it is
/// of the other colour, its chain has no liberty, and the chain touches `q`.
pub open spec fn dies(s: int, b: Seq<u8>, q: Pt, c: u8, r: Pt) -> bool {
    &&& inb(s, r)
    &&& cell(s, b, r) == foe(c)
    &&& !has_liberty(s, b, r)
    &&& exists|n: Pt| #[trigger] connected(s, b, n, r) && adj(q, n)
}

/// Indices of the stones that a stone of colour `c` on `q` captures.
pub open spec fn captures(s: int, b: Seq<u8>, q: Pt, c: u8) -> Set<int> {
    Set::new(|i: int| 0 <= i < area(s) && dies(s, put(s, b, q, c), q, c, pt(s, i)))
}

/// The board after a stone of colour `c` on `q` has made its captures.
pub open spec fn board_after(s: int, b: Seq<u8>, q: Pt, c: u8) -> Seq<u8> {
    Seq::new(
        b.len(),
        |i: int|
            if captures(s, b, q, c).contains(i) {
                EMPTY
            } else {
                put(s, b, q, c)[i]
            },
    )
}

/// The position after a stone of colour `c` has been set on `q` and has made its
/// captures; nothing but the stones and their numbers has changed.
pub open spec fn stone_set(p: Pos, q: Pt, c: u8) -> Pos {
    Pos {
        board: board_after(p.size, p.board, q, c),
        moveno: Seq::new(
            p.moveno.len(),
            |i: int|
                if captures(p.size, p.board, q, c).contains(i) {
                    0i32
                } else {
                    p.moveno[i]
                },
        ),
        ..p
    }
}

/// Number of empty points among the first `d` neighbours of `q`.
pub open spec fn empty_neighbours(s: int, b: Seq<u8>, q: Pt, d: nat) -> int
    decreases d,
{
    if d == 0 {
        0
    } else {
        empty_neighbours(s, b, q, (d - 1) as nat) + if inb(s, nb(q, d - 1)) && cell(
            s,
            b,
            nb(q, d - 1),
        ) == EMPTY {
            1int
        } else {
            0
        }
    }
}

/// Code with which a move on `q` by the side to move is answered.
pub open spec fn play_code(p: Pos, q: Pt) -> i32 {
    if !inb(p.size, q) {
        ERR_OFFBOARD
    } else if cell(p.size, p.board, q) != EMPTY {
        ERR_OCCUPIED
    } else if p.ko_active && q == p.ko {
        ERR_KO
    } else if !has_liberty(p.size, board_after(p.size, p.board, q, p.turn), q) {
        ERR_SUICIDE
    } else {
        OK
    }
}

/// The position after a legal move on `q` by the side to move.
pub open spec fn play_result(p: Pos, q: Pt) -> Pos {
    let me = p.turn;
    let taken = captures(p.size, p.board, q, me);
    let after = stone_set(p, q, me);
    Pos {
        board: after.board,
        moveno: after.moveno.update(idx(p.size, q), (p.move_count + 1) as i32),
        turn: foe(me),
        move_count: p.move_count + 1,
        last: q,
        ko_active: taken.len() == 1 && block(p.size, after.board, q).len() == 1
            && empty_neighbours(p.size, after.board, q, 4) == 1,
        ko: if taken.len() == 1 {
            pt(p.size, taken.choose())
        } else {
            p.ko
        },
        captured_by_black: p.captured_by_black + if me == BLACK {
            taken.len()
        } else {
            0
        },
        captured_by_white: p.captured_by_white + if me == BLACK {
            0
        } else {
            taken.len()
        },
        pass_count: 0,
        ..p
    }
}

/// The list names each captured stone once, with the number that it had.
pub open spec fn caps_match(caps: Seq<(u16, i32)>, taken: Set<int>, moveno: Seq<i32>) -> bool {
    &&& forall|k: int|
        0 <= k < caps.len() ==> taken.contains((#[trigger] caps[k]).0 as int) && caps[k].1
            == moveno[caps[k].0 as int]
    &&& forall|j: int, k: int|
        0 <= j < k < caps.len() ==> (#[trigger] caps[j]).0 != (#[trigger] caps[k]).0
    &&& forall|i: int| #[trigger]
        taken.contains(i) ==> exists|k: int| 0 <= k < caps.len() && (#[trigger] caps[k]).0 == i
}

/// A list that names each captured stone once is as long as there are such stones.
pub proof fn lemma_caps_len(s: int, caps: Seq<(u16, i32)>, taken: Set<int>, moveno: Seq<i32>)
    requires
        caps_match(caps, taken, moveno),
        0 <= s <= MAX,
        forall|i: int| #[trigger] taken.contains(i) ==> 0 <= i < area(s),
    ensures
        caps.len() == taken.len(),
        taken.finite(),
        taken.len() <= area(s),
{
    let w = caps.map_values(|e: (u16, i32)| e.0 as int);
    assert(w.no_duplicates()) by {
        assert forall|i: int, j: int| 0 <= i < w.len() && 0 <= j < w.len() && i != j implies w[i]
            != w[j] by {
            assert(w[i] == caps[i].0 as int && w[j] == caps[j].0 as int);
            if i < j {
                assert(caps[i].0 != caps[j].0);
            } else {
                assert(caps[j].0 != caps[i].0);
            }
        }
    }
    w.unique_seq_to_set();
    assert(w.to_set() =~= taken) by {
        assert forall|i: int| w.to_set().contains(i) <==> taken.contains(i) by {
            if w.to_set().contains(i) {
                let k = choose|k: int| 0 <= k < w.len() && w[k] == i;
                assert(caps[k].0 as int == i);
            }
            if taken.contains(i) {
                let k = choose|k: int| 0 <= k < caps.len() && (#[trigger] caps[k]).0 == i;
                assert(w[k] == i);
            }
        }
    }
    let range = vstd::set_lib::set_int_range(0, area(s));
    vstd::set_lib::lemma_int_range(0, area(s));
    vstd::set_lib::lemma_len_subset(taken, range);
}

/// Taking whole chains of colour `c` off the board changes neither the stones nor
/// the liberties of another chain of that colour.
pub proof fn lemma_removed(
    s: int,
    b1: Seq<u8>,
    b2: Seq<u8>,
    gone: spec_fn(Pt) -> bool,
    c: u8,
    n: Pt,
)
    requires
        inb(s, n),
        c != EMPTY,
        cell(s, b1, n) == c,
        !gone(n),
        forall|r: Pt|
            inb(s, r) && #[trigger] gone(r) ==> cell(s, b1, r) == c && cell(s, b2, r) == EMPTY,
        forall|r: Pt|
            inb(s, r) && !#[trigger] gone(r) ==> cell(s, b2, r) == cell(s, b1, r),
        forall|m: Pt, t: Pt| #[trigger] gone(m) && #[trigger] link(s, b1, m, t) ==> gone(t),
    ensures
        forall|r: Pt| connected(s, b2, n, r) <==> connected(s, b1, n, r),
        forall|r: Pt| connected(s, b1, n, r) ==> !gone(r),
        has_liberty(s, b2, n) <==> has_liberty(s, b1, n),
{
    let inside1 = |r: Pt| connected(s, b1, n, r) && !gone(r);
    let inside2 = |r: Pt| connected(s, b2, n, r) && !gone(r);
    lemma_connected_refl(s, b1, n);
    lemma_connected_refl(s, b2, n);
    assert forall|m: Pt, t: Pt| #[trigger] inside1(m) && #[trigger] link(
        s,
        b2,
        m,
        t,
    ) implies inside1(t) by {
        lemma_connected_cell(s, b1, n, m);
        assert(!gone(t));
        assert(link(s, b1, m, t));
        lemma_connected_step(s, b1, n, m, t);
    }
    assert forall|m: Pt, t: Pt| #[trigger] inside2(m) && #[trigger] link(
        s,
        b1,
        m,
        t,
    ) implies inside2(t) by {
        lemma_connected_cell(s, b2, n, m);
        if gone(t) {
            assert(link(s, b1, t, m));
            assert(false);
        }
        assert(link(s, b2, m, t));
        lemma_connected_step(s, b2, n, m, t);
    }
    assert forall|r: Pt| connected(s, b2, n, r) <==> connected(s, b1, n, r) by {
        if connected(s, b2, n, r) {
            lemma_closed(s, b2, n, r, inside1);
        }
        if connected(s, b1, n, r) {
            lemma_closed(s, b1, n, r, inside2);
        }
    }
    assert forall|r: Pt| connected(s, b1, n, r) implies !gone(r) by {
        lemma_closed(s, b1, n, r, inside2);
    }
    if has_liberty(s, b1, n) {
        let e = choose|e: Pt| is_liberty(s, b1, n, e);
        let r = choose|r: Pt| #[trigger] connected(s, b1, n, r) && adj(r, e);
        assert(!gone(e));
        assert(connected(s, b2, n, r));
        assert(is_liberty(s, b2, n, e));
    }
    if has_liberty(s, b2, n) {
        let e = choose|e: Pt| is_liberty(s, b2, n, e);
        let r = choose|r: Pt| #[trigger] connected(s, b2, n, r) && adj(r, e);
        assert(connected(s, b1, n, r));
        lemma_connected_cell(s, b1, n, r);
        if gone(e) {
            assert(link(s, b1, e, r));
            assert(gone(r));
        }
        assert(is_liberty(s, b1, n, e));
    }
}

/// The stone on `r` belongs to a chain without liberties that holds one of the
/// first `d` neighbours of `q`.
pub open spec fn taken_by(s: int, b: Seq<u8>, q: Pt, c: u8, d: int, r: Pt) -> bool {
    exists|k: int|
        0 <= k < d && connected(s, b, #[trigger] nb(q, k), r) && cell(s, b, nb(q, k)) == foe(c)
            && !has_liberty(s, b, nb(q, k))
}

proof fn lemma_taken_by(s: int, b: Seq<u8>, q: Pt, c: u8, d: int)
    requires
        inb(s, q),
        s <= MAX,
        0 <= d <= 4,
    ensures
        forall|r: Pt| #[trigger]
            taken_by(s, b, q, c, d, r) ==> inb(s, r) && cell(s, b, r) == foe(c) && !has_liberty(
                s,
                b,
                r,
            ),
        forall|m: Pt, t: Pt| #[trigger]
            taken_by(s, b, q, c, d, m) && #[trigger] link(s, b, m, t) ==> taken_by(
                s,
                b,
                q,
                c,
                d,
                t,
            ),
        d == 4 ==> forall|r: Pt| #[trigger]
            taken_by(s, b, q, c, d, r) <==> dies(s, b, q, c, r),
{
    assert forall|r: Pt| #[trigger] taken_by(s, b, q, c, d, r) implies inb(s, r) && cell(s, b, r)
        == foe(c) && !has_liberty(s, b, r) && dies(s, b, q, c, r) by {
        let k = choose|k: int|
            0 <= k < d && connected(s, b, #[trigger] nb(q, k), r) && cell(s, b, nb(q, k)) == foe(c)
                && !has_liberty(s, b, nb(q, k));
        lemma_connected_cell(s, b, nb(q, k), r);
        lemma_same_block(s, b, nb(q, k), r);
        lemma_nb(s, q, nb(q, k));
    }
    assert forall|m: Pt, t: Pt| #[trigger]
        taken_by(s, b, q, c, d, m) && #[trigger] link(s, b, m, t) implies taken_by(
        s,
        b,
        q,
        c,
        d,
        t,
    ) by {
        let k = choose|k: int|
            0 <= k < d && connected(s, b, #[trigger] nb(q, k), m) && cell(s, b, nb(q, k)) == foe(c)
                && !has_liberty(s, b, nb(q, k));
        lemma_connected_step(s, b, nb(q, k), m, t);
    }
    if d == 4 {
        assert forall|r: Pt| dies(s, b, q, c, r) implies #[trigger] taken_by(
            s,
            b,
            q,
            c,
            d,
            r,
        ) by {
            let n = choose|n: Pt| #[trigger] connected(s, b, n, r) && adj(q, n);
            lemma_connected_cell(s, b, n, r);
            lemma_same_block(s, b, n, r);
            lemma_nb(s, q, n);
            let k = choose|k: int| 0 <= k < 4 && n == nb(q, k);
            assert(0 <= k < 4 && n == nb(q, k)) by {
                assert(n == nb(q, 0) || n == nb(q, 1) || n == nb(q, 2) || n == nb(q, 3));
            }
            assert(connected(s, b, nb(q, k), r));
        }
    }
}

/// The position without the block of `q`.
pub open spec fn without_block(p: Pos, q: Pt) -> Pos {
    Pos {
        board: Seq::new(
            p.board.len(),
            |i: int|
                if 0 <= i < area(p.size) && connected(p.size, p.board, q, pt(p.size, i)) {
                    EMPTY
                } else {
                    p.board[i]
                },
        ),
        moveno: Seq::new(
            p.moveno.len(),
            |i: int|
                if 0 <= i < area(p.size) && connected(p.size, p.board, q, pt(p.size, i)) {
                    0i32
                } else {
                    p.moveno[i]
                },
        ),
        ..p
    }
}

/// The position without the stones on the given points.
pub open spec fn without_points(p: Pos, v: Seq<Pt>) -> Pos {
    Pos {
        board: Seq::new(
            p.board.len(),
            |i: int|
                if 0 <= i < area(p.size) && v.contains(pt(p.size, i)) {
                    EMPTY
                } else {
                    p.board[i]
                },
        ),
        moveno: Seq::new(
            p.moveno.len(),
            |i: int|
                if 0 <= i < area(p.size) && v.contains(pt(p.size, i)) {
                    0i32
                } else {
                    p.moveno[i]
                },
        ),
        ..p
    }
}

/// Taking one more stone off the board.
proof fn lemma_without_push(p: Pos, v: Seq<Pt>, q: Pt)
    requires
        pos_ok(p),
        inb(p.size, q),
    ensures
        without_points(p, v.push(q)).board == without_points(p, v).board.update(
            idx(p.size, q),
            EMPTY,
        ),
        without_points(p, v.push(q)).moveno == without_points(p, v).moveno.update(
            idx(p.size, q),
            0,
        ),
{
    let w = v.push(q);
    lemma_area(p.size);
    assert(w[v.len() as int] == q);
    assert forall|i: int| 0 <= i < area(p.size) implies (#[trigger] w.contains(pt(p.size, i))
        <==> v.contains(pt(p.size, i)) || i == idx(p.size, q)) by {
        if v.contains(pt(p.size, i)) {
            let j = choose|j: int| 0 <= j < v.len() && v[j] == pt(p.size, i);
            assert(w[j] == pt(p.size, i));
        }
        if w.contains(pt(p.size, i)) {
            let j = choose|j: int| 0 <= j < w.len() && w[j] == pt(p.size, i);
            if j < v.len() {
                assert(v[j] == pt(p.size, i));
            } else {
                assert(idx(p.size, pt(p.size, i)) == i);
            }
        }
        if i == idx(p.size, q) {
            assert(pt(p.size, i) == q);
        }
    }
    assert(without_points(p, w).board =~= without_points(p, v).board.update(
        idx(p.size, q),
        EMPTY,
    ));
    assert(without_points(p, w).moveno =~= without_points(p, v).moveno.update(idx(p.size, q), 0));
}

/// Entries of a capture list for the given stones.
pub open spec fn cap_entries(p: Pos, v: Seq<Pt>) -> Seq<(u16, i32)> {
    v.map_values(|q: Pt| (idx(p.size, q) as u16, p.moveno[idx(p.size, q)]))
}

/// Takes the chain on (x, y) off the board if it has no liberty, and appends its
/// stones with their move numbers to `caps`. Returns the number of stones taken.
pub fn remove_dead_group(
    pos: &mut Position,
    x: i32,
    y: i32,
    caps: &mut Vec<(u16, i32)>,
) -> (r: i32)
    requires
        old(pos).wf(),
        inb(old(pos)@.size, (x, y)),
    ensures
        final(pos).wf(),
        cell(old(pos)@.size, old(pos)@.board, (x, y)) == EMPTY || has_liberty(
            old(pos)@.size,
            old(pos)@.board,
            (x, y),
        ) ==> r == 0 && final(pos)@ == old(pos)@ && final(caps)@ == old(caps)@,
        cell(old(pos)@.size, old(pos)@.board, (x, y)) != EMPTY && !has_liberty(
            old(pos)@.size,
            old(pos)@.board,
            (x, y),
        ) ==> {
            &&& r == block(old(pos)@.size, old(pos)@.board, (x, y)).len()
            &&& final(pos)@ == without_block(old(pos)@, (x, y))
            &&& final(caps)@ == old(caps)@ + cap_entries(
                old(pos)@,
                block(old(pos)@.size, old(pos)@.board, (x, y)),
            )
        },
        0 <= r <= CELLS,
{
    let ghost p = pos@;
    let ghost q: Pt = (x, y);
    if pos.at(x, y) == EMPTY {
        return 0;
    }
    let mut members: Vec<(i32, i32)> = Vec::new();
    let mut filler: Filler = Filler::new(x, y);
    let (has_lib, count) = filler.run(pos, &mut members);
    proof {
        lemma_flood(p.size, p.board, q);
    }
    if has_lib {
        return 0;
    }
    let ghost list = members@;
    proof {
        lemma_area(p.size);
        assert(list.take(0) =~= Seq::<Pt>::empty());
        assert(pos@ =~= without_points(p, list.take(0)));
        assert(caps@ =~= old(caps)@ + cap_entries(p, list.take(0)));
    }
    let mut k: usize = 0;
    while k < count
        invariant
            pos.wf(),
            p.size == pos@.size,
            pos_ok(p),
            list == members@,
            list == block(p.size, p.board, q),
            count == list.len(),
            list.no_duplicates(),
            count <= CELLS,
            forall|r: Pt| list.contains(r) <==> connected(p.size, p.board, q, r),
            0 <= k <= count,
            pos@ == without_points(p, list.take(k as int)),
            caps@ == old(caps)@ + cap_entries(p, list.take(k as int)),
        decreases count - k,
    {
        let (gx, gy) = members[k];
        proof {
            assert(list.contains(list[k as int]));
            lemma_connected_cell(p.size, p.board, q, list[k as int]);
        }
        let at: usize = index_of(pos.size, gx, gy);
        proof {
            assert(!list.take(k as int).contains(list[k as int])) by {
                if list.take(k as int).contains(list[k as int]) {
                    let j = choose|j: int|
                        0 <= j < k && list.take(k as int)[j] == list[k as int];
                    assert(list[j] == list[k as int]);
                }
            }
            assert(pt(p.size, at as int) == list[k as int]);
            lemma_without_push(p, list.take(k as int), list[k as int]);
            assert(list.take(k + 1) =~= list.take(k as int).push(list[k as int]));
        }
        let mno: i32 = pos.moveno[at];
        pos.board.set(at, EMPTY);
        pos.moveno.set(at, 0);
        caps.push((at as u16, mno));
        proof {
            assert(mno == p.moveno[at as int]);
            assert(caps@ =~= old(caps)@ + cap_entries(p, list.take(k + 1)));
        }
        k = k + 1;
    }
    proof {
        assert(list.take(count as int) =~= list);
        let w = without_block(p, q);
        lemma_area(p.size);
        assert(pos@.board =~= w.board);
        assert(pos@.moveno =~= w.moveno);
    }
    count as i32
}

/// Indices of the stones taken when the first `d` neighbours of `q` have been
/// examined.
pub open spec fn taken_set(s: int, b: Seq<u8>, q: Pt, c: u8, d: int) -> Set<int> {
    Set::new(|i: int| 0 <= i < area(s) && taken_by(s, b, q, c, d, pt(s, i)))
}

/// The position `p` without the stones of a set.
pub open spec fn without_set(p: Pos, taken: Set<int>) -> Pos {
    Pos {
        board: Seq::new(
            p.board.len(),
            |i: int|
                if taken.contains(i) {
                    EMPTY
                } else {
                    p.board[i]
                },
        ),
        moveno: Seq::new(
            p.moveno.len(),
            |i: int|
                if taken.contains(i) {
                    0i32
                } else {
                    p.moveno[i]
                },
        ),
        ..p
    }
}

/// Examining neighbour `d` of `q` on a board from which the stones taken before
/// are gone.
proof fn lemma_taken_step(p: Pos, q: Pt, c: u8, d: int)
    requires
        pos_ok(p),
        inb(p.size, q),
        c == BLACK || c == WHITE,
        0 <= d < 4,
    ensures
        ({
            let s = p.size;
            let b = p.board;
            let n = nb(q, d);
            let now = without_set(p, taken_set(s, b, q, c, d)).board;
            let next = taken_set(s, b, q, c, d + 1);
            if inb(s, n) && cell(s, now, n) == foe(c) {
                &&& forall|r: Pt| connected(s, now, n, r) <==> connected(s, b, n, r)
                &&& forall|r: Pt| connected(s, b, n, r) ==> !taken_by(s, b, q, c, d, r)
                &&& has_liberty(s, now, n) <==> has_liberty(s, b, n)
                &&& has_liberty(s, b, n) ==> next =~= taken_set(s, b, q, c, d)
                &&& !has_liberty(s, b, n) ==> forall|i: int| #[trigger]
                    next.contains(i) <==> taken_set(s, b, q, c, d).contains(i) || (0 <= i < area(s)
                        && connected(s, b, n, pt(s, i)))
            } else {
                next =~= taken_set(s, b, q, c, d)
            }
        }),
{
    let s = p.size;
    let b = p.board;
    let n = nb(q, d);
    let taken = taken_set(s, b, q, c, d);
    let now = without_set(p, taken).board;
    let next = taken_set(s, b, q, c, d + 1);
    let gone = |r: Pt| taken_by(s, b, q, c, d, r);
    lemma_taken_by(s, b, q, c, d);
    lemma_area(s);
    assert forall|r: Pt| #[trigger] taken_by(s, b, q, c, d + 1, r) implies taken_by(
        s,
        b,
        q,
        c,
        d,
        r,
    ) || (connected(s, b, n, r) && cell(s, b, n) == foe(c) && !has_liberty(s, b, n)) by {
        let k = choose|k: int|
            0 <= k < d + 1 && connected(s, b, #[trigger] nb(q, k), r) && cell(s, b, nb(q, k))
                == foe(c) && !has_liberty(s, b, nb(q, k));
        if k < d {
            assert(taken_by(s, b, q, c, d, r));
        }
    }
    assert forall|r: Pt| #[trigger] taken_by(s, b, q, c, d, r) || (connected(s, b, n, r) && cell(
        s,
        b,
        n,
    ) == foe(c) && !has_liberty(s, b, n)) implies taken_by(s, b, q, c, d + 1, r) by {
        if taken_by(s, b, q, c, d, r) {
            let k = choose|k: int|
                0 <= k < d && connected(s, b, #[trigger] nb(q, k), r) && cell(s, b, nb(q, k))
                    == foe(c) && !has_liberty(s, b, nb(q, k));
            assert(0 <= k < d + 1);
        }
    }
    assert forall|r: Pt| inb(s, r) implies (#[trigger] gone(r) ==> cell(s, b, r) == foe(c)
        && cell(s, now, r) == EMPTY) && (!gone(r) ==> cell(s, now, r) == cell(s, b, r)) by {
        assert(pt(s, idx(s, r)) == r);
        assert(taken.contains(idx(s, r)) == gone(r));
    }
    if inb(s, n) && cell(s, now, n) == foe(c) {
        assert(!gone(n));
        lemma_removed(s, b, now, gone, foe(c), n);
        assert forall|r: Pt| connected(s, b, n, r) implies !taken_by(s, b, q, c, d, r) by {
            assert(!gone(r));
        }
    } else if inb(s, n) && gone(n) {
        let inside = |r: Pt| taken_by(s, b, q, c, d, r);
        assert forall|r: Pt| connected(s, b, n, r) implies #[trigger] taken_by(
            s,
            b,
            q,
            c,
            d,
            r,
        ) by {
            lemma_closed(s, b, n, r, inside);
        }
    }
}

/// The capture list after one more chain has been taken.
proof fn lemma_caps_extend(
    p: Pos,
    now: Pos,
    caps: Seq<(u16, i32)>,
    taken: Set<int>,
    next: Set<int>,
    list: Seq<Pt>,
)
    requires
        pos_ok(p),
        now.size == p.size,
        caps_match(caps, taken, p.moveno),
        forall|i: int| #[trigger] taken.contains(i) ==> 0 <= i < area(p.size),
        list.no_duplicates(),
        forall|k: int| 0 <= k < list.len() ==> inb(p.size, #[trigger] list[k]),
        forall|k: int|
            0 <= k < list.len() ==> !taken.contains(idx(p.size, #[trigger] list[k]))
                && now.moveno[idx(p.size, list[k])] == p.moveno[idx(p.size, list[k])],
        forall|i: int| #[trigger]
            next.contains(i) <==> taken.contains(i) || (0 <= i < area(p.size) && list.contains(
                pt(p.size, i),
            )),
    ensures
        caps_match(caps + cap_entries(now, list), next, p.moveno),
{
    let s = p.size;
    let more = cap_entries(now, list);
    let all = caps + more;
    lemma_area(s);
    assert forall|k: int| 0 <= k < list.len() implies (#[trigger] more[k]).0 as int == idx(
        s,
        list[k],
    ) && more[k].1 == p.moveno[idx(s, list[k])] by {
        assert(inb(s, list[k]));
    }
    assert forall|k: int| 0 <= k < all.len() implies next.contains((#[trigger] all[k]).0 as int)
        && all[k].1 == p.moveno[all[k].0 as int] by {
        if k >= caps.len() {
            let j = k - caps.len();
            assert(all[k] == more[j]);
            assert(list.contains(list[j]));
            assert(pt(s, idx(s, list[j])) == list[j]);
        } else {
            assert(all[k] == caps[k]);
        }
    }
    assert forall|j: int, k: int| 0 <= j < k < all.len() implies (#[trigger] all[j]).0 != (
    #[trigger] all[k]).0 by {
        if k < caps.len() {
            assert(caps[j].0 != caps[k].0);
        } else if j < caps.len() {
            assert(all[j] == caps[j]);
            assert(all[k] == more[k - caps.len()]);
            assert(taken.contains(caps[j].0 as int));
        } else {
            let a = list[j - caps.len()];
            let e = list[k - caps.len()];
            assert(all[j] == more[j - caps.len()]);
            assert(all[k] == more[k - caps.len()]);
            assert(a != e);
            assert(pt(s, idx(s, a)) == a && pt(s, idx(s, e)) == e);
        }
    }
    assert forall|i: int| #[trigger] next.contains(i) implies exists|k: int|
        0 <= k < all.len() && (#[trigger] all[k]).0 == i by {
        if taken.contains(i) {
            let k = choose|k: int| 0 <= k < caps.len() && (#[trigger] caps[k]).0 == i;
            assert(all[k].0 == i);
        } else {
            let j = choose|j: int| 0 <= j < list.len() && list[j] == pt(s, i);
            assert(idx(s, list[j]) == i);
            assert(all[caps.len() + j] == more[j]);
        }
    }
}

/// The stones taken, in order, when the first `d` neighbours of `q` have been examined
/// in `p`, where a stone of colour `c` has just been set on `q`.
pub open spec fn taken_list(p: Pos, q: Pt, c: u8, d: nat) -> Seq<(u16, i32)>
    decreases d,
{
    if d == 0 {
        seq![]
    } else {
        let before = taken_list(p, q, c, (d - 1) as nat);
        let now = without_set(p, taken_set(p.size, p.board, q, c, d - 1));
        let n = nb(q, d - 1);
        if inb(p.size, n) && cell(p.size, now.board, n) == foe(c) && !has_liberty(
            p.size,
            now.board,
            n,
        ) {
            before + cap_entries(now, block(p.size, now.board, n))
        } else {
            before
        }
    }
}

/// The stones that a stone of colour `c` on `q` captures, with their numbers, in the
/// order in which they leave the board.
pub open spec fn capture_list(p: Pos, q: Pt, c: u8) -> Seq<(u16, i32)> {
    taken_list(Pos { board: put(p.size, p.board, q, c), ..p }, q, c, 4)
}

/// The list of stones taken names each of them once.
proof fn lemma_taken_list(p: Pos, q: Pt, c: u8, d: nat)
    requires
        pos_ok(p),
        inb(p.size, q),
        c == BLACK || c == WHITE,
        d <= 4,
    ensures
        caps_match(taken_list(p, q, c, d), taken_set(p.size, p.board, q, c, d as int), p.moveno),
    decreases d,
{
    let s = p.size;
    let b = p.board;
    if d == 0 {
        assert(taken_set(s, b, q, c, 0) =~= Set::<int>::empty());
    } else {
        let e = (d - 1) as nat;
        lemma_taken_list(p, q, c, e);
        lemma_taken_step(p, q, c, e as int);
        let n = nb(q, e as int);
        let taken = taken_set(s, b, q, c, e as int);
        let next = taken_set(s, b, q, c, d as int);
        let now = without_set(p, taken);
        if inb(s, n) && cell(s, now.board, n) == foe(c) && !has_liberty(s, now.board, n) {
            let list = block(s, now.board, n);
            lemma_flood(s, now.board, n);
            assert forall|k: int| 0 <= k < list.len() implies inb(s, #[trigger] list[k])
                && !taken.contains(idx(s, list[k])) && now.moveno[idx(s, list[k])] == p.moveno[idx(
                s,
                list[k],
            )] by {
                assert(list.contains(list[k]));
                lemma_connected_cell(s, now.board, n, list[k]);
                assert(connected(s, b, n, list[k]));
                assert(!taken_by(s, b, q, c, e as int, list[k]));
                assert(pt(s, idx(s, list[k])) == list[k]);
            }
            lemma_caps_extend(p, now, taken_list(p, q, c, e), taken, next, list);
        }
    }
}

/// The capture list names each stone that is captured once, with its number.
pub proof fn lemma_capture_list(p: Pos, q: Pt, c: u8)
    requires
        pos_ok(p),
        inb(p.size, q),
        c == BLACK || c == WHITE,
    ensures
        caps_match(capture_list(p, q, c), captures(p.size, p.board, q, c), p.moveno),
        capture_list(p, q, c).len() == captures(p.size, p.board, q, c).len(),
        capture_list(p, q, c).len() <= area(p.size),
        caps_inside(capture_list(p, q, c), p.size),
{
    let s = p.size;
    let b = put(s, p.board, q, c);
    let set = Pos { board: b, ..p };
    let taken = captures(s, p.board, q, c);
    let list = capture_list(p, q, c);
    lemma_area(s);
    assert(pos_ok(set));
    lemma_taken_list(set, q, c, 4);
    lemma_taken_by(s, b, q, c, 4);
    assert(taken_set(s, b, q, c, 4) =~= taken);
    lemma_caps_len(s, list, taken, p.moveno);
    assert forall|k: int| 0 <= k < list.len() implies (#[trigger] list[k]).0 < area(s) by {
        assert(taken.contains(list[k].0 as int));
    }
}

/// Sets a stone of colour `me` on (x, y) and takes the chains of the other colour
/// that it leaves without liberties. Returns the stones taken and, when there is
/// just one, its point.
pub fn set_stone(pos: &mut Position, x: i32, y: i32, me: u8) -> (r: (
    Vec<(u16, i32)>,
    (i32, i32),
))
    requires
        old(pos).wf(),
        inb(old(pos)@.size, (x, y)),
        me == BLACK || me == WHITE,
    ensures
        final(pos).wf(),
        final(pos)@ == stone_set(old(pos)@, (x, y), me),
        r.0@ == capture_list(old(pos)@, (x, y), me),
        caps_match(
            r.0@,
            captures(old(pos)@.size, old(pos)@.board, (x, y), me),
            old(pos)@.moveno,
        ),
        r.0@.len() == captures(old(pos)@.size, old(pos)@.board, (x, y), me).len(),
        r.0@.len() <= CELLS,
        r.0@.len() == 1 ==> r.1 == pt(
            old(pos)@.size,
            captures(old(pos)@.size, old(pos)@.board, (x, y), me).choose(),
        ),
{
    let ghost p0 = pos@;
    let ghost s = p0.size;
    let ghost q: Pt = (x, y);
    let opp: u8 = opponent(me);
    pos.set(x, y, me);
    let ghost p = pos@;
    let ghost b = p.board;
    let mut caps: Vec<(u16, i32)> = Vec::new();
    let mut ko_point: (i32, i32) = (x, y);
    let mut d: usize = 0;
    proof {
        assert(b == put(s, p0.board, q, me));
        assert(taken_set(s, b, q, me, 0) =~= Set::<int>::empty());
        assert(pos@ =~= without_set(p, taken_set(s, b, q, me, 0)));
        assert(p == (Pos { board: b, ..p0 }));
    }
    while d < 4
        invariant
            pos.wf(),
            pos_ok(p),
            s == p.size,
            b == p.board,
            q == (x, y),
            inb(s, q),
            me == BLACK || me == WHITE,
            opp == foe(me),
            0 <= d <= 4,
            pos@ == without_set(p, taken_set(s, b, q, me, d as int)),
            caps@ == taken_list(p, q, me, d as nat),
            caps@.len() == 1 ==> inb(s, ko_point) && caps@[0].0 == idx(s, ko_point),
        decreases 4 - d,
    {
        let (nx, ny) = neighbour(x, y, d);
        let ghost now = pos@;
        let ghost n: Pt = (nx, ny);
        proof {
            lemma_taken_step(p, q, me, d as int);
        }
        if in_board(pos, nx, ny) && pos.at(nx, ny) == opp {
            let ghost caps0 = caps@;
            let c: i32 = remove_dead_group(pos, nx, ny, &mut caps);
            proof {
                lemma_flood(s, now.board, n);
                if !has_liberty(s, b, n) {
                    let list = block(s, now.board, n);
                    let next = taken_set(s, b, q, me, d + 1);
                    assert(pos@ =~= without_set(p, next)) by {
                        assert(pos@.board =~= without_set(p, next).board);
                        assert(pos@.moveno =~= without_set(p, next).moveno);
                    }
                    if list.len() == 1 && caps0.len() == 0 {
                        assert(list[0] == n) by {
                            lemma_connected_refl(s, now.board, n);
                            assert(list.contains(n));
                        }
                    }
                }
            }
            if c == 1 {
                ko_point = (nx, ny);
            }
        }
        d = d + 1;
    }
    proof {
        lemma_taken_list(p, q, me, 4);
        lemma_taken_by(s, b, q, me, 4);
        let taken = captures(s, p0.board, q, me);
        assert(taken_set(s, b, q, me, 4) =~= taken);
        assert(pos@ =~= stone_set(p0, q, me)) by {
            assert(pos@.board =~= stone_set(p0, q, me).board);
            assert(pos@.moveno =~= stone_set(p0, q, me).moveno);
        }
        lemma_caps_len(s, caps@, taken, p0.moveno);
        lemma_area(s);
        if caps@.len() == 1 {
            assert(taken.contains(caps@[0].0 as int));
            let i = taken.choose();
            assert(taken.contains(i));
            let k = choose|k: int| 0 <= k < caps@.len() && (#[trigger] caps@[k]).0 == i;
            assert(k == 0);
        }
    }
    (caps, ko_point)
}

/// What [`untry_play`] needs to take a move back.
pub struct Undo {
    pub turn: u8,
    pub move_count: i32,
    pub last_x: i32,
    pub last_y: i32,
    pub ko_active: bool,
    pub ko_x: i32,
    pub ko_y: i32,
    pub captured_by_black: i32,
    pub captured_by_white: i32,
    pub pass_count: i32,
    /// Index and move number of each stone that the move captured.
    pub captured: Vec<(u16, i32)>,
}

/// The record holds the side to move and the counters of `p`.
pub open spec fn undo_saves(u: Undo, p: Pos) -> bool {
    &&& u.turn == p.turn
    &&& u.move_count == p.move_count
    &&& (u.last_x, u.last_y) == p.last
    &&& u.ko_active == p.ko_active
    &&& (u.ko_x, u.ko_y) == p.ko
    &&& u.captured_by_black == p.captured_by_black
    &&& u.captured_by_white == p.captured_by_white
    &&& u.pass_count == p.pass_count
}

/// The record belongs to the move on `q` in `p`.
pub open spec fn undo_of(u: Undo, p: Pos, q: Pt) -> bool {
    &&& undo_saves(u, p)
    &&& u.captured@ == capture_list(p, q, p.turn)
    &&& caps_match(u.captured@, captures(p.size, p.board, q, p.turn), p.moveno)
    &&& u.captured@.len() == captures(p.size, p.board, q, p.turn).len()
}

/// The board with stones of colour `v` back on the listed points.
pub open spec fn revive_board(b: Seq<u8>, caps: Seq<(u16, i32)>, v: u8) -> Seq<u8>
    decreases caps.len(),
{
    if caps.len() == 0 {
        b
    } else {
        revive_board(b.update(caps.last().0 as int, v), caps.drop_last(), v)
    }
}

/// The move numbers with those of the listed stones back in place.
pub open spec fn revive_numbers(m: Seq<i32>, caps: Seq<(u16, i32)>) -> Seq<i32>
    decreases caps.len(),
{
    if caps.len() == 0 {
        m
    } else {
        revive_numbers(m.update(caps.last().0 as int, caps.last().1), caps.drop_last())
    }
}

/// The position with the stone on `q` gone and the listed stones of colour `v` back.
pub open spec fn stone_unset(p: Pos, q: Pt, caps: Seq<(u16, i32)>, v: u8) -> Pos {
    Pos {
        board: revive_board(put(p.size, p.board, q, EMPTY), caps, v),
        moveno: revive_numbers(p.moveno.update(idx(p.size, q), 0), caps),
        ..p
    }
}

/// The position after the move on `q` has been taken back with the record `u`.
pub open spec fn untried(p: Pos, q: Pt, u: Undo) -> Pos {
    let back = stone_unset(p, q, u.captured@, foe(u.turn));
    Pos {
        size: p.size,
        board: back.board,
        moveno: back.moveno,
        turn: u.turn,
        move_count: u.move_count as int,
        last: (u.last_x, u.last_y),
        ko_active: u.ko_active,
        ko: (u.ko_x, u.ko_y),
        captured_by_black: u.captured_by_black as int,
        captured_by_white: u.captured_by_white as int,
        pass_count: u.pass_count as int,
    }
}

/// All listed indices lie on a board with `s` lines.
pub open spec fn caps_inside(caps: Seq<(u16, i32)>, s: int) -> bool {
    forall|k: int| 0 <= k < caps.len() ==> (#[trigger] caps[k]).0 < area(s)
}

/// Captured stones lie on the board.
pub proof fn lemma_caps_inside(p: Pos, q: Pt, c: u8, caps: Seq<(u16, i32)>)
    requires
        caps_match(caps, captures(p.size, p.board, q, c), p.moveno),
    ensures
        caps_inside(caps, p.size),
{
    assert forall|k: int| 0 <= k < caps.len() implies (#[trigger] caps[k]).0 < area(p.size) by {
        assert(captures(p.size, p.board, q, c).contains(caps[k].0 as int));
    }
}

proof fn lemma_revive_board(b: Seq<u8>, caps: Seq<(u16, i32)>, v: u8)
    requires
        forall|k: int| 0 <= k < caps.len() ==> (#[trigger] caps[k]).0 < b.len(),
    ensures
        revive_board(b, caps, v).len() == b.len(),
        forall|i: int|
            0 <= i < b.len() ==> #[trigger] revive_board(b, caps, v)[i] == if exists|k: int|
                0 <= k < caps.len() && (#[trigger] caps[k]).0 == i {
                v
            } else {
                b[i]
            },
    decreases caps.len(),
{
    if caps.len() > 0 {
        let c = b.update(caps.last().0 as int, v);
        let rest = caps.drop_last();
        assert(forall|k: int| 0 <= k < rest.len() ==> rest[k] == caps[k]);
        lemma_revive_board(c, rest, v);
        assert forall|i: int| 0 <= i < b.len() implies #[trigger] revive_board(b, caps, v)[i]
            == if exists|k: int| 0 <= k < caps.len() && (#[trigger] caps[k]).0 == i {
            v
        } else {
            b[i]
        } by {
            assert(revive_board(c, rest, v)[i] == if exists|k: int|
                0 <= k < rest.len() && (#[trigger] rest[k]).0 == i {
                v
            } else {
                c[i]
            });
            if exists|k: int| 0 <= k < caps.len() && (#[trigger] caps[k]).0 == i {
                let k = choose|k: int| 0 <= k < caps.len() && (#[trigger] caps[k]).0 == i;
                if k < rest.len() {
                    assert(rest[k].0 == i);
                }
            } else {
                assert(caps[caps.len() - 1].0 != i);
                assert forall|k: int| 0 <= k < rest.len() implies (#[trigger] rest[k]).0 != i by {
                    assert(caps[k].0 != i);
                }
            }
        }
    }
}

proof fn lemma_revive_numbers(m: Seq<i32>, caps: Seq<(u16, i32)>)
    requires
        forall|k: int| 0 <= k < caps.len() ==> (#[trigger] caps[k]).0 < m.len(),
    ensures
        revive_numbers(m, caps).len() == m.len(),
        forall|i: int|
            0 <= i < m.len() && (forall|k: int|
                0 <= k < caps.len() ==> (#[trigger] caps[k]).0 != i) ==> #[trigger] revive_numbers(
                m,
                caps,
            )[i] == m[i],
        (forall|j: int, k: int|
            0 <= j < k < caps.len() ==> (#[trigger] caps[j]).0 != (#[trigger] caps[k]).0)
            ==> forall|k: int|
            0 <= k < caps.len() ==> revive_numbers(m, caps)[(#[trigger] caps[k]).0 as int]
                == caps[k].1,
    decreases caps.len(),
{
    if caps.len() > 0 {
        let n = m.update(caps.last().0 as int, caps.last().1);
        let rest = caps.drop_last();
        assert(forall|k: int| 0 <= k < rest.len() ==> rest[k] == caps[k]);
        lemma_revive_numbers(n, rest);
        assert forall|i: int|
            0 <= i < m.len() && (forall|k: int|
                0 <= k < caps.len() ==> (#[trigger] caps[k]).0 != i) implies #[trigger] revive_numbers(
            m,
            caps,
        )[i] == m[i] by {
            assert(caps[caps.len() - 1].0 != i);
            assert forall|k: int| 0 <= k < rest.len() implies (#[trigger] rest[k]).0 != i by {
                assert(caps[k].0 != i);
            }
            assert(revive_numbers(n, rest)[i] == n[i]);
        }
        if forall|j: int, k: int|
            0 <= j < k < caps.len() ==> (#[trigger] caps[j]).0 != (#[trigger] caps[k]).0 {
            assert(forall|j: int, k: int|
                0 <= j < k < rest.len() ==> (#[trigger] rest[j]).0 != (#[trigger] rest[k]).0);
            assert forall|k: int| 0 <= k < caps.len() implies revive_numbers(m, caps)[(
            #[trigger] caps[k]).0 as int] == caps[k].1 by {
                if k < rest.len() {
                    assert(rest[k] == caps[k]);
                } else {
                    assert forall|j: int| 0 <= j < rest.len() implies (#[trigger] rest[j]).0
                        != caps[k].0 by {
                        assert(caps[j].0 != caps[k].0);
                    }
                    assert(revive_numbers(n, rest)[caps[k].0 as int] == n[caps[k].0 as int]);
                }
            }
        }
    }
}

/// A stone just set is still on its point after its captures.
pub proof fn lemma_stone_stays(s: int, b: Seq<u8>, q: Pt, c: u8)
    requires
        inb(s, q),
        s <= MAX,
        b.len() == CELLS,
        c == BLACK || c == WHITE,
    ensures
        !captures(s, b, q, c).contains(idx(s, q)),
        cell(s, board_after(s, b, q, c), q) == c,
{
    lemma_area(s);
    lemma_idx(s, q);
    assert(cell(s, put(s, b, q, c), q) == c);
}

/// A stone that captures has a liberty: the points that it emptied next to it.
pub proof fn lemma_capture_gives_liberty(s: int, b: Seq<u8>, q: Pt, c: u8, i: int)
    requires
        inb(s, q),
        s <= MAX,
        b.len() == CELLS,
        c == BLACK || c == WHITE,
        captures(s, b, q, c).contains(i),
    ensures
        has_liberty(s, board_after(s, b, q, c), q),
{
    let b1 = put(s, b, q, c);
    let b2 = board_after(s, b, q, c);
    let r = pt(s, i);
    let n = choose|n: Pt| #[trigger] connected(s, b1, n, r) && adj(q, n);
    lemma_connected_cell(s, b1, n, r);
    lemma_same_block(s, b1, n, r);
    lemma_connected_refl(s, b1, n);
    assert(dies(s, b1, q, c, n));
    assert(pt(s, idx(s, n)) == n);
    lemma_area(s);
    assert(captures(s, b, q, c).contains(idx(s, n)));
    assert(cell(s, b2, n) == EMPTY);
    lemma_connected_refl(s, b2, q);
    assert(is_liberty(s, b2, q, n));
}

/// Taking a stone that was just set off again and reviving its captures restores the
/// stones and their numbers, whatever number `no` the stone has got.
pub proof fn lemma_stone_unset(p: Pos, q: Pt, c: u8, caps: Seq<(u16, i32)>, no: i32)
    requires
        pos_ok(p),
        inb(p.size, q),
        cell(p.size, p.board, q) == EMPTY,
        c == BLACK || c == WHITE,
        caps_match(caps, captures(p.size, p.board, q, c), p.moveno),
    ensures
        ({
            let after = stone_set(p, q, c);
            let m = after.moveno.update(idx(p.size, q), no);
            &&& revive_board(put(p.size, after.board, q, EMPTY), caps, foe(c)) == p.board
            &&& revive_numbers(m.update(idx(p.size, q), 0), caps) == p.moveno
        }),
{
    let s = p.size;
    let taken = captures(s, p.board, q, c);
    let after = stone_set(p, q, c);
    let b = put(s, after.board, q, EMPTY);
    let m = after.moveno.update(idx(s, q), no).update(idx(s, q), 0);
    let board = revive_board(b, caps, foe(c));
    let moveno = revive_numbers(m, caps);
    lemma_area(s);
    lemma_idx(s, q);
    assert forall|k: int| 0 <= k < caps.len() implies (#[trigger] caps[k]).0 < CELLS by {
        assert(taken.contains(caps[k].0 as int));
    }
    lemma_revive_board(b, caps, foe(c));
    lemma_revive_numbers(m, caps);
    assert forall|i: int| 0 <= i < CELLS implies #[trigger] board[i] == p.board[i] && moveno[i]
        == p.moveno[i] by {
        if taken.contains(i) {
            let k = choose|k: int| 0 <= k < caps.len() && (#[trigger] caps[k]).0 == i;
            assert(caps[k].0 == i);
            let t = pt(s, i);
            assert(idx(s, t) == i);
            assert(cell(s, put(s, p.board, q, c), t) == foe(c));
        } else {
            assert forall|k: int| 0 <= k < caps.len() implies (#[trigger] caps[k]).0 != i by {
                assert(taken.contains(caps[k].0 as int));
            }
            assert(revive_board(b, caps, foe(c))[i] == b[i]);
            assert(revive_numbers(m, caps)[i] == m[i]);
        }
    }
    assert(board =~= p.board);
    assert(moveno =~= p.moveno);
}

/// Taking back a move that was just made restores the position.
pub proof fn law_untry_undoes_try(p: Pos, q: Pt, u: Undo)
    requires
        pos_ok(p),
        play_code(p, q) == OK,
        undo_of(u, p, q),
    ensures
        untried(play_result(p, q), q, u) == p,
{
    lemma_stone_unset(p, q, p.turn, u.captured@, (p.move_count + 1) as i32);
    assert(untried(play_result(p, q), q, u) =~= p);
}

/// The counters have room for one more move.
pub open spec fn counters_fit(p: Pos) -> bool {
    &&& p.move_count < i32::MAX
    &&& p.captured_by_black <= i32::MAX - CELLS
    &&& p.captured_by_white <= i32::MAX - CELLS
}

/// Whether the block that holds (x, y) has a liberty.
pub fn block_has_liberty(pos: &Position, x: i32, y: i32) -> (r: bool)
    requires
        pos.wf(),
        inb(pos@.size, (x, y)),
    ensures
        r == has_liberty(pos@.size, pos@.board, (x, y)),
{
    let mut members: Vec<(i32, i32)> = Vec::new();
    let mut filler: Filler = Filler::new(x, y);
    let (has_lib, _count) = filler.run(pos, &mut members);
    has_lib
}

/// Number of empty points next to (x, y).
fn count_empty_neighbours(pos: &Position, x: i32, y: i32) -> (r: i32)
    requires
        pos.wf(),
        inb(pos@.size, (x, y)),
    ensures
        r == empty_neighbours(pos@.size, pos@.board, (x, y), 4),
{
    let mut libs: i32 = 0;
    let mut d: usize = 0;
    while d < 4
        invariant
            pos.wf(),
            inb(pos@.size, (x, y)),
            0 <= d <= 4,
            0 <= libs <= d,
            libs == empty_neighbours(pos@.size, pos@.board, (x, y), d as nat),
        decreases 4 - d,
    {
        let (nx, ny) = neighbour(x, y, d);
        if in_board(pos, nx, ny) && pos.at(nx, ny) == EMPTY {
            libs = libs + 1;
        }
        d = d + 1;
    }
    libs
}

/// Plays on (x, y) for the side to move under the full rules. Returns the answer
/// code and the record that takes the move back.
pub fn try_play(pos: &mut Position, x: i32, y: i32) -> (r: (i32, Undo))
    requires
        old(pos).wf(),
        counters_fit(old(pos)@),
    ensures
        final(pos).wf(),
        r.0 == play_code(old(pos)@, (x, y)),
        undo_saves(r.1, old(pos)@),
        r.0 != OK ==> final(pos)@ == old(pos)@ && r.1.captured@.len() == 0,
        r.0 == OK ==> final(pos)@ == play_result(old(pos)@, (x, y)) && undo_of(
            r.1,
            old(pos)@,
            (x, y),
        ),
{
    let ghost p = pos@;
    let ghost q: Pt = (x, y);
    let mut u: Undo = Undo {
        turn: pos.turn,
        move_count: pos.move_count,
        last_x: pos.last_x,
        last_y: pos.last_y,
        ko_active: pos.ko_active,
        ko_x: pos.ko_x,
        ko_y: pos.ko_y,
        captured_by_black: pos.captured_by_black,
        captured_by_white: pos.captured_by_white,
        pass_count: pos.pass_count,
        captured: Vec::new(),
    };
    if !in_board(pos, x, y) {
        return (ERR_OFFBOARD, u);
    }
    if pos.at(x, y) != EMPTY {
        return (ERR_OCCUPIED, u);
    }
    if pos.ko_active && x == pos.ko_x && y == pos.ko_y {
        return (ERR_KO, u);
    }
    let me: u8 = pos.turn;
    let at: usize = index_of(pos.size, x, y);
    let (caps, ko_point) = set_stone(pos, x, y, me);
    let ghost taken = captures(p.size, p.board, q, me);
    proof {
        lemma_area(p.size);
        assert(!taken.contains(at as int)) by {
            assert(pt(p.size, at as int) == q);
            assert(cell(p.size, put(p.size, p.board, q, me), q) == me);
        }
    }
    if !block_has_liberty(pos, x, y) {
        proof {
            assert(p.moveno[at as int] == 0);
            assert forall|i: int| !taken.contains(i) by {
                if taken.contains(i) {
                    lemma_capture_gives_liberty(p.size, p.board, q, me, i);
                }
            }
        }
        pos.set(x, y, EMPTY);
        proof {
            assert(pos@.board =~= p.board);
            assert(pos@.moveno =~= p.moveno);
        }
        return (ERR_SUICIDE, u);
    }
    let captured: i32 = caps.len() as i32;
    if captured == 1 {
        let mut members: Vec<(i32, i32)> = Vec::new();
        let mut filler: Filler = Filler::new(x, y);
        let (_lib, cnt) = filler.run(pos, &mut members);
        let libs: i32 = count_empty_neighbours(pos, x, y);
        pos.ko_active = cnt == 1 && libs == 1;
        pos.ko_x = ko_point.0;
        pos.ko_y = ko_point.1;
    } else {
        pos.ko_active = false;
    }
    if me == BLACK {
        pos.captured_by_black = pos.captured_by_black + captured;
    } else {
        pos.captured_by_white = pos.captured_by_white + captured;
    }
    pos.last_x = x;
    pos.last_y = y;
    pos.move_count = pos.move_count + 1;
    pos.moveno.set(at, pos.move_count);
    pos.pass_count = 0;
    pos.turn = opponent(me);
    u.captured = caps;
    proof {
        assert(pos@.board[at as int] == me);
        assert(pos@ =~= play_result(p, q));
    }
    (OK, u)
}

/// Puts the listed stones of colour `v` back on the board with their move numbers.
pub fn revive(pos: &mut Position, caps: &Vec<(u16, i32)>, v: u8)
    requires
        old(pos).wf(),
        caps_inside(caps@, old(pos)@.size),
        v == BLACK || v == WHITE,
    ensures
        final(pos).wf(),
        final(pos)@ == (Pos {
            board: revive_board(old(pos)@.board, caps@, v),
            moveno: revive_numbers(old(pos)@.moveno, caps@),
            ..old(pos)@
        }),
{
    let ghost p = pos@;
    let mut k: usize = caps.len();
    proof {
        assert(caps@.take(k as int) =~= caps@);
    }
    while k > 0
        invariant
            pos.wf(),
            pos_ok(p),
            caps_inside(caps@, p.size),
            v == BLACK || v == WHITE,
            0 <= k <= caps@.len(),
            pos@ == (Pos { board: pos@.board, moveno: pos@.moveno, ..p }),
            revive_board(pos@.board, caps@.take(k as int), v) == revive_board(p.board, caps@, v),
            revive_numbers(pos@.moveno, caps@.take(k as int)) == revive_numbers(p.moveno, caps@),
        decreases k,
    {
        k = k - 1;
        let (i, mno) = caps[k];
        proof {
            lemma_area(p.size);
            assert(caps@.take(k + 1).drop_last() =~= caps@.take(k as int));
            assert(caps@.take(k + 1).last() == caps@[k as int]);
        }
        pos.board.set(i as usize, v);
        pos.moveno.set(i as usize, mno);
    }
    proof {
        assert(caps@.take(0) =~= Seq::<(u16, i32)>::empty());
    }
}

/// Takes back the move on (x, y) that produced the record `u`.
pub fn untry_play(pos: &mut Position, x: i32, y: i32, u: Undo)
    requires
        old(pos).wf(),
        inb(old(pos)@.size, (x, y)),
        caps_inside(u.captured@, old(pos)@.size),
        u.turn == BLACK || u.turn == WHITE,
        0 <= u.move_count,
        0 <= u.captured_by_black,
        0 <= u.captured_by_white,
        0 <= u.pass_count,
    ensures
        final(pos).wf(),
        final(pos)@ == untried(old(pos)@, (x, y), u),
{
    let at: usize = index_of(pos.size, x, y);
    pos.board.set(at, EMPTY);
    pos.moveno.set(at, 0);
    revive(pos, &u.captured, opponent(u.turn));
    pos.turn = u.turn;
    pos.move_count = u.move_count;
    pos.last_x = u.last_x;
    pos.last_y = u.last_y;
    pos.ko_active = u.ko_active;
    pos.ko_x = u.ko_x;
    pos.ko_y = u.ko_y;
    pos.captured_by_black = u.captured_by_black;
    pos.captured_by_white = u.captured_by_white;
    pos.pass_count = u.pass_count;
}

} // verus!
