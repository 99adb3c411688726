//! What the analysis of a position says: the strength and the fate of chains, influence,
//! claims, territory and the estimate.

use crate::board::{
    adj, area, cell, group_points, idx, inb, lemma_area, lemma_nb, nb, pos_ok, pt, Pos, Pt, CELLS,
    EMPTY, MAX,
};
use crate::census::{eye_count, judged_at, law_census_by_chain, lemma_tally, survey, tally, Survey};
use crate::chain::{
    block, connected, friendly, friendly_diagonals, has_contact, has_liberty, is_eye, is_liberty,
    lemma_connected_cell, lemma_connected_refl, lemma_flood, lemma_same_block, liberties,
};
use crate::count::{below, count};
use crate::estimate::{
    analysed, assessed, claims, class_map, class_of, confirmed, eroded, eroded_at, estimate, gaps,
    in_class, live_beside, stone_fate,
};
use crate::game::{State, Study};
use crate::influence::{
    field, influence_map, lemma_field_bounded, lemma_ray_bounded, lemma_steps, lemma_steps_exact,
    radiating, ray, ray_weight, steps, tdiv, within,
};
use crate::liveness::all_alive;
use crate::reading::{lemma_read_ops, read};
use vstd::prelude::*;

verus! {

broadcast use group_points;

/// The empty points next to the chain on `q`.
pub open spec fn breath(s: int, b: Seq<u8>, q: Pt) -> Set<Pt> {
    Set::new(|e: Pt| is_liberty(s, b, q, e))
}

/// The liberties of the chain on `q` that are eyes of its colour.
pub open spec fn eyes(s: int, b: Seq<u8>, q: Pt) -> Set<Pt> {
    Set::new(|e: Pt| is_liberty(s, b, q, e) && is_eye(s, b, e, cell(s, b, q)))
}

/// The eyes among the first `n` listed points.
spec fn first_eyes(s: int, b: Seq<u8>, v: Seq<Pt>, c: u8, n: int) -> Set<Pt> {
    Set::new(|e: Pt| v.take(n).contains(e) && is_eye(s, b, e, c))
}

proof fn lemma_first_eyes(s: int, b: Seq<u8>, v: Seq<Pt>, c: u8, n: nat)
    requires
        v.no_duplicates(),
        n <= v.len(),
    ensures
        first_eyes(s, b, v, c, n as int).finite(),
        first_eyes(s, b, v, c, n as int).len() == eye_count(s, b, v, c, n),
    decreases n,
{
    let now = first_eyes(s, b, v, c, n as int);
    if n == 0 {
        assert(now =~= Set::<Pt>::empty());
    } else {
        let prev = first_eyes(s, b, v, c, n - 1);
        let x = v[n - 1];
        let u = v.take(n - 1);
        let w = v.take(n as int);
        lemma_first_eyes(s, b, v, c, (n - 1) as nat);
        assert(w[n - 1] == x);
        assert forall|e: Pt| #[trigger] w.contains(e) <==> u.contains(e) || e == x by {
            if u.contains(e) {
                let i = choose|i: int| 0 <= i < u.len() && u[i] == e;
                assert(w[i] == e);
            }
            if w.contains(e) && e != x {
                let i = choose|i: int| 0 <= i < w.len() && w[i] == e;
                assert(u[i] == e);
            }
        }
        assert(!u.contains(x)) by {
            if u.contains(x) {
                let i = choose|i: int| 0 <= i < u.len() && u[i] == x;
                assert(v[i] == x);
            }
        }
        if is_eye(s, b, x, c) {
            assert(now =~= prev.insert(x));
        } else {
            assert(now =~= prev);
        }
    }
}

/// The fill lists as many liberties and eyes as there are.
pub proof fn lemma_breath(s: int, b: Seq<u8>, q: Pt)
    requires
        inb(s, q),
        s <= MAX,
        cell(s, b, q) != EMPTY,
    ensures
        breath(s, b, q).finite(),
        breath(s, b, q).len() == liberties(s, b, q).len(),
        eyes(s, b, q).finite(),
        eyes(s, b, q).len() == eye_count(
            s,
            b,
            liberties(s, b, q),
            cell(s, b, q),
            liberties(s, b, q).len(),
        ),
{
    let libs = liberties(s, b, q);
    lemma_flood(s, b, q);
    libs.unique_seq_to_set();
    assert(libs.to_set() =~= breath(s, b, q)) by {
        assert forall|e: Pt| libs.to_set().contains(e) <==> breath(s, b, q).contains(e) by {
            assert(libs.contains(e) <==> is_liberty(s, b, q, e));
        }
    }
    lemma_first_eyes(s, b, libs, cell(s, b, q), libs.len());
    assert(libs.take(libs.len() as int) =~= libs);
    assert(first_eyes(s, b, libs, cell(s, b, q), libs.len() as int) =~= eyes(s, b, q)) by {
        assert forall|e: Pt|
            first_eyes(s, b, libs, cell(s, b, q), libs.len() as int).contains(e) <==> eyes(
                s,
                b,
                q,
            ).contains(e) by {
            assert(libs.contains(e) <==> is_liberty(s, b, q, e));
        }
    }
}

/// All stones of a chain have the same liberties, eyes and contact.
proof fn lemma_same_breath(s: int, b: Seq<u8>, q: Pt, r: Pt)
    requires
        connected(s, b, q, r),
        s <= MAX,
    ensures
        cell(s, b, q) == cell(s, b, r),
        inb(s, r),
        breath(s, b, q) == breath(s, b, r),
        eyes(s, b, q) == eyes(s, b, r),
        has_contact(s, b, q) == has_contact(s, b, r),
{
    lemma_connected_cell(s, b, q, r);
    lemma_same_block(s, b, q, r);
    assert forall|e: Pt| is_liberty(s, b, q, e) <==> is_liberty(s, b, r, e) by {
        if is_liberty(s, b, q, e) {
            let t = choose|t: Pt| #[trigger] connected(s, b, q, t) && adj(t, e);
            assert(connected(s, b, r, t));
        }
        if is_liberty(s, b, r, e) {
            let t = choose|t: Pt| #[trigger] connected(s, b, r, t) && adj(t, e);
            assert(connected(s, b, q, t));
        }
    }
    assert(breath(s, b, q) =~= breath(s, b, r));
    assert(eyes(s, b, q) =~= eyes(s, b, r));
    if has_contact(s, b, q) {
        let (m, e) = choose|m: Pt, e: Pt|
            #[trigger] connected(s, b, q, m) && #[trigger] adj(m, e) && inb(s, e) && cell(s, b, e)
                != EMPTY && cell(s, b, e) != cell(s, b, q);
        assert(connected(s, b, r, m));
    }
    if has_contact(s, b, r) {
        let (m, e) = choose|m: Pt, e: Pt|
            #[trigger] connected(s, b, r, m) && #[trigger] adj(m, e) && inb(s, e) && cell(s, b, e)
                != EMPTY && cell(s, b, e) != cell(s, b, r);
        assert(connected(s, b, q, m));
    }
}

/// The strength of a stone is positive for Black and negative for White, in eighths: 3
/// with one liberty, 6 with two, 7 with three, 8 with four, and 9 with five or more or
/// with four and two eyes among them. A dead stone has 8 for the other side.
pub proof fn law_strength_by_liberties(p: Pos, depth: nat, budget: int, q: Pt)
    requires
        pos_ok(p),
        inb(p.size, q),
        p.board[idx(p.size, q)] != 0,
    ensures
        ({
            let v = survey(p, depth, budget);
            let i = idx(p.size, q);
            let n = breath(p.size, p.board, q).len();
            let k = eyes(p.size, p.board, q).len();
            let own = if p.board[i] == 1 {
                v.strength[i] as int
            } else {
                -(v.strength[i] as int)
            };
            &&& v.dead[i] ==> own == -8
            &&& !v.dead[i] ==> {
                &&& n >= 1
                &&& n == 1 ==> own == 3
                &&& n == 2 ==> own == 6
                &&& n == 3 ==> own == 7
                &&& n == 4 && k < 2 ==> own == 8
                &&& n == 4 && k >= 2 ==> own == 9
                &&& n >= 5 ==> own == 9
            }
        }),
{
    let s = p.size;
    let b = p.board;
    let v = survey(p, depth, budget);
    law_census_by_chain(p, depth, budget, q);
    let i = idx(s, q);
    let h = choose|h: int| #[trigger] judged_at(p, depth, budget, v, i, h);
    assert(judged_at(p, depth, budget, v, i, h));
    let r = pt(s, h);
    assert(pt(s, i) == q);
    lemma_same_breath(s, b, q, r);
    lemma_breath(s, b, r);
}

/// A living stone with more liberties, and no fewer eyes, radiates no less than another.
pub proof fn law_strength_grows_with_liberties(
    p: Pos,
    depth: nat,
    budget: int,
    q: Pt,
    p2: Pos,
    depth2: nat,
    budget2: int,
    r: Pt,
)
    requires
        pos_ok(p),
        inb(p.size, q),
        p.board[idx(p.size, q)] == 1,
        !survey(p, depth, budget).dead[idx(p.size, q)],
        pos_ok(p2),
        inb(p2.size, r),
        p2.board[idx(p2.size, r)] == 1,
        !survey(p2, depth2, budget2).dead[idx(p2.size, r)],
        breath(p.size, p.board, q).len() <= breath(p2.size, p2.board, r).len(),
        eyes(p.size, p.board, q).len() <= eyes(p2.size, p2.board, r).len(),
    ensures
        0 < survey(p, depth, budget).strength[idx(p.size, q)] <= survey(
            p2,
            depth2,
            budget2,
        ).strength[idx(p2.size, r)],
{
    law_strength_by_liberties(p, depth, budget, q);
    law_strength_by_liberties(p2, depth2, budget2, r);
}

/// Which chains count as dead: those without a liberty, and those in contact with the
/// other side that have one liberty, unless that is an eye with all its diagonal points
/// held or off the board. Chains with three liberties, with two of which one is an eye, or
/// with some liberty and no contact live. Only what is left is read out.
pub proof fn law_fate_of_chains(p: Pos, depth: nat, budget: int, q: Pt)
    requires
        pos_ok(p),
        inb(p.size, q),
        p.board[idx(p.size, q)] != 0,
    ensures
        ({
            let v = survey(p, depth, budget);
            let i = idx(p.size, q);
            let c = p.board[i];
            let touched = has_contact(p.size, p.board, q);
            let n = breath(p.size, p.board, q).len();
            &&& n == 0 ==> v.dead[i]
            &&& n >= 1 && !touched ==> !v.dead[i]
            &&& n == 1 && touched ==> (v.dead[i] <==> forall|e: Pt| #[trigger]
                is_liberty(p.size, p.board, q, e) ==> !(is_eye(p.size, p.board, e, c)
                    && friendly_diagonals(p.size, p.board, e, c, 4) == 4))
            &&& n == 2 && eyes(p.size, p.board, q).len() > 0 ==> !v.dead[i]
            &&& n == 2 && depth == 0 ==> !v.dead[i]
            &&& n == 2 && touched && eyes(p.size, p.board, q).len() == 0 && depth > 0 ==> exists|
                r: Pt,
                ops: int,
            |
                connected(p.size, p.board, q, r) && #[trigger] read(
                    p,
                    r,
                    depth,
                    true,
                    ops,
                    budget,
                ).0 == v.dead[i]
            &&& n >= 3 ==> !v.dead[i]
        }),
{
    let s = p.size;
    let b = p.board;
    let v = survey(p, depth, budget);
    law_census_by_chain(p, depth, budget, q);
    let i = idx(s, q);
    let h = choose|h: int| #[trigger] judged_at(p, depth, budget, v, i, h);
    assert(judged_at(p, depth, budget, v, i, h));
    let r = pt(s, h);
    assert(pt(s, i) == q);
    lemma_same_breath(s, b, q, r);
    lemma_breath(s, b, r);
    lemma_flood(s, b, r);
    let libs = liberties(s, b, r);
    let ops = tally(p, depth, budget, h as nat).ops;
    assert forall|e: Pt| is_liberty(s, b, q, e) <==> libs.contains(e) by {
        assert(breath(s, b, q).contains(e) <==> breath(s, b, r).contains(e));
        assert(libs.contains(e) <==> is_liberty(s, b, r, e));
    }
    if libs.len() == 1 {
        assert(libs.contains(libs[0]));
        assert(is_liberty(s, b, q, libs[0]));
        assert forall|e: Pt| #[trigger] is_liberty(s, b, q, e) implies e == libs[0] by {
            assert(libs.contains(e));
        }
    }
    if libs.len() == 2 && has_contact(s, b, q) && eyes(s, b, q).len() == 0 && depth > 0 {
        assert(connected(s, b, q, r) && read(p, r, depth, true, ops, budget).0 == v.dead[i]);
    }
}

/// The point (x, y) is off the board or holds `c`.
pub open spec fn walled(p: Pos, x: int, y: int, c: u8) -> bool {
    0 <= x < p.size && 0 <= y < p.size ==> p.board[y * p.size + x] == c
}

/// The number of walled points among the four diagonal ones.
pub open spec fn walled_corners(p: Pos, q: Pt, c: u8) -> int {
    (if walled(p, q.0 - 1, q.1 - 1, c) {
        1int
    } else {
        0
    }) + (if walled(p, q.0 + 1, q.1 - 1, c) {
        1int
    } else {
        0
    }) + (if walled(p, q.0 - 1, q.1 + 1, c) {
        1int
    } else {
        0
    }) + (if walled(p, q.0 + 1, q.1 + 1, c) {
        1int
    } else {
        0
    })
}

/// The shape of an eye: its four neighbours are walled, and so are all its diagonal points
/// at the edge of the board, or three of them elsewhere.
pub proof fn law_shape_of_an_eye(p: Pos, q: Pt, c: u8)
    requires
        0 < p.size <= MAX,
        inb(p.size, q),
    ensures
        is_eye(p.size, p.board, q, c) <==> {
            &&& walled(p, q.0 - 1, q.1 as int, c)
            &&& walled(p, q.0 + 1, q.1 as int, c)
            &&& walled(p, q.0 as int, q.1 - 1, c)
            &&& walled(p, q.0 as int, q.1 + 1, c)
            &&& walled_corners(p, q, c) >= 3
            &&& q.0 == 0 || q.1 == 0 || q.0 == p.size - 1 || q.1 == p.size - 1 ==> walled_corners(
                p,
                q,
                c,
            ) == 4
        },
        friendly_diagonals(p.size, p.board, q, c, 4) == walled_corners(p, q, c),
{
    reveal(idx);
    reveal_with_fuel(friendly_diagonals, 5);
    if is_eye(p.size, p.board, q, c) {
        assert(friendly(p.size, p.board, nb(q, 0), c));
        assert(friendly(p.size, p.board, nb(q, 1), c));
        assert(friendly(p.size, p.board, nb(q, 2), c));
        assert(friendly(p.size, p.board, nb(q, 3), c));
    }
}

/// One step along a line leads from one point to the other.
pub open spec fn beside(m: Pt, q: Pt) -> bool {
    ||| m.0 == q.0 && (m.1 == q.1 - 1 || m.1 == q.1 + 1)
    ||| m.1 == q.1 && (m.0 == q.0 - 1 || m.0 == q.0 + 1)
}

/// `q` can be reached from `src` by a walk of `n` steps between neighbours, each onto a
/// point that is empty or holds `c`.
pub open spec fn walk(p: Pos, c: u8, src: Pt, q: Pt, n: nat) -> bool
    decreases n,
{
    if n == 0 {
        q == src
    } else {
        &&& 0 <= q.0 < p.size && 0 <= q.1 < p.size
        &&& p.board[q.1 * p.size + q.0] == 0 || p.board[q.1 * p.size + q.0] == c
        &&& exists|m: Pt| walk(p, c, src, m, (n - 1) as nat) && #[trigger] beside(m, q)
    }
}

/// A shortest walk from `src` to `q` has `d` steps.
pub open spec fn apart(p: Pos, c: u8, src: Pt, q: Pt, d: nat) -> bool {
    walk(p, c, src, q, d) && forall|k: nat| k < d ==> !#[trigger] walk(p, c, src, q, k)
}

proof fn lemma_walk_on_board(p: Pos, c: u8, src: Pt, q: Pt, n: nat)
    requires
        walk(p, c, src, q, n),
        inb(p.size, src),
    ensures
        inb(p.size, q),
{
}

proof fn lemma_walk_within(p: Pos, c: u8, src: Pt, q: Pt, n: nat)
    requires
        inb(p.size, src),
    ensures
        walk(p, c, src, q, n) ==> within(p.size, p.board, c, src, q, n),
        within(p.size, p.board, c, src, q, n) <==> exists|k: nat|
            k <= n && #[trigger] walk(p, c, src, q, k),
    decreases n,
{
    let s = p.size;
    let b = p.board;
    reveal(idx);
    if n == 0 {
        if within(s, b, c, src, q, 0) {
            assert(walk(p, c, src, q, 0));
        }
    } else {
        let m1 = (n - 1) as nat;
        lemma_walk_within(p, c, src, q, m1);
        if walk(p, c, src, q, n) {
            let m = choose|m: Pt| walk(p, c, src, m, m1) && #[trigger] beside(m, q);
            lemma_walk_within(p, c, src, m, m1);
            lemma_walk_on_board(p, c, src, m, m1);
            assert(within(s, b, c, src, m, m1) && inb(s, m) && adj(m, q));
            assert(within(s, b, c, src, q, n));
        }
        if within(s, b, c, src, q, n) && !within(s, b, c, src, q, m1) {
            let m = choose|m: Pt| within(s, b, c, src, m, m1) && inb(s, m) && #[trigger] adj(m, q);
            lemma_walk_within(p, c, src, m, m1);
            let k = choose|k: nat| k <= m1 && #[trigger] walk(p, c, src, m, k);
            assert(walk(p, c, src, m, ((k + 1) - 1) as nat) && beside(m, q));
            assert(walk(p, c, src, q, k + 1));
        }
        if exists|k: nat| k <= n && #[trigger] walk(p, c, src, q, k) {
            let k = choose|k: nat| k <= n && #[trigger] walk(p, c, src, q, k);
            if k < n {
                assert(k <= m1 && walk(p, c, src, q, k));
            }
        }
        if within(s, b, c, src, q, m1) {
            let k = choose|k: nat| k <= m1 && #[trigger] walk(p, c, src, q, k);
            assert(k <= n && walk(p, c, src, q, k));
        }
    }
}

proof fn lemma_apart(p: Pos, c: u8, src: Pt, q: Pt, d: nat)
    requires
        inb(p.size, src),
        apart(p, c, src, q, d),
        d <= 8,
    ensures
        steps(p.size, p.board, c, src, q, 8) == d,
{
    lemma_walk_within(p, c, src, q, d);
    if d > 0 {
        lemma_walk_within(p, c, src, q, (d - 1) as nat);
    }
    lemma_steps_exact(p.size, p.board, c, src, q, d, 8);
}

/// No walk of one to eight steps leads from `src` to `q`.
pub open spec fn out_of_reach(p: Pos, c: u8, src: Pt, q: Pt) -> bool {
    forall|k: nat| 1 <= k <= 8 ==> !#[trigger] walk(p, c, src, q, k)
}

/// Influence of a full stone by the number of steps, from 1 to 8.
pub open spec fn reach_of(d: int) -> int {
    seq![12int, 10, 8, 7, 5, 4, 2, 1][d - 1]
}

/// Only the stone with index `j` has strength.
pub open spec fn lone(strength: Seq<i32>, n: int, j: int) -> bool {
    forall|i: int| 0 <= i < n && i != j ==> #[trigger] strength[i] == 0
}

proof fn lemma_lone_field(s: int, b: Seq<u8>, strength: Seq<i32>, q: Pt, k: nat, j: int)
    requires
        lone(strength, k as int, j),
        0 <= j,
    ensures
        field(s, b, strength, q, k) == if j < k {
            ray(s, b, pt(s, j), strength[j] as int, q)
        } else {
            0
        },
    decreases k,
{
    if k > 0 {
        lemma_lone_field(s, b, strength, q, (k - 1) as nat, j);
    }
}

/// A stone alone radiates over the empty points that a walk of at most eight steps, over
/// empty points and its own side's stones, reaches: 12, 10, 8, 7, 5, 4, 2 and 1 at one to
/// eight steps for a strength of 8, and in proportion for others, rounded towards zero. On
/// all other points it has no influence.
pub proof fn law_influence_of_one_stone(
    p: Pos,
    strength: Seq<i32>,
    a: Seq<i32>,
    src: Pt,
    q: Pt,
    d: nat,
)
    requires
        pos_ok(p),
        strength.len() == CELLS,
        a.len() == CELLS,
        forall|i: int| 0 <= i < CELLS ==> -9 <= #[trigger] strength[i] <= 9,
        inb(p.size, src),
        inb(p.size, q),
        lone(strength, CELLS as int, idx(p.size, src)),
    ensures
        ({
            let v = strength[idx(p.size, src)] as int;
            let c: u8 = if v > 0 {
                1
            } else {
                2
            };
            let got = influence_map(p, strength, a)[idx(p.size, q)];
            &&& p.board[idx(p.size, q)] != 0 || v == 0 ==> got == 0
            &&& out_of_reach(p, c, src, q) ==> got == 0
            &&& p.board[idx(p.size, q)] == 0 && apart(p, c, src, q, d) && 1 <= d <= 8 ==> {
                &&& v > 0 ==> 8 * got <= reach_of(d as int) * v < 8 * got + 8
                &&& v < 0 ==> 8 * got - 8 < reach_of(d as int) * v <= 8 * got
            }
        }),
{
    let s = p.size;
    let b = p.board;
    let i = idx(s, q);
    let j = idx(s, src);
    let v = strength[j] as int;
    let c: u8 = if v > 0 {
        1
    } else {
        2
    };
    lemma_area(s);
    assert(pt(s, i) == q && pt(s, j) == src);
    lemma_lone_field(s, b, strength, q, area(s) as nat, j);
    lemma_ray_bounded(s, b, src, v, q);
    let got = influence_map(p, strength, a)[i];
    assert(got == ray(s, b, src, v, q));
    if p.board[i] == 0 && apart(p, c, src, q, d) && 1 <= d <= 8 && v != 0 {
        lemma_apart(p, c, src, q, d);
        assert(d == 1 || d == 2 || d == 3 || d == 4 || d == 5 || d == 6 || d == 7 || d == 8);
        let w = reach_of(d as int);
        assert(w == ray_weight(d as int));
        assert(v > 0 ==> w * v > 0) by (nonlinear_arith)
            requires
                w >= 1,
        ;
        assert(v < 0 ==> w * v < 0) by (nonlinear_arith)
            requires
                w >= 1,
        ;
        assert(got == tdiv(w * v, 8));
    }
    if out_of_reach(p, c, src, q) {
        let e = steps(s, b, c, src, q, 8);
        lemma_walk_within(p, c, src, q, 8);
        if e >= 1 {
            lemma_steps(s, b, c, src, q, 8);
            lemma_walk_within(p, c, src, q, e as nat);
            let k = choose|k: nat| k <= e && #[trigger] walk(p, c, src, q, k);
            assert(k == 0);
            assert(walk(p, c, src, q, 0));
            lemma_walk_within(p, c, src, q, (e - 1) as nat);
        }
    }
}

proof fn lemma_field_adds(
    s: int,
    b: Seq<u8>,
    u: Seq<i32>,
    v: Seq<i32>,
    w: Seq<i32>,
    q: Pt,
    k: nat,
)
    requires
        forall|i: int| 0 <= i < k ==> (#[trigger] u[i] == 0 || v[i] == 0),
        forall|i: int| 0 <= i < k ==> #[trigger] w[i] == u[i] + v[i],
    ensures
        field(s, b, w, q, k) == field(s, b, u, q, k) + field(s, b, v, q, k),
    decreases k,
{
    if k > 0 {
        lemma_field_adds(s, b, u, v, w, q, (k - 1) as nat);
        assert(w[k - 1] == u[k - 1] + v[k - 1]);
    }
}

/// Influence adds up: stones shared out between two sets have together the sum of what
/// the sets have apart.
pub proof fn law_influence_adds_up(
    p: Pos,
    u: Seq<i32>,
    v: Seq<i32>,
    w: Seq<i32>,
    a: Seq<i32>,
    i: int,
)
    requires
        pos_ok(p),
        u.len() == CELLS,
        v.len() == CELLS,
        w.len() == CELLS,
        a.len() == CELLS,
        forall|j: int| 0 <= j < CELLS ==> -9 <= #[trigger] u[j] <= 9,
        forall|j: int| 0 <= j < CELLS ==> -9 <= #[trigger] v[j] <= 9,
        forall|j: int| 0 <= j < CELLS ==> (#[trigger] u[j] == 0 || v[j] == 0),
        forall|j: int| 0 <= j < CELLS ==> #[trigger] w[j] == u[j] + v[j],
        0 <= i < p.size * p.size,
    ensures
        influence_map(p, w, a)[i] == influence_map(p, u, a)[i] + influence_map(p, v, a)[i],
{
    let n = area(p.size) as nat;
    let q = pt(p.size, i);
    lemma_area(p.size);
    reveal(area);
    assert forall|j: int| 0 <= j < CELLS implies -9 <= #[trigger] w[j] <= 9 by {
        assert(-9 <= u[j] <= 9 && -9 <= v[j] <= 9);
    }
    lemma_field_adds(p.size, p.board, u, v, w, q, n);
    lemma_field_bounded(p.size, p.board, u, q, n);
    lemma_field_bounded(p.size, p.board, v, q, n);
    lemma_field_bounded(p.size, p.board, w, q, n);
}

/// No stone has strength for the other side.
spec fn sided(strength: Seq<i32>, k: int, black: bool) -> bool {
    forall|i: int|
        0 <= i < k ==> if black {
            #[trigger] strength[i] >= 0
        } else {
            strength[i] <= 0
        }
}

proof fn lemma_field_one_sided(
    s: int,
    b: Seq<u8>,
    strength: Seq<i32>,
    q: Pt,
    k: nat,
    j: int,
    black: bool,
)
    requires
        sided(strength, k as int, black),
        0 <= j < k,
    ensures
        black ==> field(s, b, strength, q, k) >= ray(s, b, pt(s, j), strength[j] as int, q),
        !black ==> field(s, b, strength, q, k) <= ray(s, b, pt(s, j), strength[j] as int, q),
    decreases k,
{
    lemma_ray_sided(s, b, pt(s, k - 1), strength[k - 1] as int, q);
    assert(black ==> strength[k - 1] >= 0);
    if j == k - 1 {
        lemma_field_sided(s, b, strength, q, (k - 1) as nat, black);
    } else {
        lemma_field_one_sided(s, b, strength, q, (k - 1) as nat, j, black);
    }
}

proof fn lemma_ray_sided(s: int, b: Seq<u8>, src: Pt, strength: int, q: Pt)
    ensures
        strength >= 0 ==> ray(s, b, src, strength, q) >= 0,
        strength <= 0 ==> ray(s, b, src, strength, q) <= 0,
{
    let d = steps(s, b, radiating(strength), src, q, 8);
    let w = ray_weight(d);
    assert(strength >= 0 ==> w * strength >= 0) by (nonlinear_arith)
        requires
            w >= 1,
    ;
    assert(strength <= 0 ==> w * strength <= 0) by (nonlinear_arith)
        requires
            w >= 1,
    ;
}

proof fn lemma_field_sided(s: int, b: Seq<u8>, strength: Seq<i32>, q: Pt, k: nat, black: bool)
    requires
        sided(strength, k as int, black),
    ensures
        black ==> field(s, b, strength, q, k) >= 0,
        !black ==> field(s, b, strength, q, k) <= 0,
    decreases k,
{
    if k > 0 {
        lemma_field_sided(s, b, strength, q, (k - 1) as nat, black);
        lemma_ray_sided(s, b, pt(s, k - 1), strength[k - 1] as int, q);
        assert(black ==> strength[k - 1] >= 0);
    }
}

/// Where only one side has stones and all have liberties, every empty point beside one of
/// its stones has influence for that side.
pub proof fn law_lone_side_has_influence(
    p: Pos,
    depth: nat,
    budget: int,
    a: Seq<i32>,
    c: u8,
    q: Pt,
    r: Pt,
)
    requires
        pos_ok(p),
        a.len() == CELLS,
        c == 1 || c == 2,
        all_alive(p.size, p.board),
        forall|i: int| 0 <= i < p.size * p.size ==> #[trigger] p.board[i] == 0 || p.board[i] == c,
        inb(p.size, q),
        inb(p.size, r),
        adj(q, r),
        p.board[idx(p.size, q)] == c,
        p.board[idx(p.size, r)] == 0,
    ensures
        c == 1 ==> influence_map(p, survey(p, depth, budget).strength, a)[idx(p.size, r)] > 0,
        c == 2 ==> influence_map(p, survey(p, depth, budget).strength, a)[idx(p.size, r)] < 0,
{
    let s = p.size;
    let b = p.board;
    let v = survey(p, depth, budget);
    lemma_area(s);
    reveal(area);
    let n = area(s) as nat;
    assert forall|i: int| 0 <= i < n implies if c == 1 {
        #[trigger] v.strength[i] >= 0
    } else {
        v.strength[i] <= 0
    } by {
        lemma_own_strength(p, depth, budget, c, i);
    }
    assert forall|i: int| 0 <= i < n implies -9 <= #[trigger] v.strength[i] <= 9 by {
        lemma_own_strength(p, depth, budget, c, i);
    }
    let j = idx(s, q);
    let i = idx(s, r);
    assert(pt(s, j) == q && pt(s, i) == r);
    lemma_own_strength(p, depth, budget, c, j);
    lemma_field_one_sided(s, b, v.strength, r, n, j, c == 1);
    assert(walk(p, c, q, r, 1)) by {
        reveal_with_fuel(walk, 2);
        reveal(idx);
        assert(walk(p, c, q, q, 0) && beside(q, r));
    }
    assert(!walk(p, c, q, r, 0));
    assert(apart(p, c, q, r, 1));
    lemma_apart(p, c, q, r, 1);
    lemma_short_field(s, b, v.strength, r, n);
}

proof fn lemma_short_field(s: int, b: Seq<u8>, strength: Seq<i32>, q: Pt, k: nat)
    requires
        forall|i: int| 0 <= i < k ==> -9 <= #[trigger] strength[i] <= 9,
    ensures
        -14 * k <= field(s, b, strength, q, k) <= 14 * k,
    decreases k,
{
    if k > 0 {
        lemma_short_field(s, b, strength, q, (k - 1) as nat);
        lemma_ray_bounded(s, b, pt(s, k - 1), strength[k - 1] as int, q);
    }
}

proof fn lemma_own_strength(p: Pos, depth: nat, budget: int, c: u8, i: int)
    requires
        pos_ok(p),
        c == 1 || c == 2,
        all_alive(p.size, p.board),
        forall|j: int| 0 <= j < p.size * p.size ==> #[trigger] p.board[j] == 0 || p.board[j] == c,
        0 <= i < area(p.size),
    ensures
        ({
            let v = survey(p, depth, budget).strength[i];
            &&& -9 <= v <= 9
            &&& p.board[i] == c && c == 1 ==> v >= 3
            &&& p.board[i] == c && c == 2 ==> v <= -3
            &&& p.board[i] != c ==> v == 0
        }),
{
    let s = p.size;
    let b = p.board;
    let q = pt(s, i);
    lemma_area(s);
    reveal(area);
    assert(idx(s, q) == i);
    law_census_by_chain(p, depth, budget, q);
    if b[i] == c {
        law_strength_by_liberties(p, depth, budget, q);
        law_fate_of_chains(p, depth, budget, q);
        lemma_breath(s, b, q);
        lemma_flood(s, b, q);
        assert(has_liberty(s, b, q));
        if has_contact(s, b, q) {
            let (m, e) = choose|m: Pt, e: Pt|
                #[trigger] connected(s, b, q, m) && #[trigger] adj(m, e) && inb(s, e) && cell(
                    s,
                    b,
                    e,
                ) != EMPTY && cell(s, b, e) != cell(s, b, q);
            assert(b[idx(s, e)] == 0 || b[idx(s, e)] == c);
        }
    }
}

/// What is claimed before erosion: a stone's point with 16 for the side for which it
/// radiates, an empty point with its influence, which counts 16 from 12 on.
pub proof fn law_first_claims(p: Pos, strength: Seq<i32>, influence: Seq<i32>, i: int)
    requires
        0 <= p.size <= MAX,
        0 <= i < p.size * p.size,
    ensures
        ({
            let c = claims(p, strength, influence)[i];
            let f = influence[i];
            &&& p.board[i] != 0 && strength[i] > 0 ==> c == 16
            &&& p.board[i] != 0 && strength[i] < 0 ==> c == -16
            &&& p.board[i] != 0 && strength[i] == 0 ==> c == 0
            &&& p.board[i] == 0 && f >= 12 ==> c == 16
            &&& p.board[i] == 0 && f <= -12 ==> c == -16
            &&& p.board[i] == 0 && -12 < f < 12 ==> c == f
        }),
{
    reveal(area);
}

/// 1 where the point (x, y) of the board has a lower claim than `v`.
pub open spec fn lower(p: Pos, e: Seq<int>, v: int, x: int, y: int) -> int {
    if 0 <= x < p.size && 0 <= y < p.size && e[y * p.size + x] < v {
        1
    } else {
        0
    }
}

/// 1 where the point (x, y) of the board has a higher claim than `v`.
pub open spec fn higher(p: Pos, e: Seq<int>, v: int, x: int, y: int) -> int {
    if 0 <= x < p.size && 0 <= y < p.size && e[y * p.size + x] > v {
        1
    } else {
        0
    }
}

/// In each of eight rounds a claim on an empty point gives way by one for each neighbour
/// that is claimed less for its side, but never beyond 0. Claims on stones stay.
pub proof fn law_round_of_erosion(p: Pos, e: Seq<int>, n: nat, i: int)
    requires
        0 < p.size <= MAX,
        e.len() == p.size * p.size,
        0 <= i < p.size * p.size,
    ensures
        eroded(p, e, 0) == e,
        eroded(p, e, n).len() == e.len(),
        ({
            let prev = eroded(p, e, n);
            let v = prev[i];
            let got = eroded(p, e, n + 1)[i];
            let (x, y) = (pt(p.size, i).0 as int, pt(p.size, i).1 as int);
            let down = lower(p, prev, v, x - 1, y) + lower(p, prev, v, x + 1, y) + lower(
                p,
                prev,
                v,
                x,
                y - 1,
            ) + lower(p, prev, v, x, y + 1);
            let up = higher(p, prev, v, x - 1, y) + higher(p, prev, v, x + 1, y) + higher(
                p,
                prev,
                v,
                x,
                y - 1,
            ) + higher(p, prev, v, x, y + 1);
            &&& p.board[i] != 0 || v == 0 ==> got == v
            &&& p.board[i] == 0 && v > 0 ==> got == if v > down {
                v - down
            } else {
                0
            }
            &&& p.board[i] == 0 && v < 0 ==> got == if v < -up {
                v + up
            } else {
                0
            }
        }),
        forall|strength: Seq<i32>, influence: Seq<i32>| #[trigger]
            confirmed(p, strength, influence) == eroded(p, claims(p, strength, influence), 8),
    decreases n,
{
    reveal(area);
    reveal(idx);
    if n > 0 {
        law_round_of_erosion(p, e, (n - 1) as nat, i);
    }
    let prev = eroded(p, e, n);
    assert(eroded(p, e, n + 1)[i] == eroded_at(p, prev, i)) by {
        reveal_with_fuel(eroded, 2);
    }
    reveal_with_fuel(gaps, 5);
}

/// A living stone of colour `c` stands next to the point with index `i`.
pub open spec fn threatened(p: Pos, dead: Seq<bool>, i: int, c: u8) -> bool {
    exists|r: Pt| #[trigger]
        beside(pt(p.size, i), r) && inb(p.size, r) && p.board[r.1 * p.size + r.0] == c
            && !dead[r.1 * p.size + r.0]
}

/// The class of an empty point: 2 for Black's territory where its confirmed claim is at
/// least 10, but 1 beside a living white stone; 1 where the influence is at least 5; and
/// the same with the signs turned for White; else 0.
pub proof fn law_class_of_a_point(p: Pos, dead: Seq<bool>, e: Seq<int>, influence: Seq<i32>, i: int)
    requires
        0 < p.size <= MAX,
        0 <= i < p.size * p.size,
        p.board[i] == 0,
    ensures
        ({
            let t = class_of(p, dead, e, influence, i);
            let f = influence[i];
            &&& e[i] >= 10 ==> t == if threatened(p, dead, i, 2) {
                1int
            } else {
                2
            }
            &&& e[i] <= -10 ==> t == if threatened(p, dead, i, 1) {
                -1int
            } else {
                -2
            }
            &&& -10 < e[i] < 10 && f >= 5 ==> t == 1
            &&& -10 < e[i] < 10 && f <= -5 ==> t == -1
            &&& -10 < e[i] < 10 && -5 < f < 5 ==> t == 0
        }),
{
    reveal(area);
    lemma_threat(p, dead, i, 1);
    lemma_threat(p, dead, i, 2);
}

proof fn lemma_threat(p: Pos, dead: Seq<bool>, i: int, c: u8)
    requires
        0 < p.size <= MAX,
        0 <= i < area(p.size),
    ensures
        threatened(p, dead, i, c) <==> live_beside(p, dead, pt(p.size, i), c, 4),
{
    let s = p.size;
    let q = pt(s, i);
    reveal(idx);
    if threatened(p, dead, i, c) {
        let r = choose|r: Pt| #[trigger]
            beside(q, r) && inb(s, r) && p.board[r.1 * s + r.0] == c && !dead[r.1 * s + r.0];
        lemma_nb(s, q, r);
        let k: int = if r == nb(q, 0) {
            0
        } else if r == nb(q, 1) {
            1
        } else if r == nb(q, 2) {
            2
        } else {
            3
        };
        assert(0 <= k < 4 && inb(s, nb(q, k)) && nb(q, k) == r);
    }
    if live_beside(p, dead, q, c, 4) {
        let k = choose|k: int|
            0 <= k < 4 && inb(s, #[trigger] nb(q, k)) && cell(s, p.board, nb(q, k)) == c
                && !dead[idx(s, nb(q, k))];
        assert(beside(q, nb(q, k)));
    }
}

/// Points of the territory map of class `t`.
pub open spec fn marked(p: Pos, map: Seq<i8>, t: int) -> int {
    Set::new(|i: int| 0 <= i < p.size * p.size && map[i] == t).len() as int
}

/// Stones of colour `c` on the board that are dead, or that are not.
pub open spec fn fated(p: Pos, dead: Seq<bool>, c: u8, gone: bool) -> int {
    Set::new(|i: int| 0 <= i < p.size * p.size && p.board[i] == c && dead[i] == gone).len() as int
}

/// How the estimate adds up: the points of class 2 or -2 and, under Chinese rules, a
/// side's living stones; under the others its prisoners and the dead stones of the other
/// side. The spheres of influence are the points of class 1 and -1.
pub proof fn law_estimate_adds_up(p: Pos, rule: u8, v: Survey, a: Study)
    requires
        pos_ok(p),
        a.territory.len() == CELLS,
    ensures
        ({
            let (study, est) = assessed(p, rule, v, a);
            let map = study.territory;
            &&& study.est_black == est.black
            &&& study.est_white == est.white
            &&& est.sphere_black == marked(p, map, 1)
            &&& est.sphere_white == marked(p, map, -1)
            &&& rule == 0 ==> est.black == marked(p, map, 2) + fated(p, v.dead, 1, false)
            &&& rule == 0 ==> est.white == marked(p, map, -2) + fated(p, v.dead, 2, false)
            &&& rule != 0 ==> est.black == marked(p, map, 2) + p.captured_by_black + fated(
                p,
                v.dead,
                2,
                true,
            )
            &&& rule != 0 ==> est.white == marked(p, map, -2) + p.captured_by_white + fated(
                p,
                v.dead,
                1,
                true,
            )
        }),
{
    let n = area(p.size);
    let influence = influence_map(p, v.strength, a.influence);
    let e = confirmed(p, v.strength, influence);
    let map = class_map(p, v.dead, e, influence, a.territory);
    reveal(area);
    assert forall|t: int| -2 <= t <= 2 implies #[trigger] marked(p, map, t) == count(
        n,
        in_class(p, v.dead, e, influence, t),
    ) by {
        assert(Set::new(|i: int| 0 <= i < p.size * p.size && map[i] == t) =~= below(
            n,
            in_class(p, v.dead, e, influence, t),
        )) by {
            assert forall|i: int| 0 <= i < n implies -2 <= #[trigger] class_of(
                p,
                v.dead,
                e,
                influence,
                i,
            ) <= 2 && map[i] == class_of(p, v.dead, e, influence, i) by {}
        }
    }
    assert forall|c: u8, gone: bool| #[trigger] fated(p, v.dead, c, gone) == count(
        n,
        stone_fate(p, v.dead, c, gone),
    ) by {
        assert(Set::new(|i: int| 0 <= i < p.size * p.size && p.board[i] == c && v.dead[i] == gone)
            =~= below(n, stone_fate(p, v.dead, c, gone)));
    }
}

/// An analysis works from the census that reads eight moves deep and at most 600
/// positions. Its territory marks and its estimate are those of the influence that it
/// gives, and it touches nothing but itself.
pub proof fn law_analysis_of_a_game(g: State, i: int)
    requires
        pos_ok(g.pos),
        g.analysis.territory.len() == CELLS,
        g.analysis.influence.len() == CELLS,
        0 <= i < g.pos.size * g.pos.size,
    ensures
        ({
            let h = analysed(g);
            let v = survey(g.pos, 8, 600);
            let a = h.analysis;
            let e = eroded(g.pos, claims(g.pos, v.strength, a.influence), 8);
            &&& h == (State { analysis: a, ..g })
            &&& a.influence == influence_map(g.pos, v.strength, g.analysis.influence)
            &&& a.territory[i] == class_of(g.pos, v.dead, e, a.influence, i)
            &&& a.est_black == assessed(g.pos, g.rule, v, g.analysis).1.black
            &&& a.est_white == assessed(g.pos, g.rule, v, g.analysis).1.white
        }),
{
    reveal(area);
}

/// With equal boards and equal fates of the chains, one prisoner more is one point more in
/// the estimate under territory rules, and makes no difference under Chinese rules.
pub proof fn law_estimate_counts_prisoners(
    p: Pos,
    r: Pos,
    rule: u8,
    dead: Seq<bool>,
    e: Seq<int>,
    influence: Seq<i32>,
)
    requires
        p.size == r.size,
        p.board == r.board,
    ensures
        ({
            let x = estimate(p, rule, dead, e, influence);
            let y = estimate(r, rule, dead, e, influence);
            &&& rule == 0 ==> x == y
            &&& rule != 0 ==> y.black - x.black == r.captured_by_black - p.captured_by_black
            &&& rule != 0 ==> y.white - x.white == r.captured_by_white - p.captured_by_white
        }),
{
    assert forall|t: int| #[trigger] in_class(p, dead, e, influence, t) == in_class(
        r,
        dead,
        e,
        influence,
        t,
    ) by {
        assert(in_class(p, dead, e, influence, t) =~= in_class(r, dead, e, influence, t)) by {
            assert forall|i: int| #[trigger] class_of(p, dead, e, influence, i) == class_of(
                r,
                dead,
                e,
                influence,
                i,
            ) by {
                assert(forall|c: u8| #[trigger]
                    live_beside(p, dead, pt(p.size, i), c, 4) == live_beside(
                        r,
                        dead,
                        pt(p.size, i),
                        c,
                        4,
                    ));
            }
        }
    }
    assert forall|c: u8, gone: bool| #[trigger] stone_fate(p, dead, c, gone) == stone_fate(
        r,
        dead,
        c,
        gone,
    ) by {
        assert(stone_fate(p, dead, c, gone) =~= stone_fate(r, dead, c, gone));
    }
}

/// The chains of a census share one budget of positions, from none read, in the order of
/// their first points: what was read for one is never given back to the next.
pub proof fn law_census_shares_one_budget(p: Pos, depth: nat, budget: int, k: nat)
    requires
        pos_ok(p),
        k < p.size * p.size,
    ensures
        tally(p, depth, budget, 0).ops == 0,
        tally(p, depth, budget, k + 1).ops >= tally(p, depth, budget, k).ops,
        tally(p, depth, budget, k).ops >= budget && !tally(p, depth, budget, k).seen[k as int]
            && p.board[k as int] != 0 && breath(p.size, p.board, pt(p.size, k as int)).len() == 2
            ==> !tally(p, depth, budget, k + 1).found.dead[k as int],
{
    let s = p.size;
    let q = pt(s, k as int);
    let t = tally(p, depth, budget, k);
    reveal(area);
    lemma_area(s);
    assert(inb(s, q) && idx(s, q) == k);
    lemma_read_ops(p, q, depth, true, t.ops, budget);
    if p.board[k as int] != 0 {
        lemma_breath(s, p.board, q);
        lemma_flood(s, p.board, q);
        lemma_connected_refl(s, p.board, q);
        assert(block(s, p.board, q).contains(q));
        lemma_tally(p, depth, budget, k);
    }
}

/// An analysis leaves what lies beyond the points of the board as it was.
pub proof fn law_analysis_stays_on_the_board(g: State, i: int)
    requires
        5 <= g.pos.size <= MAX,
        g.analysis.territory.len() == CELLS,
        g.analysis.influence.len() == CELLS,
        g.pos.size * g.pos.size <= i < CELLS,
    ensures
        analysed(g).analysis.influence[i] == g.analysis.influence[i],
        analysed(g).analysis.territory[i] == g.analysis.territory[i],
        analysed(g).analysis.influence.len() == CELLS,
        analysed(g).analysis.territory.len() == CELLS,
{
    reveal(area);
}

/// The census counts, for every stone, the liberties and the stones of its chain, and says
/// whether the chain is in contact; of an empty point it says nothing.
pub proof fn law_census_counts(p: Pos, depth: nat, budget: int, q: Pt)
    requires
        pos_ok(p),
        inb(p.size, q),
    ensures
        ({
            let v = survey(p, depth, budget);
            let i = idx(p.size, q);
            if p.board[i] == 0 {
                v.libs[i] == 0 && v.size[i] == 0 && !v.contact[i] && !v.dead[i] && v.strength[i]
                    == 0
            } else {
                &&& v.libs[i] == breath(p.size, p.board, q).len()
                &&& v.size[i] == Set::new(|e: Pt| connected(p.size, p.board, q, e)).len()
                &&& v.contact[i] == has_contact(p.size, p.board, q)
            }
        }),
{
    let s = p.size;
    let b = p.board;
    law_census_by_chain(p, depth, budget, q);
    if cell(s, b, q) != EMPTY {
        lemma_breath(s, b, q);
        lemma_flood(s, b, q);
        let w = block(s, b, q);
        w.unique_seq_to_set();
        assert(w.to_set() =~= Set::new(|e: Pt| connected(s, b, q, e))) by {
            assert forall|e: Pt| w.to_set().contains(e) <==> connected(s, b, q, e) by {
                assert(w.contains(e) <==> connected(s, b, q, e));
            }
        }
    }
}

} // verus!
