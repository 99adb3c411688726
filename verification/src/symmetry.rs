//! The analysis treats both sides alike: exchanging the colours exchanges the result.

use crate::board::{
    adj, area, cell, foe, group_points, inb, lemma_area, nb, pos_ok, pt, Pos, Pt, BLACK, CELLS,
    EMPTY, MAX, WHITE,
};
use crate::census::{survey_ok, Survey};
use crate::count::{below, count};
use crate::estimate::{
    assessed, claims, class_of, confirmed, eroded, eroded_at, gaps, in_class, live_beside,
    stone_fate, unsupportive, Estimate, EROSION_ROUNDS,
};
use crate::game::{study_ok, Study};
use crate::influence::{
    field, influence_map, lemma_field_bounded, passable, radiating, ray, steps, tdiv, within, RAY_D,
};
use vstd::prelude::*;

verus! {

broadcast use group_points;

/// The other colour, or an empty point.
pub open spec fn recolour(c: u8) -> u8 {
    if c == EMPTY {
        EMPTY
    } else {
        foe(c)
    }
}

/// The board with the colours exchanged.
pub open spec fn recoloured(b: Seq<u8>) -> Seq<u8> {
    b.map_values(|c: u8| recolour(c))
}

/// The position with the colours exchanged.
pub open spec fn exchanged(p: Pos) -> Pos {
    Pos {
        board: recoloured(p.board),
        turn: foe(p.turn),
        captured_by_black: p.captured_by_white,
        captured_by_white: p.captured_by_black,
        ..p
    }
}

pub open spec fn negated(v: Seq<i32>) -> Seq<i32> {
    v.map_values(|x: i32| (-x) as i32)
}

pub open spec fn opposite(e: Seq<int>) -> Seq<int> {
    e.map_values(|x: int| -x)
}

/// A board of the right length with nothing but stones and empty points.
spec fn board_ok(s: int, b: Seq<u8>) -> bool {
    &&& 0 < s <= MAX
    &&& b.len() == CELLS
    &&& forall|i: int| 0 <= i < CELLS ==> #[trigger] b[i] <= WHITE
}

proof fn lemma_recoloured(s: int, b: Seq<u8>, q: Pt)
    requires
        board_ok(s, b),
        inb(s, q),
    ensures
        cell(s, recoloured(b), q) == recolour(cell(s, b, q)),
        cell(s, b, q) <= WHITE,
{
    lemma_area(s);
}

proof fn lemma_within(s: int, b: Seq<u8>, c: u8, src: Pt, q: Pt, n: nat)
    requires
        board_ok(s, b),
        c == BLACK || c == WHITE,
    ensures
        within(s, recoloured(b), foe(c), src, q, n) == within(s, b, c, src, q, n),
    decreases n,
{
    if n > 0 {
        let r = recoloured(b);
        let m = (n - 1) as nat;
        lemma_within(s, b, c, src, q, m);
        if inb(s, q) {
            lemma_recoloured(s, b, q);
        }
        assert(passable(s, r, foe(c), q) == passable(s, b, c, q));
        if within(s, b, c, src, q, n) && !within(s, b, c, src, q, m) {
            let t = choose|t: Pt| within(s, b, c, src, t, m) && inb(s, t) && #[trigger] adj(t, q);
            lemma_within(s, b, c, src, t, m);
            assert(adj(t, q));
        }
        if within(s, r, foe(c), src, q, n) && !within(s, r, foe(c), src, q, m) {
            let t = choose|t: Pt|
                within(s, r, foe(c), src, t, m) && inb(s, t) && #[trigger] adj(t, q);
            lemma_within(s, b, c, src, t, m);
            assert(adj(t, q));
        }
    }
}

proof fn lemma_steps(s: int, b: Seq<u8>, c: u8, src: Pt, q: Pt, n: nat)
    requires
        board_ok(s, b),
        c == BLACK || c == WHITE,
    ensures
        steps(s, recoloured(b), foe(c), src, q, n) == steps(s, b, c, src, q, n),
    decreases n,
{
    if n > 0 {
        lemma_steps(s, b, c, src, q, (n - 1) as nat);
        lemma_within(s, b, c, src, q, n);
    }
}

proof fn lemma_ray(s: int, b: Seq<u8>, src: Pt, w: int, q: Pt)
    requires
        board_ok(s, b),
        inb(s, q),
    ensures
        ray(s, recoloured(b), src, -w, q) == -ray(s, b, src, w, q),
{
    lemma_recoloured(s, b, q);
    lemma_steps(s, b, radiating(w), src, q, RAY_D as nat);
    if w != 0 {
        assert(radiating(-w) == foe(radiating(w)));
    }
    let d = steps(s, b, radiating(w), src, q, RAY_D as nat);
    let x = crate::influence::ray_weight(d);
    assert(x * (-w) == -(x * w)) by (nonlinear_arith);
    assert(tdiv(-(x * w), 8) == -tdiv(x * w, 8));
}

proof fn lemma_field(s: int, b: Seq<u8>, strength: Seq<i32>, q: Pt, k: nat)
    requires
        board_ok(s, b),
        inb(s, q),
        strength.len() == CELLS,
        forall|i: int| 0 <= i < CELLS ==> -9 <= #[trigger] strength[i] <= 9,
        k <= area(s),
    ensures
        field(s, recoloured(b), negated(strength), q, k) == -field(s, b, strength, q, k),
    decreases k,
{
    if k > 0 {
        lemma_area(s);
        lemma_field(s, b, strength, q, (k - 1) as nat);
        lemma_ray(s, b, pt(s, k - 1), strength[k - 1] as int, q);
        assert(negated(strength)[k - 1] == -strength[k - 1]);
    }
}

/// Influence treats both sides alike: with the colours and strengths exchanged it changes
/// its sign on every point.
pub proof fn law_influence_treats_sides_alike(
    p: Pos,
    strength: Seq<i32>,
    a: Seq<i32>,
    b: Seq<i32>,
    i: int,
)
    requires
        pos_ok(p),
        strength.len() == CELLS,
        forall|j: int| 0 <= j < CELLS ==> -9 <= #[trigger] strength[j] <= 9,
        a.len() == CELLS,
        b.len() == CELLS,
        0 <= i < area(p.size),
    ensures
        influence_map(exchanged(p), negated(strength), b)[i] == -influence_map(p, strength, a)[i],
{
    let q = pt(p.size, i);
    let n = area(p.size) as nat;
    lemma_area(p.size);
    lemma_field(p.size, p.board, strength, q, n);
    lemma_field_bounded(p.size, p.board, strength, q, n);
}

proof fn lemma_gaps(s: int, e: Seq<int>, v: int, q: Pt, d: nat)
    requires
        0 < s <= MAX,
        e.len() == area(s),
        d <= 4,
    ensures
        gaps(s, opposite(e), -v, q, d) == gaps(s, e, v, q, d),
    decreases d,
{
    if d > 0 {
        lemma_gaps(s, e, v, q, (d - 1) as nat);
        let r = nb(q, d - 1);
        assert(unsupportive(s, opposite(e), -v, r) == unsupportive(s, e, v, r));
    }
}

proof fn lemma_eroded(p: Pos, e: Seq<int>, n: nat)
    requires
        pos_ok(p),
        e.len() == area(p.size),
    ensures
        eroded(exchanged(p), opposite(e), n) == opposite(eroded(p, e, n)),
        eroded(p, e, n).len() == e.len(),
    decreases n,
{
    if n > 0 {
        lemma_eroded(p, e, (n - 1) as nat);
        lemma_area(p.size);
        let prev = eroded(p, e, (n - 1) as nat);
        let x = exchanged(p);
        assert forall|i: int| 0 <= i < e.len() implies #[trigger] eroded_at(x, opposite(prev), i)
            == -eroded_at(p, prev, i) by {
            lemma_gaps(p.size, prev, prev[i], pt(p.size, i), 4);
            assert(p.board[i] <= WHITE);
            assert(x.board[i] == recolour(p.board[i]));
        }
        assert(eroded(x, opposite(e), n) =~= opposite(eroded(p, e, n)));
    }
}

proof fn lemma_beside(p: Pos, dead: Seq<bool>, q: Pt, c: u8)
    requires
        pos_ok(p),
        c == BLACK || c == WHITE,
    ensures
        live_beside(exchanged(p), dead, q, foe(c), 4) == live_beside(p, dead, q, c, 4),
{
    let x = exchanged(p);
    assert forall|k: int| 0 <= k < 4 && inb(p.size, #[trigger] nb(q, k)) implies cell(
        x.size,
        x.board,
        nb(q, k),
    ) == recolour(cell(p.size, p.board, nb(q, k))) && cell(p.size, p.board, nb(q, k))
        <= WHITE by {
        lemma_recoloured(p.size, p.board, nb(q, k));
    }
}

proof fn lemma_class(p: Pos, dead: Seq<bool>, e: Seq<int>, a: Seq<i32>, b: Seq<i32>, i: int)
    requires
        pos_ok(p),
        e.len() == area(p.size),
        0 <= i < area(p.size),
        b[i] == -a[i],
    ensures
        class_of(exchanged(p), dead, opposite(e), b, i) == -class_of(p, dead, e, a, i),
{
    lemma_area(p.size);
    assert(p.board[i] <= WHITE);
    assert(exchanged(p).board[i] == recolour(p.board[i]));
    lemma_beside(p, dead, pt(p.size, i), WHITE);
    lemma_beside(p, dead, pt(p.size, i), BLACK);
}

/// The analysis treats both sides alike: with the colours exchanged, the influence and the
/// classes change their sign, and the estimates of the two sides are exchanged.
pub proof fn law_analysis_treats_sides_alike(
    p: Pos,
    rule: u8,
    v: Survey,
    w: Survey,
    a: Study,
    b: Study,
)
    requires
        pos_ok(p),
        survey_ok(v),
        w == (Survey { strength: negated(v.strength), ..v }),
        study_ok(a),
        study_ok(b),
    ensures
        ({
            let r = assessed(p, rule, v, a);
            let x = assessed(exchanged(p), rule, w, b);
            &&& forall|i: int|
                0 <= i < area(p.size) ==> #[trigger] x.0.influence[i] == -r.0.influence[i]
            &&& forall|i: int|
                0 <= i < area(p.size) ==> #[trigger] x.0.territory[i] == -r.0.territory[i]
            &&& x.1 == (Estimate {
                black: r.1.white,
                white: r.1.black,
                sphere_black: r.1.sphere_white,
                sphere_white: r.1.sphere_black,
            })
        }),
{
    let n = area(p.size);
    let x = exchanged(p);
    lemma_area(p.size);
    let f = influence_map(p, v.strength, a.influence);
    let g = influence_map(x, w.strength, b.influence);
    assert forall|i: int| 0 <= i < n implies #[trigger] g[i] == -f[i] by {
        law_influence_treats_sides_alike(p, v.strength, a.influence, b.influence, i);
    }
    let e = confirmed(p, v.strength, f);
    let d = confirmed(x, w.strength, g);
    assert(claims(x, w.strength, g) =~= opposite(claims(p, v.strength, f))) by {
        assert forall|i: int| 0 <= i < n implies #[trigger] claims(x, w.strength, g)[i]
            == -claims(p, v.strength, f)[i] by {
            assert(p.board[i] <= WHITE);
            assert(x.board[i] == recolour(p.board[i]));
            assert(w.strength[i] == -v.strength[i]);
            assert(g[i] == -f[i]);
        }
    }
    lemma_eroded(p, claims(p, v.strength, f), EROSION_ROUNDS as nat);
    assert(d == opposite(e));
    assert forall|i: int| 0 <= i < n implies #[trigger] class_of(x, v.dead, d, g, i) == -class_of(
        p,
        v.dead,
        e,
        f,
        i,
    ) by {
        lemma_class(p, v.dead, e, f, g, i);
    }
    assert forall|t: int| #[trigger]
        count(n, in_class(x, v.dead, d, g, t)) == count(n, in_class(p, v.dead, e, f, -t)) by {
        assert(below(n, in_class(x, v.dead, d, g, t)) =~= below(
            n,
            in_class(p, v.dead, e, f, -t),
        ));
    }
    assert forall|c: u8, gone: bool| (c == BLACK || c == WHITE) implies #[trigger] count(
        n,
        stone_fate(x, v.dead, c, gone),
    ) == count(n, stone_fate(p, v.dead, foe(c), gone)) by {
        assert forall|i: int| 0 <= i < n implies #[trigger] x.board[i] == recolour(p.board[i])
            && p.board[i] <= WHITE by {
            assert(p.board[i] <= WHITE);
        }
        assert(below(n, stone_fate(x, v.dead, c, gone)) =~= below(
            n,
            stone_fate(p, v.dead, foe(c), gone),
        ));
    }
    assert(count(n, in_class(x, v.dead, d, g, 2)) == count(n, in_class(p, v.dead, e, f, -2)));
    assert(count(n, in_class(x, v.dead, d, g, -2)) == count(n, in_class(p, v.dead, e, f, 2)));
    assert(count(n, in_class(x, v.dead, d, g, 1)) == count(n, in_class(p, v.dead, e, f, -1)));
    assert(count(n, in_class(x, v.dead, d, g, -1)) == count(n, in_class(p, v.dead, e, f, 1)));
}

} // verus!
