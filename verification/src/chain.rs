//! Chains of stones: connectivity, liberties, and the flood fill that finds them.

use crate::board::{
    adj, area, cell, diag, diagonal, group_points, idx, in_board, inb, lemma_area, lemma_nb, nb,
    neighbour, pt, Position, Pt, CELLS, EMPTY, MAX,
};
use vstd::prelude::*;

verus! {

broadcast use group_points;

/// Two neighbouring points of the board hold the same.
pub open spec fn link(s: int, b: Seq<u8>, q: Pt, r: Pt) -> bool {
    inb(s, q) && inb(s, r) && adj(q, r) && cell(s, b, q) == cell(s, b, r)
}

/// `r` can be reached from `q` by `n` links.
pub open spec fn reach(s: int, b: Seq<u8>, q: Pt, r: Pt, n: nat) -> bool
    decreases n,
{
    if n == 0 {
        q == r
    } else {
        exists|m: Pt| reach(s, b, q, m, (n - 1) as nat) && #[trigger] link(s, b, m, r)
    }
}

/// `r` belongs to the block of like points that contains `q`.
pub open spec fn connected(s: int, b: Seq<u8>, q: Pt, r: Pt) -> bool {
    inb(s, q) && exists|n: nat| reach(s, b, q, r, n)
}

/// `e` is an empty point next to the block of `q`.
pub open spec fn is_liberty(s: int, b: Seq<u8>, q: Pt, e: Pt) -> bool {
    &&& inb(s, e)
    &&& cell(s, b, e) == EMPTY
    &&& exists|r: Pt| #[trigger] connected(s, b, q, r) && adj(r, e)
}

/// The block of `q` has an empty point next to one of its points.
pub open spec fn has_liberty(s: int, b: Seq<u8>, q: Pt) -> bool {
    exists|e: Pt| is_liberty(s, b, q, e)
}

/// The block of `q` has a stone of the other colour next to it.
pub open spec fn has_contact(s: int, b: Seq<u8>, q: Pt) -> bool {
    exists|r: Pt, e: Pt|
        #[trigger] connected(s, b, q, r) && #[trigger] adj(r, e) && inb(s, e) && cell(s, b, e)
            != EMPTY && cell(s, b, e) != cell(s, b, q)
}

pub proof fn lemma_reach_cell(s: int, b: Seq<u8>, q: Pt, r: Pt, n: nat)
    requires
        inb(s, q),
        reach(s, b, q, r, n),
    ensures
        inb(s, r),
        cell(s, b, r) == cell(s, b, q),
    decreases n,
{
    if n > 0 {
        let m = choose|m: Pt| reach(s, b, q, m, (n - 1) as nat) && #[trigger] link(s, b, m, r);
        lemma_reach_cell(s, b, q, m, (n - 1) as nat);
    }
}

/// A block lies on the board and holds one value.
pub proof fn lemma_connected_cell(s: int, b: Seq<u8>, q: Pt, r: Pt)
    requires
        connected(s, b, q, r),
    ensures
        inb(s, q),
        inb(s, r),
        cell(s, b, r) == cell(s, b, q),
{
    let n = choose|n: nat| reach(s, b, q, r, n);
    lemma_reach_cell(s, b, q, r, n);
}

pub proof fn lemma_connected_refl(s: int, b: Seq<u8>, q: Pt)
    requires
        inb(s, q),
    ensures
        connected(s, b, q, q),
{
    assert(reach(s, b, q, q, 0));
}

pub proof fn lemma_connected_step(s: int, b: Seq<u8>, q: Pt, m: Pt, r: Pt)
    requires
        connected(s, b, q, m),
        link(s, b, m, r),
    ensures
        connected(s, b, q, r),
{
    let n = choose|n: nat| reach(s, b, q, m, n);
    assert(reach(s, b, q, m, ((n + 1) - 1) as nat) && link(s, b, m, r));
    assert(reach(s, b, q, r, n + 1));
}

/// Whatever holds of `q` and passes along links holds of the whole block of `q`.
pub proof fn lemma_closed(s: int, b: Seq<u8>, q: Pt, r: Pt, inside: spec_fn(Pt) -> bool)
    requires
        connected(s, b, q, r),
        inside(q),
        forall|m: Pt, t: Pt| #[trigger] inside(m) && #[trigger] link(s, b, m, t) ==> inside(t),
    ensures
        inside(r),
{
    let n = choose|n: nat| reach(s, b, q, r, n);
    lemma_closed_reach(s, b, q, r, n, inside);
}

proof fn lemma_closed_reach(
    s: int,
    b: Seq<u8>,
    q: Pt,
    r: Pt,
    n: nat,
    inside: spec_fn(Pt) -> bool,
)
    requires
        reach(s, b, q, r, n),
        inside(q),
        forall|m: Pt, t: Pt| #[trigger] inside(m) && #[trigger] link(s, b, m, t) ==> inside(t),
    ensures
        inside(r),
    decreases n,
{
    if n > 0 {
        let m = choose|m: Pt| reach(s, b, q, m, (n - 1) as nat) && #[trigger] link(s, b, m, r);
        lemma_closed_reach(s, b, q, m, (n - 1) as nat, inside);
    }
}

/// Belonging to one block is transitive.
pub proof fn lemma_connected_trans(s: int, b: Seq<u8>, q: Pt, m: Pt, r: Pt)
    requires
        connected(s, b, q, m),
        connected(s, b, m, r),
    ensures
        connected(s, b, q, r),
{
    let inside = |t: Pt| connected(s, b, q, t);
    assert forall|t: Pt, u: Pt| #[trigger] inside(t) && #[trigger] link(s, b, t, u) implies inside(
        u,
    ) by {
        lemma_connected_step(s, b, q, t, u);
    }
    lemma_closed(s, b, m, r, inside);
}

/// Belonging to one block is symmetric.
pub proof fn lemma_connected_sym(s: int, b: Seq<u8>, q: Pt, r: Pt)
    requires
        connected(s, b, q, r),
    ensures
        connected(s, b, r, q),
{
    let inside = |t: Pt| connected(s, b, t, q);
    lemma_connected_refl(s, b, q);
    assert forall|t: Pt, u: Pt| #[trigger] inside(t) && #[trigger] link(s, b, t, u) implies inside(
        u,
    ) by {
        lemma_connected_refl(s, b, u);
        assert(link(s, b, u, t));
        lemma_connected_step(s, b, u, u, t);
        lemma_connected_trans(s, b, u, t, q);
    }
    lemma_closed(s, b, q, r, inside);
}

/// All points of a block have the same block, hence the same liberties.
pub proof fn lemma_same_block(s: int, b: Seq<u8>, q: Pt, r: Pt)
    requires
        connected(s, b, q, r),
    ensures
        forall|t: Pt| connected(s, b, q, t) <==> connected(s, b, r, t),
        forall|e: Pt| is_liberty(s, b, q, e) <==> is_liberty(s, b, r, e),
        has_liberty(s, b, q) <==> has_liberty(s, b, r),
{
    lemma_connected_sym(s, b, q, r);
    assert forall|t: Pt| connected(s, b, q, t) <==> connected(s, b, r, t) by {
        if connected(s, b, q, t) {
            lemma_connected_trans(s, b, r, q, t);
        }
        if connected(s, b, r, t) {
            lemma_connected_trans(s, b, q, r, t);
        }
    }
    assert forall|e: Pt| is_liberty(s, b, q, e) <==> is_liberty(s, b, r, e) by {
        if is_liberty(s, b, q, e) {
            let m = choose|m: Pt| #[trigger] connected(s, b, q, m) && adj(m, e);
            assert(connected(s, b, r, m));
        }
        if is_liberty(s, b, r, e) {
            let m = choose|m: Pt| #[trigger] connected(s, b, r, m) && adj(m, e);
            assert(connected(s, b, q, m));
        }
    }
    if has_liberty(s, b, q) {
        let e = choose|e: Pt| is_liberty(s, b, q, e);
        assert(is_liberty(s, b, r, e));
    }
    if has_liberty(s, b, r) {
        let e = choose|e: Pt| is_liberty(s, b, r, e);
        assert(is_liberty(s, b, q, e));
    }
}

/// State of a flood fill: points still to visit, points met so far, the points of
/// the block and its liberties in the order in which they were found, and whether
/// a stone of the other colour was met.
#[verifier::ext_equal]
pub struct Flood {
    pub stack: Seq<Pt>,
    pub seen: Set<Pt>,
    pub members: Seq<Pt>,
    pub libs: Seq<Pt>,
    pub contact: bool,
}

pub open spec fn flood_start(q: Pt) -> Flood {
    Flood {
        stack: seq![q],
        seen: set![q],
        members: seq![],
        libs: seq![],
        contact: false,
    }
}

/// The fill looks at one neighbour `r` of a point of the block.
pub open spec fn flood_look(s: int, b: Seq<u8>, color: u8, f: Flood, r: Pt) -> Flood {
    if !inb(s, r) {
        f
    } else if cell(s, b, r) == color {
        if f.seen.contains(r) {
            f
        } else {
            Flood { seen: f.seen.insert(r), stack: f.stack.push(r), ..f }
        }
    } else if cell(s, b, r) == EMPTY {
        if f.seen.contains(r) {
            f
        } else {
            Flood { seen: f.seen.insert(r), libs: f.libs.push(r), ..f }
        }
    } else {
        Flood { contact: true, ..f }
    }
}

/// The fill looks at the first `d` neighbours of `q`.
pub open spec fn flood_looks(s: int, b: Seq<u8>, color: u8, f: Flood, q: Pt, d: nat) -> Flood
    decreases d,
{
    if d == 0 {
        f
    } else {
        flood_look(
            s,
            b,
            color,
            flood_looks(s, b, color, f, q, (d - 1) as nat),
            nb(q, d - 1),
        )
    }
}

/// The fill takes the point on top of the stack into the block.
pub open spec fn flood_take(f: Flood) -> Flood {
    Flood { stack: f.stack.drop_last(), members: f.members.push(f.stack.last()), ..f }
}

/// At most `n` steps of the fill, each of which visits one point.
pub open spec fn flood_run(s: int, b: Seq<u8>, color: u8, f: Flood, n: nat) -> Flood
    decreases n,
{
    if n == 0 || f.stack.len() == 0 {
        f
    } else {
        flood_run(
            s,
            b,
            color,
            flood_looks(s, b, color, flood_take(f), f.stack.last(), 4),
            (n - 1) as nat,
        )
    }
}

/// The finished fill from `q`.
pub open spec fn flood(s: int, b: Seq<u8>, q: Pt) -> Flood {
    flood_run(s, b, cell(s, b, q), flood_start(q), CELLS as nat)
}

/// The points of the block of `q`, in the order in which the fill visits them.
pub open spec fn block(s: int, b: Seq<u8>, q: Pt) -> Seq<Pt> {
    flood(s, b, q).members
}

/// The liberties of the chain of `q`, in the order in which the fill finds them.
pub open spec fn liberties(s: int, b: Seq<u8>, q: Pt) -> Seq<Pt> {
    flood(s, b, q).libs
}

/// The neighbour `r` of a visited point is accounted for.
pub open spec fn looked(s: int, b: Seq<u8>, color: u8, f: Flood, r: Pt) -> bool {
    inb(s, r) ==> if cell(s, b, r) == color || cell(s, b, r) == EMPTY {
        f.seen.contains(r)
    } else {
        f.contact
    }
}

/// The lists of a fill hold distinct points of the right kind.
pub open spec fn flood_lists(s: int, b: Seq<u8>, q: Pt, f: Flood) -> bool {
    &&& forall|i: int|
        0 <= i < f.members.len() ==> connected(s, b, q, #[trigger] f.members[i]) && f.seen.contains(
            f.members[i],
        )
    &&& forall|i: int|
        0 <= i < f.stack.len() ==> connected(s, b, q, #[trigger] f.stack[i]) && f.seen.contains(
            f.stack[i],
        )
    &&& forall|i: int|
        0 <= i < f.libs.len() ==> is_liberty(s, b, q, #[trigger] f.libs[i]) && f.seen.contains(
            f.libs[i],
        )
    &&& f.libs.len() > 0 ==> cell(s, b, q) != EMPTY
    &&& f.members.no_duplicates()
    &&& f.stack.no_duplicates()
    &&& f.libs.no_duplicates()
    &&& forall|i: int, j: int|
        0 <= i < f.members.len() && 0 <= j < f.stack.len() ==> #[trigger] f.members[i]
            != #[trigger] f.stack[j]
}

/// Every point that a fill has met is on one of its lists.
pub open spec fn flood_seen(s: int, b: Seq<u8>, q: Pt, f: Flood) -> bool {
    &&& forall|r: Pt| #[trigger]
        f.seen.contains(r) ==> f.members.contains(r) || f.stack.contains(r) || f.libs.contains(r)
    &&& f.contact ==> has_contact(s, b, q)
    &&& f.seen.contains(q)
    &&& f.members.len() > 0 || f.stack =~= seq![q]
}

/// The first `d` neighbours of the last visited point, and all neighbours of those
/// visited before, are accounted for.
pub open spec fn flood_looked(s: int, b: Seq<u8>, q: Pt, f: Flood, d: int) -> bool {
    forall|i: int, k: int|
        #![trigger f.members[i], nb(f.members[i], k)]
        0 <= i < f.members.len() && 0 <= k < 4 && (i < f.members.len() - 1 || k < d) ==> looked(
            s,
            b,
            cell(s, b, q),
            f,
            nb(f.members[i], k),
        )
}

/// What holds of a fill from `q` that has looked at the first `d` neighbours of
/// the last visited point.
#[verifier::opaque]
pub open spec fn flood_inv(s: int, b: Seq<u8>, q: Pt, f: Flood, d: int) -> bool {
    &&& flood_lists(s, b, q, f)
    &&& flood_seen(s, b, q, f)
    &&& flood_looked(s, b, q, f, d)
}

proof fn lemma_flood_start(s: int, b: Seq<u8>, q: Pt)
    requires
        inb(s, q),
    ensures
        flood_inv(s, b, q, flood_start(q), 4),
{
    reveal(flood_inv);
    lemma_connected_refl(s, b, q);
    assert(flood_start(q).stack.contains(q)) by {
        assert(flood_start(q).stack[0] == q);
    }
}

proof fn lemma_flood_take(s: int, b: Seq<u8>, q: Pt, f: Flood)
    requires
        flood_inv(s, b, q, f, 4),
        f.stack.len() > 0,
    ensures
        flood_inv(s, b, q, flood_take(f), 0),
        flood_take(f).members.last() == f.stack.last(),
        connected(s, b, q, f.stack.last()),
{
    reveal(flood_inv);
    let g = flood_take(f);
    let n = f.stack.len() - 1;
    let top = f.stack[n];
    assert(forall|i: int| 0 <= i < f.members.len() ==> g.members[i] == f.members[i]);
    assert(g.members[f.members.len() as int] == top);
    assert(forall|j: int| 0 <= j < n ==> g.stack[j] == f.stack[j]);
    assert forall|r: Pt| #[trigger] g.seen.contains(r) implies g.members.contains(r)
        || g.stack.contains(r) || g.libs.contains(r) by {
        if f.members.contains(r) {
            let i = choose|i: int| 0 <= i < f.members.len() && f.members[i] == r;
            assert(g.members[i] == r);
        } else if f.stack.contains(r) {
            let j = choose|j: int| 0 <= j < f.stack.len() && f.stack[j] == r;
            if j == n {
                assert(g.members[f.members.len() as int] == r);
            } else {
                assert(g.stack[j] == r);
            }
        }
    }
    assert forall|i: int, k: int|
        #![trigger g.members[i], nb(g.members[i], k)]
        0 <= i < g.members.len() && 0 <= k < 4 && (i < g.members.len() - 1 || k < 0) implies looked(
        s,
        b,
        cell(s, b, q),
        g,
        nb(g.members[i], k),
    ) by {
        assert(g.members[i] == f.members[i]);
        assert(looked(s, b, cell(s, b, q), f, nb(f.members[i], k)));
    }
}

proof fn lemma_flood_look(s: int, b: Seq<u8>, q: Pt, f: Flood, d: int)
    requires
        flood_inv(s, b, q, f, d),
        f.members.len() > 0,
        0 <= d < 4,
        s <= MAX,
    ensures
        flood_inv(
            s,
            b,
            q,
            flood_look(s, b, cell(s, b, q), f, nb(f.members.last(), d)),
            d + 1,
        ),
        flood_look(s, b, cell(s, b, q), f, nb(f.members.last(), d)).members == f.members,
{
    reveal(flood_inv);
    let color = cell(s, b, q);
    let m = f.members.last();
    let r = nb(m, d);
    let g = flood_look(s, b, color, f, r);
    assert(connected(s, b, q, m)) by {
        assert(m == f.members[f.members.len() - 1]);
    }
    lemma_connected_cell(s, b, q, m);
    lemma_nb(s, m, r);
    if inb(s, r) {
        if cell(s, b, r) == color {
            if !f.seen.contains(r) {
                assert(link(s, b, m, r));
                lemma_connected_step(s, b, q, m, r);
                assert(forall|j: int| 0 <= j < f.stack.len() ==> g.stack[j] == f.stack[j]);
                assert(g.stack[f.stack.len() as int] == r);
            }
        } else if cell(s, b, r) == EMPTY {
            if !f.seen.contains(r) {
                assert(is_liberty(s, b, q, r));
                assert(forall|j: int| 0 <= j < f.libs.len() ==> g.libs[j] == f.libs[j]);
                assert(g.libs[f.libs.len() as int] == r);
            }
        } else {
            assert(has_contact(s, b, q));
        }
    }
    assert(g.stack.no_duplicates());
    assert(g.libs.no_duplicates());
    assert(g.contact ==> has_contact(s, b, q));
    assert forall|t: Pt| #[trigger] g.seen.contains(t) implies g.members.contains(t)
        || g.stack.contains(t) || g.libs.contains(t) by {
        if f.seen.contains(t) {
            if f.stack.contains(t) {
                let j = choose|j: int| 0 <= j < f.stack.len() && f.stack[j] == t;
                assert(g.stack[j] == t);
            } else if f.libs.contains(t) {
                let j = choose|j: int| 0 <= j < f.libs.len() && f.libs[j] == t;
                assert(g.libs[j] == t);
            }
        }
    }
    assert forall|i: int, k: int|
        #![trigger g.members[i], nb(g.members[i], k)]
        0 <= i < g.members.len() && 0 <= k < 4 && (i < g.members.len() - 1 || k < d + 1) implies looked(
        s,
        b,
        color,
        g,
        nb(g.members[i], k),
    ) by {
        if i < f.members.len() - 1 || k < d {
            assert(looked(s, b, color, f, nb(f.members[i], k)));
        }
    }
    assert(flood_lists(s, b, q, g));
    assert(flood_seen(s, b, q, g));
    assert(flood_looked(s, b, q, g, d + 1));
}

proof fn lemma_flood_looks(s: int, b: Seq<u8>, q: Pt, f: Flood, d: nat)
    requires
        flood_inv(s, b, q, f, 0),
        f.members.len() > 0,
        d <= 4,
        s <= MAX,
    ensures
        flood_inv(s, b, q, flood_looks(s, b, cell(s, b, q), f, f.members.last(), d), d as int),
        flood_looks(s, b, cell(s, b, q), f, f.members.last(), d).members == f.members,
    decreases d,
{
    if d > 0 {
        lemma_flood_looks(s, b, q, f, (d - 1) as nat);
        let g = flood_looks(s, b, cell(s, b, q), f, f.members.last(), (d - 1) as nat);
        lemma_flood_look(s, b, q, g, d - 1);
    }
}

/// Distinct points of the board number at most its area.
pub proof fn lemma_points_bounded(s: int, v: Seq<Pt>)
    requires
        0 < s <= MAX,
        v.no_duplicates(),
        forall|i: int| 0 <= i < v.len() ==> inb(s, #[trigger] v[i]),
    ensures
        v.len() <= area(s),
{
    let w = v.map_values(|q: Pt| idx(s, q));
    assert(w.no_duplicates()) by {
        assert forall|i: int, j: int| 0 <= i < w.len() && 0 <= j < w.len() && i != j implies w[i]
            != w[j] by {
            assert(pt(s, idx(s, v[i])) == v[i]);
            assert(pt(s, idx(s, v[j])) == v[j]);
        }
    }
    w.unique_seq_to_set();
    let range = vstd::set_lib::set_int_range(0, area(s));
    vstd::set_lib::lemma_int_range(0, area(s));
    assert(w.to_set().subset_of(range)) by {
        assert forall|x: int| w.to_set().contains(x) implies range.contains(x) by {
            let i = choose|i: int| 0 <= i < w.len() && w[i] == x;
            assert(inb(s, v[i]));
        }
    }
    vstd::set_lib::lemma_len_subset(w.to_set(), range);
}

/// The block and the stack of a fill are distinct points of the board.
proof fn lemma_flood_bounded(s: int, b: Seq<u8>, q: Pt, f: Flood, d: int)
    requires
        flood_inv(s, b, q, f, d),
        inb(s, q),
        s <= MAX,
    ensures
        f.members.len() + f.stack.len() <= area(s),
        f.libs.len() <= area(s),
{
    reveal(flood_inv);
    let v = f.members + f.stack;
    assert forall|i: int| 0 <= i < v.len() implies inb(s, #[trigger] v[i]) by {
        if i < f.members.len() {
            lemma_connected_cell(s, b, q, f.members[i]);
        } else {
            lemma_connected_cell(s, b, q, f.stack[i - f.members.len()]);
        }
    }
    assert(v.no_duplicates());
    lemma_points_bounded(s, v);
    lemma_points_bounded(s, f.libs);
}

/// A fill whose stack is empty has found the whole block and all its liberties.
proof fn lemma_flood_done(s: int, b: Seq<u8>, q: Pt, f: Flood)
    requires
        flood_inv(s, b, q, f, 4),
        f.stack.len() == 0,
        inb(s, q),
        s <= MAX,
    ensures
        f.members.no_duplicates(),
        f.libs.no_duplicates(),
        f.members.len() >= 1,
        forall|r: Pt| f.members.contains(r) <==> connected(s, b, q, r),
        cell(s, b, q) != EMPTY ==> forall|e: Pt|
            f.libs.contains(e) <==> is_liberty(s, b, q, e),
        cell(s, b, q) != EMPTY ==> (f.libs.len() > 0 <==> has_liberty(s, b, q)),
        cell(s, b, q) == EMPTY ==> f.libs.len() == 0 && (f.members.len() > 1 <==> has_liberty(
            s,
            b,
            q,
        )),
        f.contact <==> has_contact(s, b, q),
{
    reveal(flood_inv);
    let color = cell(s, b, q);
    lemma_connected_refl(s, b, q);
    assert forall|r: Pt| f.seen.contains(r) && inb(s, r) && cell(s, b, r)
        == color implies f.members.contains(r) by {
        if f.libs.contains(r) {
            let j = choose|j: int| 0 <= j < f.libs.len() && f.libs[j] == r;
        }
    }
    let inside = |t: Pt| f.members.contains(t);
    assert(inside(q));
    assert forall|t: Pt, u: Pt| #[trigger] inside(t) && #[trigger] link(s, b, t, u) implies inside(
        u,
    ) by {
        let i = choose|i: int| 0 <= i < f.members.len() && f.members[i] == t;
        lemma_connected_cell(s, b, q, f.members[i]);
        lemma_nb(s, t, u);
        let k = choose|k: int| 0 <= k < 4 && u == nb(t, k);
        assert(0 <= k < 4 && u == nb(t, k)) by {
            assert(u == nb(t, 0) || u == nb(t, 1) || u == nb(t, 2) || u == nb(t, 3));
        }
        assert(looked(s, b, color, f, nb(f.members[i], k)));
    }
    assert forall|r: Pt| f.members.contains(r) <==> connected(s, b, q, r) by {
        if connected(s, b, q, r) {
            lemma_closed(s, b, q, r, inside);
        }
    }
    assert forall|r: Pt, e: Pt| connected(s, b, q, r) && adj(r, e) && inb(s, e) implies looked(
        s,
        b,
        color,
        f,
        e,
    ) by {
        assert(f.members.contains(r));
        let i = choose|i: int| 0 <= i < f.members.len() && f.members[i] == r;
        lemma_connected_cell(s, b, q, f.members[i]);
        lemma_nb(s, r, e);
        let k = choose|k: int| 0 <= k < 4 && e == nb(r, k);
        assert(0 <= k < 4 && e == nb(r, k)) by {
            assert(e == nb(r, 0) || e == nb(r, 1) || e == nb(r, 2) || e == nb(r, 3));
        }
        assert(looked(s, b, color, f, nb(f.members[i], k)));
    }
    if color != EMPTY {
        assert forall|e: Pt| f.libs.contains(e) <==> is_liberty(s, b, q, e) by {
            if is_liberty(s, b, q, e) {
                let r = choose|r: Pt| #[trigger] connected(s, b, q, r) && adj(r, e);
                assert(looked(s, b, color, f, e));
                if f.members.contains(e) {
                    lemma_connected_cell(s, b, q, e);
                }
            }
        }
        if f.libs.len() > 0 {
            assert(is_liberty(s, b, q, f.libs[0]));
        }
        if has_liberty(s, b, q) {
            let e = choose|e: Pt| is_liberty(s, b, q, e);
            assert(f.libs.contains(e));
        }
    } else {
        if has_liberty(s, b, q) {
            let e = choose|e: Pt| is_liberty(s, b, q, e);
            let r = choose|r: Pt| #[trigger] connected(s, b, q, r) && adj(r, e);
            lemma_connected_cell(s, b, q, r);
            assert(link(s, b, r, e));
            lemma_connected_step(s, b, q, r, e);
            assert(f.members.contains(e) && f.members.contains(r));
            assert(e != r);
        }
        if f.members.len() > 1 {
            let other = if f.members[0] == q { f.members[1] } else { f.members[0] };
            assert(f.members.contains(other));
            let n = choose|n: nat| reach(s, b, q, other, n);
            assert(n > 0);
            let m = choose|m: Pt|
                reach(s, b, q, m, (n - 1) as nat) && #[trigger] link(s, b, m, other);
            assert(connected(s, b, q, m));
            lemma_connected_cell(s, b, q, m);
            assert(is_liberty(s, b, q, other));
        }
    }
    if has_contact(s, b, q) {
        let (r, e) = choose|r: Pt, e: Pt|
            #[trigger] connected(s, b, q, r) && #[trigger] adj(r, e) && inb(s, e) && cell(s, b, e)
                != EMPTY && cell(s, b, e) != cell(s, b, q);
        assert(looked(s, b, color, f, e));
    }
}

/// With fuel for the rest of the board a fill runs to its end.
proof fn lemma_flood_run(s: int, b: Seq<u8>, q: Pt, f: Flood, n: nat)
    requires
        flood_inv(s, b, q, f, 4),
        inb(s, q),
        s <= MAX,
        n + f.members.len() >= area(s),
    ensures
        flood_inv(s, b, q, flood_run(s, b, cell(s, b, q), f, n), 4),
        flood_run(s, b, cell(s, b, q), f, n).stack.len() == 0,
    decreases n,
{
    lemma_flood_bounded(s, b, q, f, 4);
    if n == 0 || f.stack.len() == 0 {
    } else {
        lemma_flood_take(s, b, q, f);
        let g = flood_take(f);
        lemma_flood_looks(s, b, q, g, 4);
        lemma_flood_run(
            s,
            b,
            q,
            flood_looks(s, b, cell(s, b, q), g, f.stack.last(), 4),
            (n - 1) as nat,
        );
    }
}

/// The fill from `q` finds exactly the block of `q`; for a stone it finds exactly
/// the liberties of its chain and tells whether the chain touches the other colour.
pub proof fn lemma_flood(s: int, b: Seq<u8>, q: Pt)
    requires
        inb(s, q),
        s <= MAX,
    ensures
        block(s, b, q).no_duplicates(),
        liberties(s, b, q).no_duplicates(),
        1 <= block(s, b, q).len() <= area(s),
        liberties(s, b, q).len() <= area(s),
        forall|r: Pt| block(s, b, q).contains(r) <==> connected(s, b, q, r),
        cell(s, b, q) != EMPTY ==> forall|e: Pt|
            liberties(s, b, q).contains(e) <==> is_liberty(s, b, q, e),
        cell(s, b, q) != EMPTY ==> (liberties(s, b, q).len() > 0 <==> has_liberty(s, b, q)),
        cell(s, b, q) == EMPTY ==> (block(s, b, q).len() > 1 <==> has_liberty(s, b, q)),
        flood(s, b, q).contact <==> has_contact(s, b, q),
{
    lemma_flood_start(s, b, q);
    lemma_flood_run(s, b, q, flood_start(q), CELLS as nat);
    lemma_flood_done(s, b, q, flood(s, b, q));
    lemma_flood_bounded(s, b, q, flood(s, b, q), 4);
}

/// Marks on a 19 by 19 grid stand exactly on the points of a set.
pub open spec fn marks(v: Seq<bool>, s: int, seen: Set<Pt>) -> bool {
    &&& v.len() == CELLS
    &&& forall|q: Pt| inb(s, q) ==> (#[trigger] seen.contains(q) <==> v[q.1 * 19 + q.0])
}

/// Working storage of an iterative flood fill.
pub struct Filler {
    pub stack: Vec<(i32, i32)>,
    pub visited: Vec<bool>,
}

/// A block of like points: its points and liberties in the order in which they
/// were found, and whether a stone of the other colour stands next to it.
pub struct Group {
    pub members: Vec<(i32, i32)>,
    pub libs: Vec<(i32, i32)>,
    pub contact: bool,
}

impl Filler {
    /// Ready to fill from `q`.
    pub open spec fn fresh(&self, q: Pt) -> bool {
        &&& self.stack@ == seq![q]
        &&& marks(self.visited@, MAX as int, set![q])
    }

    /// A filler that starts from (x, y).
    pub fn new(x: i32, y: i32) -> (f: Filler)
        requires
            inb(MAX as int, (x, y)),
        ensures
            f.fresh((x, y)),
    {
        let mut visited: Vec<bool> = vec![false; CELLS];
        let at: usize = y as usize * MAX + x as usize;
        visited.set(at, true);
        let mut stack: Vec<(i32, i32)> = Vec::new();
        stack.push((x, y));
        let f = Filler { stack, visited };
        proof {
            assert(f.stack@ =~= seq![(x, y)]);
            assert forall|q: Pt| inb(MAX as int, q) implies (#[trigger] set![(x, y)].contains(q)
                <==> f.visited@[q.1 * 19 + q.0]) by {}
        }
        f
    }

    /// Fills from the start point to the end and hands out what was found.
    fn explore(&mut self, pos: &Position) -> (g: Group)
        requires
            pos.wf(),
            old(self).stack@.len() == 1,
            inb(pos@.size, old(self).stack@[0]),
            old(self).fresh(old(self).stack@[0]),
        ensures
            final(self).stack@ == Seq::<Pt>::empty(),
            marks(
                final(self).visited@,
                pos@.size,
                flood(pos@.size, pos@.board, old(self).stack@[0]).seen,
            ),
            g.members@ == block(pos@.size, pos@.board, old(self).stack@[0]),
            g.libs@ == liberties(pos@.size, pos@.board, old(self).stack@[0]),
            g.contact == flood(pos@.size, pos@.board, old(self).stack@[0]).contact,
    {
        let ghost q = self.stack@[0];
        let ghost s = pos@.size;
        let ghost b = pos@.board;
        let first: (i32, i32) = self.stack[0];
        let color: u8 = pos.at(first.0, first.1);
        let mut members: Vec<(i32, i32)> = Vec::new();
        let mut libs: Vec<(i32, i32)> = Vec::new();
        let mut contact: bool = false;
        let ghost mut f = flood_start(q);
        let ghost mut fuel: nat = CELLS as nat;
        proof {
            lemma_flood_start(s, b, q);
            assert(members@ =~= f.members);
            assert(libs@ =~= f.libs);
            assert forall|r: Pt| inb(s, r) implies (#[trigger] f.seen.contains(r)
                <==> self.visited@[r.1 * 19 + r.0]) by {
                assert(set![q].contains(r) == f.seen.contains(r));
            }
        }
        while self.stack.len() > 0
            invariant
                pos.wf(),
                s == pos@.size,
                b == pos@.board,
                inb(s, q),
                color == cell(s, b, q),
                f.stack == self.stack@,
                f.members == members@,
                f.libs == libs@,
                f.contact == contact,
                marks(self.visited@, s, f.seen),
                flood_inv(s, b, q, f, 4),
                fuel + members@.len() == CELLS,
                flood_run(s, b, color, f, fuel) == flood(s, b, q),
            decreases fuel,
        {
            proof {
                lemma_flood_bounded(s, b, q, f, 4);
                lemma_flood_take(s, b, q, f);
                lemma_connected_cell(s, b, q, f.stack.last());
            }
            let ghost g = flood_take(f);
            let top: (i32, i32) = self.stack[self.stack.len() - 1];
            self.stack.pop();
            members.push(top);
            proof {
                f = g;
                assert(self.stack@ =~= f.stack);
                assert(members@ =~= f.members);
            }
            let mut d: usize = 0;
            while d < 4
                invariant
                    pos.wf(),
                    s == pos@.size,
                    b == pos@.board,
                    inb(s, q),
                    inb(s, top),
                    top == members@.last(),
                    members@.len() > 0,
                    color == cell(s, b, q),
                    f.stack == self.stack@,
                    f.members == members@,
                    f.libs == libs@,
                    f.contact == contact,
                    marks(self.visited@, s, f.seen),
                    0 <= d <= 4,
                    flood_inv(s, b, q, f, d as int),
                    f == flood_looks(s, b, color, g, top, d as nat),
                    members@ == g.members,
                decreases 4 - d,
            {
                let (nx, ny) = neighbour(top.0, top.1, d);
                proof {
                    lemma_flood_look(s, b, q, f, d as int);
                }
                let ghost h = flood_look(s, b, color, f, (nx, ny));
                if in_board(pos, nx, ny) {
                    let v: u8 = pos.at(nx, ny);
                    let at: usize = ny as usize * MAX + nx as usize;
                    proof {
                        assert(f.seen.contains((nx, ny)) <==> self.visited@[at as int]);
                    }
                    if v == color {
                        if !self.visited[at] {
                            self.visited.set(at, true);
                            self.stack.push((nx, ny));
                        }
                    } else if v == EMPTY {
                        if !self.visited[at] {
                            self.visited.set(at, true);
                            libs.push((nx, ny));
                        }
                    } else {
                        contact = true;
                    }
                }
                proof {
                    assert forall|r: Pt| inb(s, r) implies (#[trigger] h.seen.contains(r)
                        <==> self.visited@[r.1 * 19 + r.0]) by {
                        assert(f.seen.contains(r) || !f.seen.contains(r));
                    }
                    f = h;
                }
                d = d + 1;
            }
            proof {
                fuel = (fuel - 1) as nat;
            }
        }
        proof {
            assert(self.stack@ =~= Seq::<Pt>::empty());
            assert(f == flood(s, b, q));
        }
        Group { members, libs, contact }
    }

    /// Visits the block of like points that contains the start point. Returns
    /// whether an empty point lies next to a point of the block, and how many
    /// points the block has; `out_group` then holds those points.
    pub fn run(&mut self, pos: &Position, out_group: &mut Vec<(i32, i32)>) -> (r: (bool, usize))
        requires
            pos.wf(),
            old(self).stack@.len() == 1,
            inb(pos@.size, old(self).stack@[0]),
            old(self).fresh(old(self).stack@[0]),
        ensures
            r.0 == has_liberty(pos@.size, pos@.board, old(self).stack@[0]),
            r.1 == final(out_group)@.len(),
            final(out_group)@ == block(pos@.size, pos@.board, old(self).stack@[0]),
            final(out_group)@.no_duplicates(),
            forall|q: Pt|
                final(out_group)@.contains(q) <==> connected(
                    pos@.size,
                    pos@.board,
                    old(self).stack@[0],
                    q,
                ),
            final(self).stack@ == Seq::<Pt>::empty(),
            marks(
                final(self).visited@,
                pos@.size,
                flood(pos@.size, pos@.board, old(self).stack@[0]).seen,
            ),
    {
        let first: (i32, i32) = self.stack[0];
        proof {
            lemma_flood(pos@.size, pos@.board, first);
        }
        let color: u8 = pos.at(first.0, first.1);
        let g: Group = self.explore(pos);
        let count: usize = g.members.len();
        let has_lib: bool = if color == EMPTY {
            count > 1
        } else {
            g.libs.len() > 0
        };
        *out_group = g.members;
        (has_lib, count)
    }
}

/// The chain of the stone on (x, y): its stones, its liberties, and whether it
/// touches the other colour.
pub fn group_info(pos: &Position, x: i32, y: i32) -> (g: Group)
    requires
        pos.wf(),
        inb(pos@.size, (x, y)),
        cell(pos@.size, pos@.board, (x, y)) != EMPTY,
    ensures
        g.members@ == block(pos@.size, pos@.board, (x, y)),
        g.libs@ == liberties(pos@.size, pos@.board, (x, y)),
        g.contact == has_contact(pos@.size, pos@.board, (x, y)),
        g.members@.no_duplicates(),
        g.libs@.no_duplicates(),
        forall|q: Pt|
            g.members@.contains(q) <==> connected(pos@.size, pos@.board, (x, y), q),
        forall|e: Pt| g.libs@.contains(e) <==> is_liberty(pos@.size, pos@.board, (x, y), e),
        1 <= g.members@.len() <= CELLS,
        g.libs@.len() <= CELLS,
{
    let mut filler: Filler = Filler::new(x, y);
    proof {
        lemma_flood(pos@.size, pos@.board, (x, y));
        lemma_area(pos@.size);
    }
    filler.explore(pos)
}

/// A point off the board or held by `c`.
pub open spec fn friendly(s: int, b: Seq<u8>, q: Pt, c: u8) -> bool {
    inb(s, q) ==> cell(s, b, q) == c
}

/// Number of the first `d` diagonal points of `q` that are off the board or held
/// by `c`.
pub open spec fn friendly_diagonals(s: int, b: Seq<u8>, q: Pt, c: u8, d: nat) -> int
    decreases d,
{
    if d == 0 {
        0
    } else {
        friendly_diagonals(s, b, q, c, (d - 1) as nat) + if friendly(s, b, diag(q, d - 1), c) {
            1int
        } else {
            0
        }
    }
}

/// `q` is an eye of `c`: all neighbours are off the board or held by `c`, and so
/// are all diagonal points at the edge, or at least three in the centre.
pub open spec fn is_eye(s: int, b: Seq<u8>, q: Pt, c: u8) -> bool {
    &&& forall|d: int| 0 <= d < 4 ==> friendly(s, b, #[trigger] nb(q, d), c)
    &&& if q.0 == 0 || q.1 == 0 || q.0 == s - 1 || q.1 == s - 1 {
        friendly_diagonals(s, b, q, c, 4) == 4
    } else {
        friendly_diagonals(s, b, q, c, 4) >= 3
    }
}

/// Number of diagonal points of (x, y) that are off the board or held by `color`.
pub fn count_friendly_diagonals(pos: &Position, x: i32, y: i32, color: u8) -> (own: i32)
    requires
        pos.wf(),
        inb(pos@.size, (x, y)),
    ensures
        own == friendly_diagonals(pos@.size, pos@.board, (x, y), color, 4),
{
    let mut own: i32 = 0;
    let mut k: usize = 0;
    while k < 4
        invariant
            pos.wf(),
            inb(pos@.size, (x, y)),
            0 <= k <= 4,
            0 <= own <= k,
            own == friendly_diagonals(pos@.size, pos@.board, (x, y), color, k as nat),
        decreases 4 - k,
    {
        let (nx, ny) = diagonal(x, y, k);
        if !in_board(pos, nx, ny) || pos.at(nx, ny) == color {
            own = own + 1;
        }
        k = k + 1;
    }
    own
}

/// Whether (x, y) is a simple eye of `color`.
pub fn is_eye_for(pos: &Position, x: i32, y: i32, color: u8) -> (r: bool)
    requires
        pos.wf(),
        inb(pos@.size, (x, y)),
    ensures
        r == is_eye(pos@.size, pos@.board, (x, y), color),
{
    let mut d: usize = 0;
    while d < 4
        invariant
            pos.wf(),
            inb(pos@.size, (x, y)),
            0 <= d <= 4,
            forall|k: int|
                0 <= k < d ==> friendly(pos@.size, pos@.board, #[trigger] nb((x, y), k), color),
        decreases 4 - d,
    {
        let (nx, ny) = neighbour(x, y, d);
        if in_board(pos, nx, ny) && pos.at(nx, ny) != color {
            proof {
                assert(!friendly(pos@.size, pos@.board, nb((x, y), d as int), color));
            }
            return false;
        }
        d = d + 1;
    }
    let s: i32 = pos.size as i32;
    let own: i32 = count_friendly_diagonals(pos, x, y, color);
    if x == 0 || y == 0 || x == s - 1 || y == s - 1 {
        own == 4
    } else {
        own >= 3
    }
}

} // verus!
