//! Influence of the stones over the empty points.

use crate::board::{
    adj, area, area_of, cell, group_points, idx, in_board, inb, index_of, lemma_area, lemma_nb, nb,
    neighbour, point_of, pos_ok, pt, Pos, Position, Pt, BLACK, CELLS, EMPTY, MAX, WHITE,
};
use crate::chain::lemma_points_bounded;
use vstd::prelude::*;

verus! {

broadcast use group_points;

/// Farthest distance at which a stone has influence.
pub const RAY_D: i32 = 8;

/// Quotient rounded towards zero.
pub open spec fn tdiv(a: int, b: int) -> int {
    if a >= 0 {
        a / b
    } else {
        -((-a) / b)
    }
}

/// Influence of a stone of full strength at distance `d`.
pub open spec fn ray_weight(d: int) -> int {
    if d == 1 {
        12
    } else if d == 2 {
        10
    } else if d == 3 {
        8
    } else if d == 4 {
        7
    } else if d == 5 {
        5
    } else if d == 6 {
        4
    } else if d == 7 {
        2
    } else {
        1
    }
}

/// Influence of colour `c` can pass over the point: it is empty or holds `c`.
pub open spec fn passable(s: int, b: Seq<u8>, c: u8, q: Pt) -> bool {
    inb(s, q) && (cell(s, b, q) == EMPTY || cell(s, b, q) == c)
}

/// Influence of colour `c` from `src` gets to `q` in at most `n` steps.
pub open spec fn within(s: int, b: Seq<u8>, c: u8, src: Pt, q: Pt, n: nat) -> bool
    decreases n,
{
    if n == 0 {
        q == src
    } else {
        within(s, b, c, src, q, (n - 1) as nat) || (passable(s, b, c, q) && exists|m: Pt|
            within(s, b, c, src, m, (n - 1) as nat) && inb(s, m) && #[trigger] adj(m, q))
    }
}

/// Least number of steps, at most `n`, in which influence of colour `c` gets from
/// `src` to `q`, or -1.
pub open spec fn steps(s: int, b: Seq<u8>, c: u8, src: Pt, q: Pt, n: nat) -> int
    decreases n,
{
    if n == 0 {
        if q == src {
            0
        } else {
            -1
        }
    } else {
        let d = steps(s, b, c, src, q, (n - 1) as nat);
        if d >= 0 {
            d
        } else if within(s, b, c, src, q, n) {
            n as int
        } else {
            -1
        }
    }
}

/// The colour for which a stone of the given signed strength radiates.
pub open spec fn radiating(strength: int) -> u8 {
    if strength > 0 {
        BLACK
    } else {
        WHITE
    }
}

/// Influence of a stone on `src` with the given signed strength at distance `d`.
pub open spec fn ray_at(s: int, b: Seq<u8>, strength: int, q: Pt, d: int) -> int {
    if strength != 0 && 1 <= d <= RAY_D && cell(s, b, q) == EMPTY {
        tdiv(ray_weight(d) * strength, 8)
    } else {
        0
    }
}

/// Influence of a stone on `src` with the given signed strength on the point `q`.
pub open spec fn ray(s: int, b: Seq<u8>, src: Pt, strength: int, q: Pt) -> int {
    ray_at(s, b, strength, q, steps(s, b, radiating(strength), src, q, RAY_D as nat))
}

/// Net influence on `q` of the stones on the first `k` points.
pub open spec fn field(s: int, b: Seq<u8>, strength: Seq<i32>, q: Pt, k: nat) -> int
    decreases k,
{
    if k == 0 {
        0
    } else {
        field(s, b, strength, q, (k - 1) as nat) + ray(
            s,
            b,
            pt(s, k - 1),
            strength[k - 1] as int,
            q,
        )
    }
}

/// Net influence on every point of the board; the rest of the buffer `a` is kept.
pub open spec fn influence_map(p: Pos, strength: Seq<i32>, a: Seq<i32>) -> Seq<i32> {
    Seq::new(
        a.len(),
        |i: int|
            if 0 <= i < area(p.size) {
                field(p.size, p.board, strength, pt(p.size, i), area(p.size) as nat) as i32
            } else {
                a[i]
            },
    )
}

proof fn lemma_within_mono(s: int, b: Seq<u8>, c: u8, src: Pt, q: Pt, m: nat, n: nat)
    requires
        within(s, b, c, src, q, m),
        m <= n,
    ensures
        within(s, b, c, src, q, n),
    decreases n,
{
    if m < n {
        lemma_within_mono(s, b, c, src, q, m, (n - 1) as nat);
    }
}

pub proof fn lemma_steps(s: int, b: Seq<u8>, c: u8, src: Pt, q: Pt, n: nat)
    ensures
        ({
            let d = steps(s, b, c, src, q, n);
            if within(s, b, c, src, q, n) {
                &&& 0 <= d <= n
                &&& within(s, b, c, src, q, d as nat)
                &&& d > 0 ==> !within(s, b, c, src, q, (d - 1) as nat)
            } else {
                d == -1
            }
        }),
    decreases n,
{
    if n > 0 {
        lemma_steps(s, b, c, src, q, (n - 1) as nat);
    }
}

/// A point first reached after `d` steps is `d` steps away.
pub proof fn lemma_steps_exact(s: int, b: Seq<u8>, c: u8, src: Pt, q: Pt, d: nat, n: nat)
    requires
        within(s, b, c, src, q, d),
        d > 0 ==> !within(s, b, c, src, q, (d - 1) as nat),
        d <= n,
    ensures
        steps(s, b, c, src, q, n) == d,
{
    lemma_within_mono(s, b, c, src, q, d, n);
    lemma_steps(s, b, c, src, q, n);
    let e = steps(s, b, c, src, q, n);
    if e < d {
        lemma_within_mono(s, b, c, src, q, e as nat, (d - 1) as nat);
    } else if d < e {
        lemma_within_mono(s, b, c, src, q, d, (e - 1) as nat);
    }
}

pub proof fn lemma_ray_bounded(s: int, b: Seq<u8>, src: Pt, strength: int, q: Pt)
    requires
        -9 <= strength <= 9,
    ensures
        -14 <= ray(s, b, src, strength, q) <= 14,
{
    let d = steps(s, b, radiating(strength), src, q, RAY_D as nat);
    let w = ray_weight(d);
    assert(-108 <= w * strength <= 108) by (nonlinear_arith)
        requires
            1 <= w <= 12,
            -9 <= strength <= 9,
    ;
}

pub proof fn lemma_field_bounded(s: int, b: Seq<u8>, strength: Seq<i32>, q: Pt, k: nat)
    requires
        k <= strength.len(),
        forall|i: int| 0 <= i < strength.len() ==> -9 <= #[trigger] strength[i] <= 9,
    ensures
        -14 * k <= field(s, b, strength, q, k) <= 14 * k,
    decreases k,
{
    if k > 0 {
        lemma_field_bounded(s, b, strength, q, (k - 1) as nat);
        lemma_ray_bounded(s, b, pt(s, k - 1), strength[k - 1] as int, q);
    }
}

/// One of the first `h` entries of a queue is for the point `q`.
pub open spec fn queued(v: Seq<(i32, i32, i32)>, h: int, q: Pt) -> bool {
    exists|j: int| 0 <= j < h && (#[trigger] v[j]).0 == q.0 && v[j].1 == q.1
}

/// The point of a queue entry.
pub open spec fn spot(e: (i32, i32, i32)) -> Pt {
    (e.0, e.1)
}

/// What holds of the queue of a breadth-first flood from `src` of which the first
/// `head` entries have been handled: every entry has its distance, distances do not
/// decrease, and no point is entered twice.
pub open spec fn queue_inv(
    s: int,
    b: Seq<u8>,
    c: u8,
    src: Pt,
    v: Seq<(i32, i32, i32)>,
    head: int,
) -> bool {
    &&& v.len() > 0
    &&& spot(v[0]) == src
    &&& forall|i: int|
        0 <= i < v.len() ==> {
            &&& inb(s, spot(#[trigger] v[i]))
            &&& 0 <= v[i].2 <= RAY_D
            &&& within(s, b, c, src, spot(v[i]), v[i].2 as nat)
            &&& v[i].2 > 0 ==> !within(s, b, c, src, spot(v[i]), (v[i].2 - 1) as nat)
        }
    &&& forall|i: int, j: int|
        0 <= i <= j < v.len() ==> (#[trigger] v[i]).2 <= (#[trigger] v[j]).2
    &&& forall|i: int, j: int|
        0 <= i < j < v.len() ==> spot(#[trigger] v[i]) != spot(#[trigger] v[j])
    &&& head < v.len() ==> forall|j: int| 0 <= j < v.len() ==> (#[trigger] v[j]).2 <= v[head].2 + 1
}

/// All passable neighbours of the first `head` entries, and the first `d` neighbours
/// of the next entry, are in the queue, as far as influence reaches.
pub open spec fn spread(
    s: int,
    b: Seq<u8>,
    c: u8,
    v: Seq<(i32, i32, i32)>,
    head: int,
    d: int,
) -> bool {
    forall|i: int, k: int|
        #![trigger v[i], nb(spot(v[i]), k)]
        0 <= i < v.len() && 0 <= k < 4 && v[i].2 < RAY_D && (i < head || (i == head && k < d))
            && passable(s, b, c, nb(spot(v[i]), k)) ==> queued(
            v,
            v.len() as int,
            nb(spot(v[i]), k),
        )
}

/// While an entry at distance `d` is next, every point at most `d` steps away is in
/// the queue.
proof fn lemma_ball_queued(
    s: int,
    b: Seq<u8>,
    c: u8,
    src: Pt,
    v: Seq<(i32, i32, i32)>,
    head: int,
    d: int,
    q: Pt,
    n: nat,
)
    requires
        s <= MAX,
        queue_inv(s, b, c, src, v, head),
        spread(s, b, c, v, head, 0),
        0 <= head <= v.len(),
        d <= RAY_D,
        forall|i: int| head <= i < v.len() ==> d <= (#[trigger] v[i]).2,
        within(s, b, c, src, q, n),
        n <= d,
    ensures
        queued(v, v.len() as int, q),
    decreases n,
{
    if n == 0 {
        assert(v[0].0 == q.0 && v[0].1 == q.1);
    } else if within(s, b, c, src, q, (n - 1) as nat) {
        lemma_ball_queued(s, b, c, src, v, head, d, q, (n - 1) as nat);
    } else {
        let m = choose|m: Pt|
            within(s, b, c, src, m, (n - 1) as nat) && inb(s, m) && #[trigger] adj(m, q);
        lemma_ball_queued(s, b, c, src, v, head, d, m, (n - 1) as nat);
        let i = choose|i: int|
            0 <= i < v.len() && (#[trigger] v[i]).0 == m.0 && v[i].1 == m.1;
        assert(spot(v[i]) == m);
        if v[i].2 > n - 1 {
            lemma_within_mono(s, b, c, src, m, (n - 1) as nat, (v[i].2 - 1) as nat);
        }
        assert(i < head);
        lemma_nb(s, m, q);
        let k = choose|k: int| 0 <= k < 4 && q == nb(m, k);
        assert(0 <= k < 4 && q == nb(m, k)) by {
            assert(q == nb(m, 0) || q == nb(m, 1) || q == nb(m, 2) || q == nb(m, 3));
        }
        assert(queued(v, v.len() as int, nb(spot(v[i]), k)));
    }
}

/// Entering a neighbour `r` of the next entry that is not yet in the queue.
proof fn lemma_enqueue(
    s: int,
    b: Seq<u8>,
    c: u8,
    src: Pt,
    v: Seq<(i32, i32, i32)>,
    head: int,
    r: Pt,
)
    requires
        s <= MAX,
        queue_inv(s, b, c, src, v, head),
        0 <= head < v.len(),
        v[head].2 < RAY_D,
        passable(s, b, c, r),
        adj(spot(v[head]), r),
        !queued(v, v.len() as int, r),
        !within(s, b, c, src, r, v[head].2 as nat),
    ensures
        queue_inv(s, b, c, src, v.push((r.0, r.1, (v[head].2 + 1) as i32)), head),
{
    let e = (r.0, r.1, (v[head].2 + 1) as i32);
    let w = v.push(e);
    let d = v[head].2 as nat;
    let h = spot(v[head]);
    assert(within(s, b, c, src, h, ((d + 1) - 1) as nat) && inb(s, h) && adj(h, r));
    assert(within(s, b, c, src, r, d + 1));
    assert(forall|i: int| 0 <= i < v.len() ==> w[i] == v[i]);
    assert(w[v.len() as int] == e);
    assert forall|i: int| 0 <= i < v.len() implies spot(#[trigger] v[i]) != r by {
        if spot(v[i]) == r {
            assert(queued(v, v.len() as int, r));
        }
    }
    assert forall|i: int, j: int| 0 <= i < j < w.len() implies spot(#[trigger] w[i]) != spot(
        #[trigger] w[j],
    ) by {
        if j == v.len() {
            assert(spot(v[i]) != r);
        }
    }
}

/// Adds the influence of one stone on (x, y) with signed strength `strength`.
#[verifier::rlimit(60)]
fn radiate_from(pos: &Position, x: i32, y: i32, strength: i32, a: &mut Vec<i32>)
    requires
        pos.wf(),
        inb(pos@.size, (x, y)),
        -9 <= strength <= 9,
        strength != 0,
        old(a)@.len() == CELLS,
        forall|i: int| 0 <= i < CELLS ==> -100000 <= #[trigger] old(a)@[i] <= 100000,
    ensures
        final(a)@.len() == CELLS,
        forall|i: int|
            0 <= i < area(pos@.size) ==> #[trigger] final(a)@[i] == old(a)@[i] + ray(
                pos@.size,
                pos@.board,
                (x, y),
                strength as int,
                pt(pos@.size, i),
            ),
        forall|i: int| area(pos@.size) <= i < CELLS ==> #[trigger] final(a)@[i] == old(a)@[i],
{
    let ghost s = pos@.size;
    let ghost b = pos@.board;
    let ghost src: Pt = (x, y);
    let ghost a0 = a@;
    let lines: usize = pos.size;
    let c: u8 = if strength > 0 {
        BLACK
    } else {
        WHITE
    };
    let mut seen: Vec<bool> = vec![false; CELLS];
    let mut queue: Vec<(i32, i32, i32)> = Vec::new();
    queue.push((x, y, 0));
    let first: usize = index_of(lines, x, y);
    seen.set(first, true);
    let mut head: usize = 0;
    proof {
        lemma_area(s);
        assert(queue@[0] == (x, y, 0i32));
        assert forall|q: Pt| inb(s, q) implies (#[trigger] seen@[idx(s, q)] <==> queued(
            queue@,
            queue@.len() as int,
            q,
        )) by {
            assert(pt(s, idx(s, q)) == q && pt(s, idx(s, src)) == src);
            if q == src {
                assert(queue@[0].0 == q.0);
            }
        }
        assert forall|i: int| 0 <= i < area(s) implies #[trigger] a@[i] == a0[i] + (if queued(
            queue@,
            0,
            pt(s, i),
        ) {
            ray(s, b, src, strength as int, pt(s, i))
        } else {
            0
        }) by {}
    }
    while head < queue.len()
        invariant
            pos.wf(),
            s == pos@.size,
            b == pos@.board,
            lines == s,
            src == (x, y),
            inb(s, src),
            -9 <= strength <= 9,
            strength != 0,
            c == radiating(strength as int),
            a@.len() == CELLS,
            a0.len() == CELLS,
            forall|i: int| 0 <= i < CELLS ==> -100000 <= #[trigger] a0[i] <= 100000,
            seen@.len() == CELLS,
            queue_inv(s, b, c, src, queue@, head as int),
            spread(s, b, c, queue@, head as int, 0),
            0 <= head <= queue@.len(),
            forall|q: Pt|
                inb(s, q) ==> (#[trigger] seen@[idx(s, q)] <==> queued(
                    queue@,
                    queue@.len() as int,
                    q,
                )),
            forall|i: int|
                0 <= i < area(s) ==> #[trigger] a@[i] == a0[i] + (if queued(
                    queue@,
                    head as int,
                    pt(s, i),
                ) {
                    ray(s, b, src, strength as int, pt(s, i))
                } else {
                    0
                }),
            forall|i: int| area(s) <= i < CELLS ==> #[trigger] a@[i] == a0[i],
        decreases CELLS - head,
    {
        let (cx, cy, d) = queue[head];
        let ghost q: Pt = (cx, cy);
        let ghost v = queue@;
        proof {
            lemma_area(s);
            let spots = v.map_values(|e: (i32, i32, i32)| spot(e));
            assert(spots.no_duplicates()) by {
                assert forall|i: int, j: int|
                    0 <= i < spots.len() && 0 <= j < spots.len() && i != j implies spots[i]
                    != spots[j] by {
                    assert(spots[i] == spot(v[i]) && spots[j] == spot(v[j]));
                    if i < j {
                        assert(spot(v[i]) != spot(v[j]));
                    } else {
                        assert(spot(v[j]) != spot(v[i]));
                    }
                }
            }
            assert forall|i: int| 0 <= i < spots.len() implies inb(s, #[trigger] spots[i]) by {
                assert(spots[i] == spot(v[i]));
            }
            lemma_points_bounded(s, spots);
            assert(spot(v[head as int]) == q);
            lemma_steps_exact(s, b, c, src, q, d as nat, RAY_D as nat);
            lemma_ray_bounded(s, b, src, strength as int, q);
        }
        let at: usize = index_of(lines, cx, cy);
        let ghost a1 = a@;
        proof {
            assert(pt(s, at as int) == q);
            assert(!queued(v, head as int, q)) by {
                if queued(v, head as int, q) {
                    let j = choose|j: int|
                        0 <= j < head && (#[trigger] v[j]).0 == q.0 && v[j].1 == q.1;
                    assert(spot(v[j]) == spot(v[head as int]));
                }
            }
            assert(a1[at as int] == a0[at as int]);
        }
        if d > 0 && pos.at(cx, cy) == EMPTY {
            let w: i32 = if d == 1 {
                12
            } else if d == 2 {
                10
            } else if d == 3 {
                8
            } else if d == 4 {
                7
            } else if d == 5 {
                5
            } else if d == 6 {
                4
            } else if d == 7 {
                2
            } else {
                1
            };
            proof {
                assert(-108 <= w * strength <= 108) by (nonlinear_arith)
                    requires
                        1 <= w <= 12,
                        -9 <= strength <= 9,
                ;
            }
            let gain: i32 = w * strength / 8;
            a.set(at, a[at] + gain);
        }
        proof {
            assert(a@[at as int] == a0[at as int] + ray(s, b, src, strength as int, q));
            assert forall|i: int| 0 <= i < area(s) implies #[trigger] a@[i] == a0[i] + (if queued(
                v,
                head + 1,
                pt(s, i),
            ) {
                ray(s, b, src, strength as int, pt(s, i))
            } else {
                0
            }) by {
                assert(a1[i] == a0[i] + (if queued(v, head as int, pt(s, i)) {
                    ray(s, b, src, strength as int, pt(s, i))
                } else {
                    0
                }));
                if i == at {
                    assert(v[head as int].0 == q.0 && v[head as int].1 == q.1);
                    assert(queued(v, head + 1, pt(s, i)));
                } else {
                    assert(a@[i] == a1[i]);
                    if queued(v, head as int, pt(s, i)) {
                        let j = choose|j: int|
                            0 <= j < head && (#[trigger] v[j]).0 == pt(s, i).0 && v[j].1 == pt(
                                s,
                                i,
                            ).1;
                        assert(0 <= j < head + 1);
                    }
                    if queued(v, head + 1, pt(s, i)) {
                        let j = choose|j: int|
                            0 <= j < head + 1 && (#[trigger] v[j]).0 == pt(s, i).0 && v[j].1
                                == pt(s, i).1;
                        if j == head {
                            assert(pt(s, i) == q);
                            assert(idx(s, pt(s, i)) == i);
                        }
                    }
                }
            }
        }
        if d < RAY_D {
            let mut k: usize = 0;
            while k < 4
                invariant
                    pos.wf(),
                    s == pos@.size,
                    b == pos@.board,
                    lines == s,
                    src == (x, y),
                    q == (cx, cy),
                    inb(s, q),
                    0 <= k <= 4,
                    0 <= d < RAY_D,
                    0 <= head < v.len(),
                    v.len() <= queue@.len(),
                    queue@.take(v.len() as int) == v,
                    queue@[head as int] == (cx, cy, d),
                    seen@.len() == CELLS,
                    queue_inv(s, b, c, src, queue@, head as int),
                    queue_inv(s, b, c, src, v, head as int),
                    spread(s, b, c, v, head as int, 0),
                    spread(s, b, c, queue@, head as int, k as int),
                    forall|i: int| head <= i < v.len() ==> d <= (#[trigger] v[i]).2,
                    forall|r: Pt|
                        inb(s, r) ==> (#[trigger] seen@[idx(s, r)] <==> queued(
                            queue@,
                            queue@.len() as int,
                            r,
                        )),
                decreases 4 - k,
            {
                let (nx, ny) = neighbour(cx, cy, k);
                let ghost r: Pt = (nx, ny);
                let ghost before = queue@;
                let ghost seen0 = seen@;
                if in_board(pos, nx, ny) {
                    let there: usize = index_of(lines, nx, ny);
                    let nv: u8 = pos.at(nx, ny);
                    proof {
                        assert(seen@[idx(s, r)] <==> queued(queue@, queue@.len() as int, r));
                    }
                    if !seen[there] && (nv == EMPTY || nv == c) {
                        proof {
                            lemma_nb(s, q, r);
                            if within(s, b, c, src, r, d as nat) {
                                lemma_ball_queued(
                                    s,
                                    b,
                                    c,
                                    src,
                                    v,
                                    head as int,
                                    d as int,
                                    r,
                                    d as nat,
                                );
                                let j = choose|j: int|
                                    0 <= j < v.len() && (#[trigger] v[j]).0 == r.0 && v[j].1
                                        == r.1;
                                assert(before[j] == before.take(v.len() as int)[j]);
                                assert(before[j] == v[j]);
                                assert(queued(before, before.len() as int, r));
                            }
                            lemma_enqueue(s, b, c, src, before, head as int, r);
                        }
                        seen.set(there, true);
                        queue.push((nx, ny, d + 1));
                    }
                }
                proof {
                    let w = queue@;
                    assert(forall|j: int| 0 <= j < before.len() ==> w[j] == before[j]);
                    assert forall|t: Pt| queued(before, before.len() as int, t) implies queued(
                        w,
                        w.len() as int,
                        t,
                    ) by {
                        let j = choose|j: int|
                            0 <= j < before.len() && (#[trigger] before[j]).0 == t.0 && before[j].1
                                == t.1;
                        assert(w[j].0 == t.0);
                    }
                    assert forall|t: Pt| inb(s, t) implies (#[trigger] seen@[idx(s, t)] <==> queued(
                        w,
                        w.len() as int,
                        t,
                    )) by {
                        assert(seen0[idx(s, t)] <==> queued(before, before.len() as int, t));
                        assert(pt(s, idx(s, t)) == t);
                        if w.len() > before.len() {
                            assert(pt(s, idx(s, r)) == r);
                            assert(w[before.len() as int] == (nx, ny, (d + 1) as i32));
                            if t == r {
                                assert(queued(w, w.len() as int, t));
                            }
                            if queued(w, w.len() as int, t) && t != r {
                                let j = choose|j: int|
                                    0 <= j < w.len() && (#[trigger] w[j]).0 == t.0 && w[j].1
                                        == t.1;
                                assert(j < before.len());
                                assert(before[j].0 == t.0);
                            }
                        }
                    }
                    assert forall|i: int, e: int|
                        #![trigger w[i], nb(spot(w[i]), e)]
                        0 <= i < w.len() && 0 <= e < 4 && w[i].2 < RAY_D && (i < head || (i == head
                            && e < k + 1)) && passable(s, b, c, nb(spot(w[i]), e)) implies queued(
                        w,
                        w.len() as int,
                        nb(spot(w[i]), e),
                    ) by {
                        assert(w[i] == before[i]);
                        if i == head && e == k {
                            assert(nb(spot(w[i]), e) == r);
                            assert(seen@[idx(s, r)]);
                        } else {
                            assert(queued(
                                before,
                                before.len() as int,
                                nb(spot(before[i]), e),
                            ));
                        }
                    }
                    assert(w.take(v.len() as int) =~= v) by {
                        assert(before.take(v.len() as int) == v);
                        assert forall|j: int| 0 <= j < v.len() implies w.take(v.len() as int)[j]
                            == v[j] by {
                            assert(before.take(v.len() as int)[j] == before[j]);
                        }
                    }
                }
                k = k + 1;
            }
        }
        proof {
            let w = queue@;
            assert forall|j: int| 0 <= j < v.len() implies w[j] == v[j] by {
                if d < RAY_D {
                    assert(w.take(v.len() as int)[j] == w[j]);
                }
            }
            assert forall|t: Pt| #[trigger] queued(w, head + 1, t) <==> queued(v, head + 1, t) by {
                if queued(w, head + 1, t) {
                    let j = choose|j: int|
                        0 <= j < head + 1 && (#[trigger] w[j]).0 == t.0 && w[j].1 == t.1;
                    assert(v[j].0 == t.0);
                }
                if queued(v, head + 1, t) {
                    let j = choose|j: int|
                        0 <= j < head + 1 && (#[trigger] v[j]).0 == t.0 && v[j].1 == t.1;
                    assert(w[j].0 == t.0);
                }
            }
            assert(w[head as int] == (cx, cy, d));
            assert(queue_inv(s, b, c, src, w, head + 1)) by {
                if head + 1 < w.len() {
                    assert(w[head as int].2 <= w[head + 1].2);
                }
            }
            assert(spread(s, b, c, w, head + 1, 0)) by {
                assert forall|i: int, e: int|
                    #![trigger w[i], nb(spot(w[i]), e)]
                    0 <= i < w.len() && 0 <= e < 4 && w[i].2 < RAY_D && (i < head + 1 || (i == head
                        + 1 && e < 0)) && passable(s, b, c, nb(spot(w[i]), e)) implies queued(
                    w,
                    w.len() as int,
                    nb(spot(w[i]), e),
                ) by {
                    assert(i <= head);
                    if d >= RAY_D {
                        assert(w =~= v);
                    }
                }
            }
        }
        head = head + 1;
    }
    proof {
        let v = queue@;
        assert forall|i: int| 0 <= i < area(s) implies #[trigger] a@[i] == a0[i] + ray(
            s,
            b,
            src,
            strength as int,
            pt(s, i),
        ) by {
            let q = pt(s, i);
            if !queued(v, v.len() as int, q) {
                lemma_steps(s, b, c, src, q, RAY_D as nat);
                if within(s, b, c, src, q, RAY_D as nat) {
                    lemma_ball_queued(
                        s,
                        b,
                        c,
                        src,
                        v,
                        v.len() as int,
                        RAY_D as int,
                        q,
                        RAY_D as nat,
                    );
                }
            }
        }
    }
}

/// Computes the net influence on every point from the signed strengths of the stones.
pub fn radiation(pos: &Position, strength: &Vec<i32>, a: &mut Vec<i32>)
    requires
        pos.wf(),
        strength@.len() == CELLS,
        forall|i: int| 0 <= i < CELLS ==> -9 <= #[trigger] strength@[i] <= 9,
        old(a)@.len() == CELLS,
    ensures
        final(a)@ == influence_map(pos@, strength@, old(a)@),
        forall|i: int|
            0 <= i < area(pos@.size) ==> -14 * CELLS <= #[trigger] final(a)@[i] <= 14 * CELLS,
{
    let ghost s = pos@.size;
    let ghost b = pos@.board;
    let ghost a0 = a@;
    let n: usize = area_of(pos.size);
    let mut i: usize = 0;
    let mut acc: Vec<i32> = vec![0i32; CELLS];
    while i < n
        invariant
            pos.wf(),
            s == pos@.size,
            b == pos@.board,
            n == area(s),
            n <= CELLS,
            strength@.len() == CELLS,
            forall|j: int| 0 <= j < CELLS ==> -9 <= #[trigger] strength@[j] <= 9,
            0 <= i <= n,
            acc@.len() == CELLS,
            forall|j: int|
                0 <= j < area(s) ==> #[trigger] acc@[j] == field(
                    s,
                    b,
                    strength@,
                    pt(s, j),
                    i as nat,
                ),
            forall|j: int| area(s) <= j < CELLS ==> #[trigger] acc@[j] == 0,
        decreases n - i,
    {
        let w: i32 = strength[i];
        let (x, y) = point_of(pos.size, i);
        let ghost before = acc@;
        proof {
            assert forall|j: int| 0 <= j < CELLS implies -100000 <= #[trigger] acc@[j]
                <= 100000 by {
                if j < area(s) {
                    lemma_field_bounded(s, b, strength@, pt(s, j), i as nat);
                }
            }
        }
        if w != 0 {
            radiate_from(pos, x, y, w, &mut acc);
        }
        proof {
            assert forall|j: int| 0 <= j < area(s) implies #[trigger] acc@[j] == field(
                s,
                b,
                strength@,
                pt(s, j),
                (i + 1) as nat,
            ) by {
                assert(before[j] == field(s, b, strength@, pt(s, j), i as nat));
            }
        }
        i = i + 1;
    }
    let mut k: usize = 0;
    while k < n
        invariant
            n == area(s),
            n <= CELLS,
            0 <= k <= n,
            acc@.len() == CELLS,
            a@.len() == CELLS,
            a0.len() == CELLS,
            forall|j: int| 0 <= j < k ==> #[trigger] a@[j] == acc@[j],
            forall|j: int| k <= j < CELLS ==> #[trigger] a@[j] == a0[j],
        decreases n - k,
    {
        a.set(k, acc[k]);
        k = k + 1;
    }
    proof {
        assert forall|j: int| 0 <= j < area(s) implies -14 * CELLS <= #[trigger] a@[j] <= 14
            * CELLS by {
            lemma_field_bounded(s, b, strength@, pt(s, j), area(s) as nat);
            assert(a@[j] == acc@[j]);
        }
        assert(a@ =~= influence_map(pos@, strength@, a0));
    }
}

/// There is no influence on a point that holds a stone.
pub proof fn law_influence_spares_stones(p: Pos, strength: Seq<i32>, a: Seq<i32>, i: int)
    requires
        pos_ok(p),
        a.len() == CELLS,
        0 <= i < area(p.size),
        p.board[i] != EMPTY,
    ensures
        influence_map(p, strength, a)[i] == 0,
{
    lemma_area(p.size);
    lemma_no_field(p.size, p.board, strength, pt(p.size, i), area(p.size) as nat);
}

proof fn lemma_no_field(s: int, b: Seq<u8>, strength: Seq<i32>, q: Pt, k: nat)
    requires
        cell(s, b, q) != EMPTY,
    ensures
        field(s, b, strength, q, k) == 0,
    decreases k,
{
    if k > 0 {
        lemma_no_field(s, b, strength, q, (k - 1) as nat);
    }
}

} // verus!
