//! A census of all chains: liberties, size, contact, life and death, and the strength
//! with which their stones radiate.

use crate::board::{
    area, area_of, cell, group_points, idx, inb, index_of, lemma_area, lemma_idx, lemma_pt,
    point_of, pos_ok, pt, Pos, Position, Pt, BLACK, CELLS, EMPTY, MAX,
};
use crate::chain::{
    block, connected, count_friendly_diagonals, friendly_diagonals, group_info, has_contact, is_eye,
    is_eye_for, is_liberty, lemma_connected_cell, lemma_connected_refl, lemma_connected_sym,
    lemma_flood, lemma_same_block, liberties, Group,
};
use crate::reading::{lemma_read_ops, plies, read, read_cap, readable};
use vstd::prelude::*;

verus! {

broadcast use group_points;

/// The buffer with `x` on every listed point.
pub open spec fn painted<T>(s: int, a: Seq<T>, v: Seq<Pt>, x: T) -> Seq<T> {
    Seq::new(
        a.len(),
        |i: int|
            if 0 <= i < area(s) && v.contains(pt(s, i)) {
                x
            } else {
                a[i]
            },
    )
}

proof fn lemma_painted_push<T>(s: int, a: Seq<T>, v: Seq<Pt>, q: Pt, x: T)
    requires
        0 < s <= MAX,
        a.len() == CELLS,
        inb(s, q),
    ensures
        painted(s, a, v.push(q), x) == painted(s, a, v, x).update(idx(s, q), x),
{
    let w = v.push(q);
    lemma_area(s);
    lemma_idx(s, q);
    assert(w[v.len() as int] == q);
    assert forall|i: int| 0 <= i < area(s) implies (#[trigger] w.contains(pt(s, i))
        <==> v.contains(pt(s, i)) || i == idx(s, q)) by {
        if v.contains(pt(s, i)) {
            let j = choose|j: int| 0 <= j < v.len() && v[j] == pt(s, i);
            assert(w[j] == pt(s, i));
        }
        if w.contains(pt(s, i)) {
            let j = choose|j: int| 0 <= j < w.len() && w[j] == pt(s, i);
            if j < v.len() {
                assert(v[j] == pt(s, i));
            } else {
                assert(idx(s, pt(s, i)) == i);
            }
        }
    }
    assert(painted(s, a, w, x) =~= painted(s, a, v, x).update(idx(s, q), x));
}

/// Puts `x` on every listed point of a buffer.
fn paint<T: Copy>(s: usize, a: &mut Vec<T>, members: &Vec<(i32, i32)>, x: T)
    requires
        0 < s <= MAX,
        old(a)@.len() == CELLS,
        forall|k: int| 0 <= k < members@.len() ==> inb(s as int, #[trigger] members@[k]),
    ensures
        final(a)@ == painted(s as int, old(a)@, members@, x),
{
    let ghost a0 = a@;
    let mut k: usize = 0;
    proof {
        assert(members@.take(0) =~= Seq::<Pt>::empty());
        assert(a@ =~= painted(s as int, a0, members@.take(0), x));
    }
    while k < members.len()
        invariant
            0 < s <= MAX,
            a0.len() == CELLS,
            a@.len() == CELLS,
            forall|j: int| 0 <= j < members@.len() ==> inb(s as int, #[trigger] members@[j]),
            0 <= k <= members@.len(),
            a@ == painted(s as int, a0, members@.take(k as int), x),
        decreases members@.len() - k,
    {
        let (gx, gy) = members[k];
        let at: usize = index_of(s, gx, gy);
        proof {
            lemma_painted_push(s as int, a0, members@.take(k as int), members@[k as int], x);
            assert(members@.take(k + 1) =~= members@.take(k as int).push(members@[k as int]));
        }
        a.set(at, x);
        k = k + 1;
    }
    proof {
        assert(members@.take(k as int) =~= members@);
    }
}

/// Number of eyes of `c` among the first `n` listed points.
pub open spec fn eye_count(s: int, b: Seq<u8>, v: Seq<Pt>, c: u8, n: nat) -> int
    decreases n,
{
    if n == 0 {
        0
    } else {
        eye_count(s, b, v, c, (n - 1) as nat) + if is_eye(s, b, v[n - 1], c) {
            1int
        } else {
            0
        }
    }
}

/// The last liberty of the chain on `q` is an eye that its opponent cannot fill.
pub open spec fn unfillable(s: int, b: Seq<u8>, q: Pt) -> bool {
    let libs = liberties(s, b, q);
    let c = cell(s, b, q);
    libs.len() == 1 && is_eye(s, b, libs[0], c) && friendly_diagonals(s, b, libs[0], c, 4) == 4
}

/// Whether the chain on `q` counts as dead, and the number of positions read so far:
/// it has no liberty, or one that the opponent can fill, or reading `depth` moves
/// deep captures a chain in contact that has two liberties and no eye.
pub open spec fn chain_dead(p: Pos, q: Pt, depth: nat, ops: int, budget: int) -> (bool, int) {
    let s = p.size;
    let b = p.board;
    let libs = liberties(s, b, q);
    let contact = has_contact(s, b, q);
    if libs.len() == 0 || (contact && libs.len() == 1 && !unfillable(s, b, q)) {
        (true, ops)
    } else if depth > 0 && contact && libs.len() == 2 && eye_count(
        s,
        b,
        libs,
        cell(s, b, q),
        libs.len(),
    ) == 0 {
        read(p, q, depth, true, ops, budget)
    } else {
        (false, ops)
    }
}

/// Strength of the stones of a chain in eighths, by its liberties and eyes.
pub open spec fn vigour(libs: int, eyes: int) -> int {
    if eyes >= 2 && libs >= 4 {
        9
    } else if libs == 1 {
        3
    } else if libs >= 5 {
        9
    } else {
        4 + libs
    }
}

/// Signed strength with which the chain on `q` radiates: positive for Black. A dead
/// chain radiates for the other side.
pub open spec fn chain_strength(s: int, b: Seq<u8>, q: Pt, dead: bool) -> int {
    let libs = liberties(s, b, q);
    let c = cell(s, b, q);
    let amount = if dead {
        -8
    } else {
        vigour(libs.len() as int, eye_count(s, b, libs, c, libs.len()))
    };
    if c == BLACK {
        amount
    } else {
        -amount
    }
}

/// Result of a census, one entry for each point: strength, whether the stone is dead,
/// and the liberties, size and contact of its chain. Empty points hold zeros.
pub struct Census {
    pub strength: Vec<i32>,
    pub dead: Vec<bool>,
    pub libs: Vec<i32>,
    pub size: Vec<i32>,
    pub contact: Vec<bool>,
}

/// Mathematical view of a [`Census`].
#[verifier::ext_equal]
pub struct Survey {
    pub strength: Seq<i32>,
    pub dead: Seq<bool>,
    pub libs: Seq<i32>,
    pub size: Seq<i32>,
    pub contact: Seq<bool>,
}

impl View for Census {
    type V = Survey;

    open spec fn view(&self) -> Survey {
        Survey {
            strength: self.strength@,
            dead: self.dead@,
            libs: self.libs@,
            size: self.size@,
            contact: self.contact@,
        }
    }
}

pub open spec fn survey_ok(v: Survey) -> bool {
    &&& v.strength.len() == CELLS
    &&& v.dead.len() == CELLS
    &&& v.libs.len() == CELLS
    &&& v.size.len() == CELLS
    &&& v.contact.len() == CELLS
    &&& forall|i: int| 0 <= i < CELLS ==> -9 <= #[trigger] v.strength[i] <= 9
    &&& forall|i: int| 0 <= i < CELLS ==> 0 <= #[trigger] v.libs[i] <= CELLS
    &&& forall|i: int| 0 <= i < CELLS ==> 0 <= #[trigger] v.size[i] <= CELLS
}

/// A census under way: what was found, the points covered, and the number of
/// positions read.
#[verifier::ext_equal]
pub struct Tally {
    pub found: Survey,
    pub seen: Seq<bool>,
    pub ops: int,
}

pub open spec fn empty_tally() -> Tally {
    Tally {
        found: Survey {
            strength: Seq::new(CELLS as nat, |i: int| 0i32),
            dead: Seq::new(CELLS as nat, |i: int| false),
            libs: Seq::new(CELLS as nat, |i: int| 0i32),
            size: Seq::new(CELLS as nat, |i: int| 0i32),
            contact: Seq::new(CELLS as nat, |i: int| false),
        },
        seen: Seq::new(CELLS as nat, |i: int| false),
        ops: 0,
    }
}

/// The census with the chain on `q` entered on all its points.
pub open spec fn enter_chain(p: Pos, t: Tally, q: Pt, depth: nat, budget: int) -> Tally {
    let s = p.size;
    let b = p.board;
    let v = block(s, b, q);
    let d = chain_dead(p, q, depth, t.ops, budget);
    Tally {
        found: Survey {
            strength: painted(s, t.found.strength, v, chain_strength(s, b, q, d.0) as i32),
            dead: painted(s, t.found.dead, v, d.0),
            libs: painted(s, t.found.libs, v, liberties(s, b, q).len() as i32),
            size: painted(s, t.found.size, v, v.len() as i32),
            contact: painted(s, t.found.contact, v, has_contact(s, b, q)),
        },
        seen: painted(s, t.seen, v, true),
        ops: d.1,
    }
}

/// The census of the chains that hold one of the first `k` points.
pub open spec fn tally(p: Pos, depth: nat, budget: int, k: nat) -> Tally
    decreases k,
{
    if k == 0 {
        empty_tally()
    } else {
        let t = tally(p, depth, budget, (k - 1) as nat);
        if t.seen[k - 1] || p.board[k - 1] == EMPTY {
            t
        } else {
            enter_chain(p, t, pt(p.size, k - 1), depth, budget)
        }
    }
}

/// The census of all chains.
pub open spec fn survey(p: Pos, depth: nat, budget: int) -> Survey {
    tally(p, depth, budget, area(p.size) as nat).found
}

/// Counts the eyes of `c` among the listed points.
fn count_eyes(pos: &Position, v: &Vec<(i32, i32)>, c: u8) -> (r: i32)
    requires
        pos.wf(),
        v@.len() <= CELLS,
        forall|k: int| 0 <= k < v@.len() ==> inb(pos@.size, #[trigger] v@[k]),
    ensures
        r == eye_count(pos@.size, pos@.board, v@, c, v@.len()),
{
    let mut eyes: i32 = 0;
    let mut k: usize = 0;
    while k < v.len()
        invariant
            pos.wf(),
            v@.len() <= CELLS,
            forall|j: int| 0 <= j < v@.len() ==> inb(pos@.size, #[trigger] v@[j]),
            0 <= k <= v@.len(),
            0 <= eyes <= k,
            eyes == eye_count(pos@.size, pos@.board, v@, c, k as nat),
        decreases v@.len() - k,
    {
        let (x, y) = v[k];
        if is_eye_for(pos, x, y, c) {
            eyes = eyes + 1;
        }
        k = k + 1;
    }
    eyes
}

/// Life and strength of the chain `g` on (x, y).
fn judge(
    pos: &mut Position,
    x: i32,
    y: i32,
    g: &Group,
    read_depth: i32,
    ops: &mut i32,
    budget: i32,
) -> (r: (bool, i32))
    requires
        old(pos).wf(),
        inb(old(pos)@.size, (x, y)),
        cell(old(pos)@.size, old(pos)@.board, (x, y)) != EMPTY,
        g.libs@ == liberties(old(pos)@.size, old(pos)@.board, (x, y)),
        g.contact == has_contact(old(pos)@.size, old(pos)@.board, (x, y)),
        readable(old(pos)@, read_depth as int, *old(ops) as int, budget as int),
    ensures
        final(pos).wf(),
        final(pos)@ == old(pos)@,
        r.0 == chain_dead(
            old(pos)@,
            (x, y),
            plies(read_depth as int),
            *old(ops) as int,
            budget as int,
        ).0,
        *final(ops) == chain_dead(
            old(pos)@,
            (x, y),
            plies(read_depth as int),
            *old(ops) as int,
            budget as int,
        ).1,
        r.1 == chain_strength(old(pos)@.size, old(pos)@.board, (x, y), r.0),
        -9 <= r.1 <= 9,
{
    let ghost s = pos@.size;
    let ghost b = pos@.board;
    let ghost q: Pt = (x, y);
    let color: u8 = pos.at(x, y);
    proof {
        lemma_flood(s, b, q);
        lemma_area(s);
        assert forall|k: int| 0 <= k < g.libs@.len() implies inb(s, #[trigger] g.libs@[k]) by {
            assert(g.libs@.contains(g.libs@[k]));
            assert(is_liberty(s, b, q, g.libs@[k]));
        }
    }
    let libs: i32 = g.libs.len() as i32;
    let eyes: i32 = count_eyes(pos, &g.libs, color);
    let mut unfill: bool = false;
    if libs == 1 {
        let (lx, ly) = g.libs[0];
        if is_eye_for(pos, lx, ly, color) {
            unfill = count_friendly_diagonals(pos, lx, ly, color) == 4;
        }
    }
    let mut dead: bool = libs == 0 || (g.contact && libs == 1 && !unfill);
    if !dead && read_depth > 0 && g.contact && libs == 2 && eyes == 0 {
        dead = read_cap(pos, x, y, read_depth, true, ops, budget);
    }
    let mut amount: i32 = if libs >= 5 {
        9
    } else {
        4 + libs
    };
    if libs == 1 {
        amount = 3;
    }
    if eyes >= 2 && libs >= 4 {
        amount = 9;
    }
    if dead {
        amount = -8;
    }
    let strength: i32 = if color == BLACK {
        amount
    } else {
        -amount
    };
    (dead, strength)
}

/// Takes the census of all chains. With `read_depth` above 0 the fate of chains in
/// contact with two liberties and no eye is read out, examining about `read_budget`
/// positions. The position is left as it was.
pub fn scan_groups(pos: &mut Position, read_depth: i32, read_budget: i32) -> (c: Census)
    requires
        old(pos).wf(),
        readable(old(pos)@, read_depth as int, CELLS as int, read_budget + CELLS),
    ensures
        final(pos).wf(),
        final(pos)@ == old(pos)@,
        c@ == survey(old(pos)@, plies(read_depth as int), read_budget as int),
        survey_ok(c@),
{
    let ghost p = pos@;
    let ghost s = p.size;
    let n: usize = area_of(pos.size);
    let mut c = Census {
        strength: vec![0i32; CELLS],
        dead: vec![false; CELLS],
        libs: vec![0i32; CELLS],
        size: vec![0i32; CELLS],
        contact: vec![false; CELLS],
    };
    let mut seen: Vec<bool> = vec![false; CELLS];
    let mut ops: i32 = 0;
    let mut i: usize = 0;
    proof {
        assert(c@ =~= empty_tally().found);
        assert(seen@ =~= empty_tally().seen);
    }
    while i < n
        invariant
            pos.wf(),
            pos@ == p,
            pos_ok(p),
            s == p.size,
            n == area(s),
            n <= CELLS,
            0 <= i <= n,
            readable(p, read_depth as int, CELLS as int, read_budget + CELLS),
            ops <= i || (read_depth > 0 && ops <= read_budget + 8 * read_depth + i),
            0 <= ops,
            (Tally { found: c@, seen: seen@, ops: ops as int }) == tally(
                p,
                plies(read_depth as int),
                read_budget as int,
                i as nat,
            ),
            survey_ok(c@),
            seen@.len() == CELLS,
        decreases n - i,
    {
        let (x, y) = point_of(pos.size, i);
        let ghost q: Pt = (x, y);
        proof {
            lemma_pt(s, i as int);
        }
        if !seen[i] && pos.at(x, y) != EMPTY {
            let ghost t = Tally { found: c@, seen: seen@, ops: ops as int };
            let g: Group = group_info(pos, x, y);
            proof {
                assert forall|k: int| 0 <= k < g.members@.len() implies inb(
                    s,
                    #[trigger] g.members@[k],
                ) by {
                    assert(g.members@.contains(g.members@[k]));
                    lemma_connected_cell(s, p.board, q, g.members@[k]);
                }
                lemma_read_ops(
                    p,
                    q,
                    plies(read_depth as int),
                    true,
                    ops as int,
                    read_budget as int,
                );
            }
            let (dead, strength) = judge(pos, x, y, &g, read_depth, &mut ops, read_budget);
            let lines: usize = pos.size;
            paint(lines, &mut seen, &g.members, true);
            paint(lines, &mut c.libs, &g.members, g.libs.len() as i32);
            paint(lines, &mut c.size, &g.members, g.members.len() as i32);
            paint(lines, &mut c.contact, &g.members, g.contact);
            paint(lines, &mut c.strength, &g.members, strength);
            paint(lines, &mut c.dead, &g.members, dead);
            proof {
                let u = Tally { found: c@, seen: seen@, ops: ops as int };
                assert(u == enter_chain(p, t, q, plies(read_depth as int), read_budget as int));
            }
        }
        i = i + 1;
    }
    c
}

/// Chains that hold each other's points have equally many liberties and stones.
proof fn lemma_same_counts(s: int, b: Seq<u8>, q: Pt, r: Pt)
    requires
        0 < s <= MAX,
        connected(s, b, q, r),
        cell(s, b, q) != EMPTY,
    ensures
        liberties(s, b, q).len() == liberties(s, b, r).len(),
        block(s, b, q).len() == block(s, b, r).len(),
        has_contact(s, b, q) == has_contact(s, b, r),
{
    lemma_connected_cell(s, b, q, r);
    lemma_same_block(s, b, q, r);
    lemma_flood(s, b, q);
    lemma_flood(s, b, r);
    liberties(s, b, q).unique_seq_to_set();
    liberties(s, b, r).unique_seq_to_set();
    assert(liberties(s, b, q).to_set() =~= liberties(s, b, r).to_set()) by {
        assert forall|e: Pt| liberties(s, b, q).to_set().contains(e) <==> liberties(
            s,
            b,
            r,
        ).to_set().contains(e) by {
            assert(is_liberty(s, b, q, e) <==> is_liberty(s, b, r, e));
            assert(liberties(s, b, q).contains(e) <==> is_liberty(s, b, q, e));
            assert(liberties(s, b, r).contains(e) <==> is_liberty(s, b, r, e));
        }
    }
    block(s, b, q).unique_seq_to_set();
    block(s, b, r).unique_seq_to_set();
    assert(block(s, b, q).to_set() =~= block(s, b, r).to_set()) by {
        assert forall|e: Pt| block(s, b, q).to_set().contains(e) <==> block(
            s,
            b,
            r,
        ).to_set().contains(e) by {
            assert(connected(s, b, q, e) <==> connected(s, b, r, e));
            assert(block(s, b, q).contains(e) <==> connected(s, b, q, e));
            assert(block(s, b, r).contains(e) <==> connected(s, b, r, e));
        }
    }
    if has_contact(s, b, q) {
        let (m, e) = choose|m: Pt, e: Pt|
            #[trigger] connected(s, b, q, m) && #[trigger] crate::board::adj(m, e) && inb(s, e)
                && cell(s, b, e) != EMPTY && cell(s, b, e) != cell(s, b, q);
        assert(connected(s, b, r, m));
    }
    if has_contact(s, b, r) {
        let (m, e) = choose|m: Pt, e: Pt|
            #[trigger] connected(s, b, r, m) && #[trigger] crate::board::adj(m, e) && inb(s, e)
                && cell(s, b, e) != EMPTY && cell(s, b, e) != cell(s, b, r);
        assert(connected(s, b, q, m));
    }
}

/// What a census that has come to point `k` says of each point.
pub proof fn lemma_tally(p: Pos, depth: nat, budget: int, k: nat)
    requires
        pos_ok(p),
        k <= area(p.size),
    ensures
        ({
            let t = tally(p, depth, budget, k);
            let s = p.size;
            let b = p.board;
            &&& t.seen.len() == CELLS
            &&& t.found.libs.len() == CELLS && t.found.size.len() == CELLS
            &&& t.found.contact.len() == CELLS && t.found.dead.len() == CELLS
            &&& t.found.strength.len() == CELLS
            &&& forall|i: int|
                0 <= i < area(s) && #[trigger] t.seen[i] ==> {
                    &&& b[i] != EMPTY
                    &&& t.found.libs[i] == liberties(s, b, pt(s, i)).len()
                    &&& t.found.size[i] == block(s, b, pt(s, i)).len()
                    &&& t.found.contact[i] == has_contact(s, b, pt(s, i))
                }
            &&& forall|i: int, j: int|
                0 <= i < area(s) && 0 <= j < area(s) && #[trigger] t.seen[i] && connected(
                    s,
                    b,
                    pt(s, i),
                    pt(s, j),
                ) ==> #[trigger] t.seen[j] && t.found.dead[i] == t.found.dead[j]
                    && t.found.strength[i] == t.found.strength[j]
            &&& forall|i: int| 0 <= i < k && b[i] != EMPTY ==> #[trigger] t.seen[i]
            &&& forall|i: int|
                0 <= i < area(s) && !#[trigger] t.seen[i] ==> t.found.libs[i] == 0
                    && t.found.size[i] == 0 && !t.found.contact[i] && !t.found.dead[i]
                    && t.found.strength[i] == 0
        }),
    decreases k,
{
    let s = p.size;
    let b = p.board;
    lemma_area(s);
    if k > 0 {
        lemma_tally(p, depth, budget, (k - 1) as nat);
        let u = tally(p, depth, budget, (k - 1) as nat);
        let t = tally(p, depth, budget, k);
        let q = pt(s, k - 1);
        if !u.seen[k - 1] && b[k - 1] != EMPTY {
            lemma_flood(s, b, q);
            lemma_connected_refl(s, b, q);
            assert forall|i: int| 0 <= i < area(s) implies (#[trigger] t.seen[i] <==> u.seen[i]
                || connected(s, b, q, pt(s, i))) by {
                assert(block(s, b, q).contains(pt(s, i)) <==> connected(s, b, q, pt(s, i)));
            }
            assert forall|i: int| 0 <= i < area(s) && connected(
                s,
                b,
                q,
                pt(s, i),
            ) implies !#[trigger] u.seen[i] by {
                if u.seen[i] {
                    lemma_connected_sym(s, b, q, pt(s, i));
                    assert(u.seen[k - 1]);
                }
            }
            assert forall|i: int| 0 <= i < area(s) && #[trigger] t.seen[i] implies b[i] != EMPTY
                && t.found.libs[i] == liberties(s, b, pt(s, i)).len() && t.found.size[i] == block(
                s,
                b,
                pt(s, i),
            ).len() && t.found.contact[i] == has_contact(s, b, pt(s, i)) by {
                if connected(s, b, q, pt(s, i)) {
                    lemma_connected_cell(s, b, q, pt(s, i));
                    lemma_same_counts(s, b, q, pt(s, i));
                    assert(idx(s, pt(s, i)) == i);
                    assert(block(s, b, q).contains(pt(s, i)));
                } else {
                    assert(u.seen[i]);
                    assert(!block(s, b, q).contains(pt(s, i)));
                }
            }
            assert forall|i: int, j: int|
                0 <= i < area(s) && 0 <= j < area(s) && #[trigger] t.seen[i] && connected(
                    s,
                    b,
                    pt(s, i),
                    pt(s, j),
                ) implies #[trigger] t.seen[j] && t.found.dead[i] == t.found.dead[j]
                && t.found.strength[i] == t.found.strength[j] by {
                if connected(s, b, q, pt(s, i)) {
                    lemma_same_block(s, b, q, pt(s, i));
                    assert(connected(s, b, q, pt(s, j)));
                    assert(block(s, b, q).contains(pt(s, i)) && block(s, b, q).contains(
                        pt(s, j),
                    ));
                } else {
                    assert(u.seen[i]);
                    assert(u.seen[j]);
                    if connected(s, b, q, pt(s, j)) {
                        assert(!u.seen[j]);
                    }
                    assert(!block(s, b, q).contains(pt(s, i)) && !block(s, b, q).contains(
                        pt(s, j),
                    ));
                }
            }
            assert forall|i: int| 0 <= i < k && b[i] != EMPTY implies #[trigger] t.seen[i] by {
                if i < k - 1 {
                    assert(u.seen[i]);
                }
            }
            assert forall|i: int| 0 <= i < area(s) && !#[trigger] t.seen[i] implies t.found.libs[i]
                == 0 && t.found.size[i] == 0 && !t.found.contact[i] && !t.found.dead[i]
                && t.found.strength[i] == 0 by {
                assert(!u.seen[i]);
                assert(!block(s, b, q).contains(pt(s, i)));
            }
        }
    }
}

/// The chain on the point with index `i` has its first point at `h`, and its stones are
/// judged there, when the chains before it have been read.
pub open spec fn judged_at(p: Pos, depth: nat, budget: int, v: Survey, i: int, h: int) -> bool {
    let s = p.size;
    let b = p.board;
    let q = pt(s, h);
    &&& 0 <= h < area(s)
    &&& connected(s, b, pt(s, i), q)
    &&& forall|j: int| 0 <= j < area(s) && #[trigger] connected(s, b, pt(s, i), pt(s, j)) ==> h <= j
    &&& v.dead[i] == chain_dead(p, q, depth, tally(p, depth, budget, h as nat).ops, budget).0
    &&& v.strength[i] == chain_strength(s, b, q, v.dead[i])
}

proof fn lemma_judged(p: Pos, depth: nat, budget: int, k: nat)
    requires
        pos_ok(p),
        k <= area(p.size),
    ensures
        ({
            let t = tally(p, depth, budget, k);
            forall|i: int|
                0 <= i < area(p.size) && #[trigger] t.seen[i] ==> exists|h: int| #[trigger]
                    judged_at(p, depth, budget, t.found, i, h)
        }),
    decreases k,
{
    let s = p.size;
    let b = p.board;
    lemma_area(s);
    if k > 0 {
        let m = (k - 1) as nat;
        lemma_judged(p, depth, budget, m);
        lemma_tally(p, depth, budget, m);
        let u = tally(p, depth, budget, m);
        let t = tally(p, depth, budget, k);
        let q = pt(s, k - 1);
        if !u.seen[k - 1] && b[k - 1] != EMPTY {
            lemma_flood(s, b, q);
            assert forall|i: int| 0 <= i < area(s) && #[trigger] t.seen[i] implies exists|h: int|
                #[trigger] judged_at(p, depth, budget, t.found, i, h) by {
                let r = pt(s, i);
                assert(idx(s, r) == i);
                if block(s, b, q).contains(r) {
                    lemma_connected_sym(s, b, q, r);
                    lemma_connected_cell(s, b, q, r);
                    lemma_same_block(s, b, q, r);
                    assert forall|j: int|
                        0 <= j < area(s) && #[trigger] connected(s, b, r, pt(s, j)) implies k - 1
                        <= j by {
                        if j < k - 1 {
                            let e = pt(s, j);
                            lemma_connected_cell(s, b, r, e);
                            assert(idx(s, e) == j && idx(s, q) == k - 1);
                            assert(b[j] == b[k - 1]);
                            assert(u.seen[j]);
                            assert(connected(s, b, q, e));
                            lemma_connected_sym(s, b, q, e);
                            assert(u.seen[k - 1]);
                        }
                    }
                    assert(judged_at(p, depth, budget, t.found, i, k - 1));
                } else {
                    assert(u.seen[i]);
                    let h = choose|h: int| #[trigger] judged_at(p, depth, budget, u.found, i, h);
                    assert(judged_at(p, depth, budget, t.found, i, h));
                }
            }
        }
    }
}

/// The census gives every stone the liberties, the size and the contact of its own
/// chain, judges all stones of a chain alike by its life and strength, and says nothing of
/// empty points.
pub proof fn law_census_by_chain(p: Pos, depth: nat, budget: int, q: Pt)
    requires
        pos_ok(p),
        inb(p.size, q),
    ensures
        ({
            let v = survey(p, depth, budget);
            let s = p.size;
            let b = p.board;
            let i = idx(s, q);
            if cell(s, b, q) == EMPTY {
                v.libs[i] == 0 && v.size[i] == 0 && !v.contact[i] && !v.dead[i] && v.strength[i]
                    == 0
            } else {
                &&& v.libs[i] == liberties(s, b, q).len()
                &&& v.size[i] == block(s, b, q).len()
                &&& v.contact[i] == has_contact(s, b, q)
                &&& exists|h: int| #[trigger] judged_at(p, depth, budget, v, i, h)
                &&& forall|r: Pt| #[trigger]
                    connected(s, b, q, r) ==> v.dead[idx(s, r)] == v.dead[i] && v.strength[idx(
                        s,
                        r,
                    )] == v.strength[i]
            }
        }),
{
    let s = p.size;
    let b = p.board;
    let t = tally(p, depth, budget, area(s) as nat);
    lemma_area(s);
    lemma_tally(p, depth, budget, area(s) as nat);
    lemma_judged(p, depth, budget, area(s) as nat);
    lemma_idx(s, q);
    let i = idx(s, q);
    assert(pt(s, i) == q);
    if cell(s, b, q) != EMPTY {
        assert(t.seen[i]);
        assert forall|r: Pt| #[trigger] connected(s, b, q, r) implies t.found.dead[idx(s, r)]
            == t.found.dead[i] && t.found.strength[idx(s, r)] == t.found.strength[i] by {
            lemma_connected_cell(s, b, q, r);
            lemma_idx(s, r);
            assert(pt(s, idx(s, r)) == r);
            assert(t.seen[idx(s, r)]);
        }
    } else {
        assert(!t.seen[i]);
    }
}

} // verus!
