//! Counting indices with a property.

use vstd::prelude::*;

verus! {

/// The indices below `k` with property `f`.
pub open spec fn below(k: int, f: spec_fn(int) -> bool) -> Set<int> {
    Set::new(|i: int| 0 <= i < k && f(i))
}

/// Number of indices below `k` with property `f`.
pub open spec fn count(k: int, f: spec_fn(int) -> bool) -> int {
    below(k, f).len() as int
}

pub proof fn lemma_below_finite(k: int, f: spec_fn(int) -> bool)
    requires
        0 <= k,
    ensures
        below(k, f).finite(),
        0 <= count(k, f) <= k,
{
    vstd::set_lib::lemma_int_range(0, k);
    vstd::set_lib::lemma_len_subset(below(k, f), vstd::set_lib::set_int_range(0, k));
}

pub proof fn lemma_count_zero(f: spec_fn(int) -> bool)
    ensures
        count(0, f) == 0,
{
    assert(below(0, f) =~= Set::<int>::empty());
}

pub proof fn lemma_count_step(k: int, f: spec_fn(int) -> bool)
    requires
        0 <= k,
    ensures
        count(k + 1, f) == count(k, f) + if f(k) {
            1int
        } else {
            0
        },
        0 <= count(k, f) <= k,
{
    lemma_below_finite(k, f);
    if f(k) {
        assert(below(k + 1, f) =~= below(k, f).insert(k));
    } else {
        assert(below(k + 1, f) =~= below(k, f));
    }
}

/// Properties that exclude each other and cover no more than a third.
pub proof fn lemma_count_disjoint(
    k: int,
    f: spec_fn(int) -> bool,
    g: spec_fn(int) -> bool,
    h: spec_fn(int) -> bool,
)
    requires
        0 <= k,
        forall|i: int| 0 <= i < k ==> !(#[trigger] f(i) && g(i)),
        forall|i: int| 0 <= i < k ==> (#[trigger] h(i) <==> f(i) || g(i)),
    ensures
        count(k, h) == count(k, f) + count(k, g),
{
    lemma_below_finite(k, f);
    lemma_below_finite(k, g);
    assert(below(k, h) =~= below(k, f) + below(k, g));
    vstd::set_lib::lemma_set_disjoint_lens(below(k, f), below(k, g));
}

} // verus!
