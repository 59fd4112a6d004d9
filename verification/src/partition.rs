//! Splitting a sequence into parts by tests that exclude one another loses
//! and repeats nothing.

use vstd::multiset::*;
use vstd::prelude::*;
use vstd::seq_lib::*;

verus! {

/// A value occurs among those picked from `s` as often as in `s` if it
/// passes the test, and not at all if it does not.
pub proof fn lemma_filter_count<T>(s: Seq<T>, pick: spec_fn(T) -> bool, x: T)
    ensures
        s.filter(pick).to_multiset().count(x) == if pick(x) {
            s.to_multiset().count(x)
        } else {
            0
        },
    decreases s.len(),
{
    broadcast use group_multiset_axioms;

    if s.len() == 0 {
        reveal(Seq::filter);
        s.to_multiset_ensures();
        assert(s.to_multiset().len() == 0);
    } else {
        let init = s.drop_last();
        let last = s.last();
        assert(s =~= init.push(last));
        init.lemma_filter_push(last, pick);
        lemma_filter_count(init, pick, x);
        to_multiset_build(init, last);
        if pick(last) {
            to_multiset_build(init.filter(pick), last);
        }
    }
}

/// The value `x` passes one of the tests.
pub open spec fn passes_one<T>(picks: Seq<spec_fn(T) -> bool>, x: T) -> bool {
    exists|i: int| 0 <= i < picks.len() && (#[trigger] picks[i])(x)
}

/// Where each part holds what one test picks from `whole`, and no value
/// passes two tests, a value occurs in the parts together as often as in
/// `whole` if it passes one of the tests, and not at all if it passes none.
pub proof fn lemma_partition_count<T>(
    whole: Seq<T>,
    parts: Seq<Seq<T>>,
    picks: Seq<spec_fn(T) -> bool>,
    x: T,
)
    requires
        parts.len() == picks.len(),
        forall|i: int|
            0 <= i < parts.len() ==> (#[trigger] parts[i]).to_multiset() == whole.filter(
                picks[i],
            ).to_multiset(),
        forall|i: int, j: int|
            0 <= i < j < picks.len() ==> !((#[trigger] picks[i])(x) && (#[trigger] picks[j])(x)),
    ensures
        parts.flatten().to_multiset().count(x) == if passes_one(picks, x) {
            whole.to_multiset().count(x)
        } else {
            0
        },
    decreases parts.len(),
{
    broadcast use group_multiset_axioms;

    if parts.len() == 0 {
        parts.flatten().to_multiset_ensures();
        assert(parts.flatten().to_multiset().len() == 0);
    } else {
        let n = parts.len() - 1;
        let init = parts.drop_last();
        let tests = picks.drop_last();
        assert(parts =~= init.push(parts[n]));
        init.lemma_flatten_push(parts[n]);
        lemma_multiset_commutative(init.flatten(), parts[n]);
        assert forall|i: int| 0 <= i < init.len() implies (#[trigger] init[i]).to_multiset()
            == whole.filter(tests[i]).to_multiset() by {
            assert(init[i] == parts[i]);
            assert(tests[i] == picks[i]);
        }
        assert forall|i: int, j: int| 0 <= i < j < tests.len() implies !((#[trigger] tests[i])(x)
            && (#[trigger] tests[j])(x)) by {
            assert(tests[i] == picks[i]);
            assert(tests[j] == picks[j]);
        }
        lemma_partition_count(whole, init, tests, x);
        lemma_filter_count(whole, picks[n], x);
        if passes_one(tests, x) {
            let i = choose|i: int| 0 <= i < tests.len() && (#[trigger] tests[i])(x);
            assert(tests[i] == picks[i]);
            assert(picks[i](x));
            assert(!picks[n](x));
        } else if picks[n](x) {
        } else {
            assert forall|i: int| 0 <= i < picks.len() implies !(#[trigger] picks[i])(x) by {
                if i < n {
                    assert(tests[i] == picks[i]);
                }
            }
        }
    }
}

/// Where each part holds what one test picks from `whole`, no value passes
/// two tests, and every member of `whole` passes one, the parts together
/// hold the members of `whole`, each as often as `whole` does.
pub proof fn lemma_partition<T>(whole: Seq<T>, parts: Seq<Seq<T>>, picks: Seq<spec_fn(T) -> bool>)
    requires
        parts.len() == picks.len(),
        forall|i: int|
            0 <= i < parts.len() ==> (#[trigger] parts[i]).to_multiset() == whole.filter(
                picks[i],
            ).to_multiset(),
        forall|i: int, j: int, x: T|
            #![trigger picks[i](x), picks[j](x)]
            0 <= i < j < picks.len() ==> !(picks[i](x) && picks[j](x)),
        forall|k: int| 0 <= k < whole.len() ==> passes_one(picks, #[trigger] whole[k]),
    ensures
        parts.flatten().to_multiset() == whole.to_multiset(),
{
    broadcast use group_multiset_axioms;

    assert forall|x: T|
        parts.flatten().to_multiset().count(x) == whole.to_multiset().count(x) by {
        assert forall|i: int, j: int| 0 <= i < j < picks.len() implies !((#[trigger] picks[i])(x)
            && (#[trigger] picks[j])(x)) by {
            assert(!(picks[i](x) && picks[j](x)));
        }
        lemma_partition_count(whole, parts, picks, x);
        if whole.to_multiset().count(x) > 0 {
            to_multiset_contains(whole, x);
            let k = choose|k: int| 0 <= k < whole.len() && whole[k] == x;
            assert(passes_one(picks, whole[k]));
        }
    }
    assert(parts.flatten().to_multiset() =~= whole.to_multiset());
}

} // verus!
