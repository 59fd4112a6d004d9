//! Keys held in ascending order, each once.

use vstd::prelude::*;

verus! {

/// The keys stand in ascending order by `lt`, none twice.
pub open spec fn ascends<K>(keys: Seq<K>, lt: spec_fn(K, K) -> bool) -> bool {
    forall|i: int, j: int| 0 <= i < j < keys.len() ==> lt(#[trigger] keys[i], #[trigger] keys[j])
}

/// `lt` is a strict order: nothing is before itself, and what is before
/// something is before all that comes after it.
pub open spec fn strict_order<K>(lt: spec_fn(K, K) -> bool) -> bool {
    &&& forall|x: K| !#[trigger] lt(x, x)
    &&& forall|x: K, y: K, z: K| #[trigger] lt(x, y) && #[trigger] lt(y, z) ==> lt(x, z)
}

/// Two ascending lists of the same keys are the same list.
pub proof fn lemma_ascending_keys_unique<K>(a: Seq<K>, b: Seq<K>, lt: spec_fn(K, K) -> bool)
    requires
        strict_order(lt),
        ascends(a, lt),
        ascends(b, lt),
        forall|i: int| 0 <= i < a.len() ==> b.contains(#[trigger] a[i]),
        forall|j: int| 0 <= j < b.len() ==> a.contains(#[trigger] b[j]),
    ensures
        a == b,
    decreases a.len(),
{
    if a.len() == 0 {
        if b.len() > 0 {
            assert(a.contains(b[0]));
        }
        assert(a =~= b);
    } else {
        assert(b.contains(a[0]));
        let n = a.len() - 1;
        let m = b.len() - 1;
        assert(b.contains(a[n]));
        assert(a.contains(b[m]));
        let j = choose|j: int| 0 <= j < b.len() && b[j] == a[n];
        let i = choose|i: int| 0 <= i < a.len() && a[i] == b[m];
        if j < m {
            assert(lt(b[j], b[m]));
            if i < n {
                assert(lt(a[i], a[n]));
                assert(lt(a[n], a[n]));
            }
            assert(false);
        }
        assert(a[n] == b[m]);
        let front = a.drop_last();
        let other = b.drop_last();
        assert forall|i: int| 0 <= i < front.len() implies other.contains(#[trigger] front[i]) by {
            assert(b.contains(a[i]));
            let j = choose|j: int| 0 <= j < b.len() && b[j] == a[i];
            if j == m {
                assert(lt(a[i], a[n]));
                assert(false);
            }
            assert(other[j] == front[i]);
        }
        assert forall|j: int| 0 <= j < other.len() implies front.contains(#[trigger] other[j]) by {
            assert(a.contains(b[j]));
            let i = choose|i: int| 0 <= i < a.len() && a[i] == b[j];
            if i == n {
                assert(lt(b[j], b[m]));
                assert(false);
            }
            assert(front[i] == other[j]);
        }
        assert(ascends(front, lt)) by {
            assert forall|i: int, j: int| 0 <= i < j < front.len() implies lt(
                #[trigger] front[i],
                #[trigger] front[j],
            ) by {
                assert(lt(a[i], a[j]));
            }
        }
        assert(ascends(other, lt)) by {
            assert forall|i: int, j: int| 0 <= i < j < other.len() implies lt(
                #[trigger] other[i],
                #[trigger] other[j],
            ) by {
                assert(lt(b[i], b[j]));
            }
        }
        lemma_ascending_keys_unique(front, other, lt);
        assert(a =~= front.push(a[n]));
        assert(b =~= other.push(b[m]));
    }
}

} // verus!
