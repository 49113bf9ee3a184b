//! Sorting of packed Morton keys.
//!
//! A primitive's 30-bit Morton code and its input position are packed into
//! one 64-bit key, code in the high half, position in the low half.  Keys
//! are therefore pairwise distinct, every tie between equal codes is broken
//! by input position, and the sorted order is unique: whichever sorting
//! strategy produced it, the result equals the canonical sorted sequence.

use vstd::prelude::*;
use vstd::relations::{sorted_by, total_ordering};
use crate::morton::MortonPrimitive;
use rdst::RadixSort;

verus! {

/// The ordering the keys are sorted by.
pub open spec fn key_leq() -> spec_fn(u64, u64) -> bool {
    |a: u64, b: u64| a <= b
}

/// The canonical ascending ordering of a key sequence.
pub open spec fn spec_sorted_keys(s: Seq<u64>) -> Seq<u64> {
    s.sort_by(key_leq())
}

/// The packed 64-bit sort key of a Morton primitive.
pub open spec fn spec_pack_key(mp: MortonPrimitive) -> u64 {
    ((mp.morton_code as u64) << 32) | (mp.index as u64)
}

/// The Morton primitive a packed key stands for.
pub open spec fn spec_unpack_key(k: u64) -> MortonPrimitive {
    MortonPrimitive { index: (k & 0xffff_ffff) as u32, morton_code: (k >> 32) as u32 }
}

proof fn lemma_key_leq_total_ordering()
    ensures
        total_ordering(key_leq()),
{
}

/// Ascending order on keys is pinned by the multiset alone: two sorted
/// sequences carrying the same elements are equal.
pub proof fn lemma_sorted_unique(a: Seq<u64>, b: Seq<u64>)
    requires
        sorted_by(a, key_leq()),
        sorted_by(b, key_leq()),
        a.to_multiset() == b.to_multiset(),
    ensures
        a == b,
    decreases a.len(),
{
    broadcast use vstd::seq_lib::group_to_multiset_ensures;

    if a.len() == 0 {
        assert(b.len() == 0);
        assert(a =~= b);
    } else {
        assert(a.contains(a[0]));
        assert(b.to_multiset().count(a[0]) > 0);
        assert(b.contains(a[0]));
        assert(b.len() > 0);
        let ja = choose|j: int| 0 <= j < b.len() && b[j] == a[0];
        assert(key_leq()(b[0], b[ja]) || ja == 0);
        assert(b.contains(b[0]));
        assert(a.to_multiset().count(b[0]) > 0);
        assert(a.contains(b[0]));
        let ia = choose|j: int| 0 <= j < a.len() && a[j] == b[0];
        assert(key_leq()(a[0], a[ia]) || ia == 0);
        assert(a[0] == b[0]);
        let at = a.drop_first();
        let bt = b.drop_first();
        assert(a.remove(0) =~= at);
        assert(b.remove(0) =~= bt);
        assert(at.to_multiset() =~= bt.to_multiset());
        assert(sorted_by(at, key_leq())) by {
            assert forall|i: int, j: int| 0 <= i < j < at.len() implies #[trigger] key_leq()(
                at[i],
                at[j],
            ) by {
                assert(at[i] == a[i + 1] && at[j] == a[j + 1]);
                assert(key_leq()(a[i + 1], a[j + 1]));
            }
        }
        assert(sorted_by(bt, key_leq())) by {
            assert forall|i: int, j: int| 0 <= i < j < bt.len() implies #[trigger] key_leq()(
                bt[i],
                bt[j],
            ) by {
                assert(bt[i] == b[i + 1] && bt[j] == b[j + 1]);
                assert(key_leq()(b[i + 1], b[j + 1]));
            }
        }
        lemma_sorted_unique(at, bt);
        assert(a.len() == b.len());
        assert forall|i: int| 0 <= i < a.len() implies a[i] == b[i] by {
            if i > 0 {
                assert(a[i] == at[i - 1]);
                assert(b[i] == bt[i - 1]);
            }
        }
        assert(a =~= b);
    }
}

/// Relies on rdst's radix sort of `u64` keys: it reorders the vector in
/// place into ascending order.  The parallel flag only selects between the
/// multi-threaded and the single-threaded configuration of the same sort.
#[verifier::external_body]
fn radix_sort_keys(keys: Vec<u64>, parallel: bool) -> (r: Vec<u64>)
    ensures
        r@.to_multiset() == keys@.to_multiset(),
        forall|i: int, j: int| 0 <= i < j < r@.len() ==> r@[i] <= r@[j],
{
    let mut keys = keys;
    if parallel {
        keys.radix_sort_unstable();
    } else {
        keys.radix_sort_builder().with_single_threaded_tuner().with_parallel(false).sort();
    }
    keys
}

/// Sort the packed keys ascending.  Both threading modes return the one
/// canonical ordering, since all keys are distinct by construction.
pub fn sort_keys(keys: Vec<u64>, parallel: bool) -> (r: Vec<u64>)
    ensures
        r@ == spec_sorted_keys(keys@),
{
    let ghost orig = keys@;
    let r = radix_sort_keys(keys, parallel);
    proof {
        lemma_key_leq_total_ordering();
        orig.lemma_sort_by_ensures(key_leq());
        assert(sorted_by(r@, key_leq()));
        lemma_sorted_unique(r@, spec_sorted_keys(orig));
    }
    r
}

} // verus!
