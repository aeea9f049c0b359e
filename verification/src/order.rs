//! The order of timestamps, as the ordered collections of the standard library
//! rely on it.

use vstd::prelude::*;
use vstd::std_specs::btree::increasing_seq;
use vstd::std_specs::btree::key_obeys_cmp_spec;
use vstd::std_specs::cmp::OrdSpec;

verus! {

/// Timestamps compare as integers do, which is what an ordered map of the
/// standard library needs of its keys.
pub proof fn lemma_timestamps_ordered()
    ensures
        vstd::laws_cmp::obeys_cmp::<i64>(),
        key_obeys_cmp_spec::<i64>(),
{
    broadcast use vstd::laws_cmp::group_laws_cmp;
    broadcast use vstd::std_specs::btree::group_btree_axioms;

}

/// What an ordered map hands out in increasing order of its keys has
/// timestamps that grow strictly.
pub proof fn lemma_keys_ascend(all: Seq<(&i64, &String)>)
    requires
        increasing_seq(all.map_values(|kv: (&i64, &String)| *kv.0)),
    ensures
        forall|i: int, j: int|
            0 <= i < j < all.len() ==> *(#[trigger] all[i]).0 < *(#[trigger] all[j]).0,
{
    broadcast use vstd::laws_cmp::group_laws_cmp;
    broadcast use vstd::std_specs::btree::group_btree_axioms;

    let keys = all.map_values(|kv: (&i64, &String)| *kv.0);
    assert forall|i: int, j: int| 0 <= i < j < all.len() implies *(#[trigger] all[i]).0 < *(
    #[trigger] all[j]).0 by {
        assert(keys[i] == *all[i].0 && keys[j] == *all[j].0);
        assert(keys[i].cmp_spec(&keys[j]) == core::cmp::Ordering::Less);
    }
}

} // verus!
