//! The index of captured photos, ordered by capture time.
//!
//! The index maps a capture timestamp (seconds since the epoch) to the
//! reference under which the photo store keeps the photo; it is held in an
//! ordered map of the standard library. There is at most one
//! photo per second: a later capture in the same second takes the earlier
//! one's place. Nothing is ever removed. Every capture time in the index is one
//! that a calendar date stands for.

use crate::calendar::has_calendar_date;
use crate::calendar::utc_label;
use crate::order::lemma_keys_ascend;
use crate::order::lemma_timestamps_ordered;
use crate::predicate::meaning_accepts;
use crate::predicate::Clause;
use crate::predicate::Predicate;
use std::collections::BTreeMap;
use vstd::prelude::*;
use vstd::std_specs::iter::IteratorSpec;

verus! {

/// One captured photo: when it was taken and where its bytes are kept.
#[derive(Debug, Clone)]
pub struct PhotoRecord {
    pub timestamp: i64,
    pub reference: String,
}

impl View for PhotoRecord {
    type V = (i64, Seq<char>);

    open spec fn view(&self) -> (i64, Seq<char>) {
        (self.timestamp, self.reference@)
    }
}

/// The records of a sequence as pairs of timestamp and reference.
pub open spec fn views(records: Seq<PhotoRecord>) -> Seq<(i64, Seq<char>)> {
    records.map_values(|r: PhotoRecord| r@)
}

/// Timestamps grow strictly along the sequence.
pub open spec fn ascending(entries: Seq<(i64, Seq<char>)>) -> bool {
    forall|i: int, j: int| 0 <= i < j < entries.len() ==> (#[trigger] entries[i]).0 < (#[trigger] entries[j]).0
}

/// `entries` holds exactly the pairs of the map, in ascending order of
/// timestamp. There is one such sequence for a finite map.
pub open spec fn lists(entries: Seq<(i64, Seq<char>)>, photos: Map<i64, Seq<char>>) -> bool {
    &&& ascending(entries)
    &&& forall|i: int|
        0 <= i < entries.len() ==> photos.contains_pair((#[trigger] entries[i]).0, entries[i].1)
    &&& forall|t: i64| photos.contains_key(t) ==> #[trigger] entries.contains((t, photos[t]))
}

/// The photos whose timestamp a compiled query accepts.
pub open spec fn selected(
    photos: Map<i64, Seq<char>>,
    meaning: Option<Seq<Clause>>,
) -> Map<i64, Seq<char>> {
    Map::new(|t: i64| photos.contains_key(t) && meaning_accepts(meaning, t), |t: i64| photos[t])
}

/// Whether some entry carries the timestamp.
pub open spec fn has_timestamp(entries: Seq<(i64, Seq<char>)>, t: i64) -> bool {
    exists|i: int| 0 <= i < entries.len() && (#[trigger] entries[i]).0 == t
}

/// Two sequences that list the same map are equal.
pub proof fn lemma_lists_unique(
    a: Seq<(i64, Seq<char>)>,
    b: Seq<(i64, Seq<char>)>,
    photos: Map<i64, Seq<char>>,
)
    requires
        lists(a, photos),
        lists(b, photos),
    ensures
        a == b,
    decreases a.len(),
{
    if a.len() == 0 {
        if b.len() > 0 {
            assert(photos.contains_pair(b[0].0, b[0].1));
            assert(a.contains((b[0].0, photos[b[0].0])));
        }
        assert(a =~= b);
    } else {
        let last = a.last();
        assert(photos.contains_pair(last.0, last.1));
        assert(b.contains((last.0, photos[last.0])));
        let at = choose|k: int| 0 <= k < b.len() && b[k] == last;
        if at < b.len() - 1 {
            let later = b.last();
            assert(b[at].0 < later.0);
            assert(photos.contains_pair(later.0, later.1));
            assert(a.contains((later.0, photos[later.0])));
            let back = choose|k: int| 0 <= k < a.len() && a[k] == later;
            if back < a.len() - 1 {
                assert(a[back].0 < a.last().0);
            }
        }
        let rest = photos.remove(last.0);
        let a0 = a.drop_last();
        let b0 = b.drop_last();
        assert forall|t: i64| rest.contains_key(t) implies #[trigger] a0.contains((t, rest[t])) by {
            assert(a.contains((t, photos[t])));
            let k = choose|k: int| 0 <= k < a.len() && a[k] == (t, photos[t]);
            assert(a0[k] == a[k]);
        }
        assert forall|t: i64| rest.contains_key(t) implies #[trigger] b0.contains((t, rest[t])) by {
            assert(b.contains((t, photos[t])));
            let k = choose|k: int| 0 <= k < b.len() && b[k] == (t, photos[t]);
            assert(b0[k] == b[k]);
        }
        assert forall|i: int| 0 <= i < a0.len() implies rest.contains_pair(
            (#[trigger] a0[i]).0,
            a0[i].1,
        ) by {
            assert(a0[i] == a[i]);
            assert(a[i].0 < a.last().0);
            assert(photos.contains_pair(a[i].0, a[i].1));
        }
        assert forall|i: int| 0 <= i < b0.len() implies rest.contains_pair(
            (#[trigger] b0[i]).0,
            b0[i].1,
        ) by {
            assert(b0[i] == b[i]);
            assert(b[i].0 < b.last().0);
            assert(photos.contains_pair(b[i].0, b[i].1));
        }
        assert(ascending(a0)) by {
            assert forall|i: int, j: int| 0 <= i < j < a0.len() implies (#[trigger] a0[i]).0 < (
            #[trigger] a0[j]).0 by {
                assert(a0[i] == a[i] && a0[j] == a[j]);
            }
        }
        assert(ascending(b0)) by {
            assert forall|i: int, j: int| 0 <= i < j < b0.len() implies (#[trigger] b0[i]).0 < (
            #[trigger] b0[j]).0 by {
                assert(b0[i] == b[i] && b0[j] == b[j]);
            }
        }
        lemma_lists_unique(a0, b0, rest);
        assert(a =~= a0.push(last));
        assert(b =~= b0.push(last));
    }
}

/// The photos captured so far, by capture time.
#[derive(Debug)]
pub struct PhotoIndex {
    photos: BTreeMap<i64, String>,
}

impl View for PhotoIndex {
    type V = Map<i64, Seq<char>>;

    /// The index as a map from timestamp to reference.
    closed spec fn view(&self) -> Map<i64, Seq<char>> {
        Map::new(|t: i64| self.photos@.contains_key(t), |t: i64| self.photos@[t]@)
    }
}

/// A calendar date stands for every timestamp of the map.
pub open spec fn dated(photos: Map<i64, Seq<char>>) -> bool {
    forall|t: i64| #[trigger] photos.contains_key(t) ==> utc_label(t) is Some
}

/// Why a photo was not recorded.
#[derive(Debug, Clone, Copy, PartialEq, Eq, Structural)]
pub enum IndexError {
    /// No calendar date stands for the capture time.
    NoCalendarDate,
}

/// What an ordered map hands out, as pairs of timestamp and reference.
pub open spec fn handed_out(all: Seq<(&i64, &String)>) -> Seq<(i64, Seq<char>)> {
    Seq::new(all.len(), |j: int| (*all[j].0, (*all[j].1)@))
}

impl PhotoIndex {
    #[verifier::type_invariant]
    spec fn all_dated(self) -> bool {
        dated(self@)
    }

    /// An index without photos.
    pub fn new() -> (index: PhotoIndex)
        ensures
            index@ == Map::<i64, Seq<char>>::empty(),
    {
        let index = PhotoIndex { photos: BTreeMap::new() };
        assert(index@ =~= Map::<i64, Seq<char>>::empty());
        index
    }

    /// The number of photos.
    pub fn len(&self) -> (n: usize)
        ensures
            n == self@.len(),
            self@.dom().finite(),
            dated(self@),
    {
        broadcast use vstd::std_specs::btree::group_btree_axioms;

        proof {
            use_type_invariant(self);
            lemma_timestamps_ordered();
            assert(self@.dom() =~= self.photos@.dom());
        }
        self.photos.len()
    }

    /// Records a photo under its capture time. A photo already recorded for
    /// that second is replaced. A capture time that no calendar date stands
    /// for is refused, and the index stays as it is.
    pub fn insert(&mut self, timestamp: i64, reference: String) -> (r: Result<(), IndexError>)
        ensures
            r is Ok <==> utc_label(timestamp) is Some,
            r is Ok ==> final(self)@ == old(self)@.insert(timestamp, reference@),
            r is Err ==> final(self)@ == old(self)@,
            dated(final(self)@),
    {
        proof {
            use_type_invariant(&*self);
            lemma_timestamps_ordered();
        }
        if !has_calendar_date(timestamp) {
            return Err(IndexError::NoCalendarDate);
        }
        let mut photos: BTreeMap<i64, String> = BTreeMap::new();
        core::mem::swap(&mut self.photos, &mut photos);
        assert(self@ =~= Map::<i64, Seq<char>>::empty());
        photos.insert(timestamp, reference);
        proof {
            let after = Map::new(|t: i64| photos@.contains_key(t), |t: i64| photos@[t]@);
            assert(after =~= old(self)@.insert(timestamp, reference@));
            assert(dated(after));
        }
        core::mem::swap(&mut self.photos, &mut photos);
        Ok(())
    }

    /// The photos whose capture time the predicate accepts, in ascending order
    /// of capture time. The index is left as it is.
    pub fn select(&self, predicate: &Predicate) -> (chosen: Vec<PhotoRecord>)
        ensures
            lists(views(chosen@), selected(self@, predicate@)),
            dated(self@),
    {
        broadcast use vstd::std_specs::btree::group_btree_axioms;

        proof {
            use_type_invariant(self);
            lemma_timestamps_ordered();
        }
        let mut chosen: Vec<PhotoRecord> = Vec::new();
        let iter = self.photos.iter();
        let ghost all = iter.remaining();
        let ghost entries = handed_out(all);
        proof {
            lemma_keys_ascend(all);
            assert forall|i: int, j: int| 0 <= i < j < entries.len() implies (#[trigger] entries[i]).0
                < (#[trigger] entries[j]).0 by {
                assert(*all[i].0 < *all[j].0);
            }
            assert forall|i: int| 0 <= i < entries.len() implies self@.contains_pair(
                (#[trigger] entries[i]).0,
                entries[i].1,
            ) by {
                assert(self.photos@.contains_key(*all[i].0));
            }
            assert forall|t: i64| self@.contains_key(t) implies #[trigger] entries.contains(
                (t, self@[t]),
            ) by {
                assert(all.contains((&t, &self.photos@[t])));
                let j = choose|j: int| 0 <= j < all.len() && all[j] == (&t, &self.photos@[t]);
                assert(entries[j] == (t, self@[t]));
            }
            assert(lists(entries, self@));
        }
        for kv in it: iter
            invariant
                it.seq() == all,
                entries == handed_out(all),
                lists(entries, self@),
                ascending(views(chosen@)),
                forall|k: int, j: int|
                    0 <= k < chosen@.len() && it.index() <= j < entries.len() ==> (#[trigger] views(
                        chosen@,
                    )[k]).0 < (#[trigger] entries[j]).0,
                forall|k: int|
                    0 <= k < chosen@.len() ==> entries.contains(#[trigger] views(chosen@)[k])
                        && predicate.accepts(views(chosen@)[k].0),
                forall|j: int|
                    0 <= j < it.index() && predicate.accepts((#[trigger] entries[j]).0) ==> views(
                        chosen@,
                    ).contains(entries[j]),
        {
            let ghost i = it.index();
            assert(entries[i] == (*kv.0, (*kv.1)@));
            if predicate.matches(*kv.0) {
                let ghost before = views(chosen@);
                chosen.push(PhotoRecord { timestamp: *kv.0, reference: kv.1.clone() });
                proof {
                    let now = views(chosen@);
                    assert(now =~= before.push(entries[i]));
                    assert forall|j: int|
                        0 <= j < i + 1 && predicate.accepts(
                            (#[trigger] entries[j]).0,
                        ) implies now.contains(entries[j]) by {
                        if j < i {
                            let k = choose|k: int| 0 <= k < before.len() && before[k] == entries[j];
                            assert(now[k] == entries[j]);
                        } else {
                            assert(now[before.len() as int] == entries[j]);
                        }
                    }
                    assert forall|k: int, j: int|
                        0 <= k < now.len() && i + 1 <= j < entries.len() implies (#[trigger] now[k]).0
                        < (#[trigger] entries[j]).0 by {
                        if k == before.len() {
                            assert(entries[i].0 < entries[j].0);
                        } else {
                            assert(now[k] == before[k]);
                        }
                    }
                    assert forall|a: int, b: int| 0 <= a < b < now.len() implies (#[trigger] now[a]).0
                        < (#[trigger] now[b]).0 by {
                        if b == before.len() {
                            assert(now[a] == before[a]);
                            assert(before[a].0 < entries[i].0);
                        } else {
                            assert(now[a] == before[a] && now[b] == before[b]);
                        }
                    }
                    assert forall|k: int| 0 <= k < now.len() implies entries.contains(
                        #[trigger] now[k],
                    ) && predicate.accepts(now[k].0) by {
                        if k < before.len() {
                            assert(now[k] == before[k]);
                        }
                    }
                }
            }
        }
        proof {
            let got = views(chosen@);
            let want = selected(self@, predicate@);
            assert forall|k: int| 0 <= k < got.len() implies want.contains_pair(
                (#[trigger] got[k]).0,
                got[k].1,
            ) by {
                assert(entries.contains(got[k]));
                let j = choose|j: int| 0 <= j < entries.len() && entries[j] == got[k];
                assert(self@.contains_pair(entries[j].0, entries[j].1));
            }
            assert forall|t: i64| want.contains_key(t) implies #[trigger] got.contains(
                (t, want[t]),
            ) by {
                assert(entries.contains((t, self@[t])));
                let j = choose|j: int| 0 <= j < entries.len() && entries[j] == (t, self@[t]);
                assert(predicate.accepts(entries[j].0));
            }
        }
        chosen
    }
}

/// The index after a sequence of photos was recorded, one after the other,
/// starting from the empty index.
pub open spec fn recorded(photos: Seq<(i64, Seq<char>)>) -> Map<i64, Seq<char>>
    decreases photos.len(),
{
    if photos.len() == 0 {
        Map::empty()
    } else {
        recorded(photos.drop_last()).insert(photos.last().0, photos.last().1)
    }
}

/// After any sequence of inserts the index holds the timestamps that were
/// recorded and no others.
pub proof fn lemma_recorded_timestamps(photos: Seq<(i64, Seq<char>)>, t: i64)
    ensures
        recorded(photos).contains_key(t) <==> has_timestamp(photos, t),
    decreases photos.len(),
{
    if photos.len() > 0 {
        let rest = photos.drop_last();
        lemma_recorded_timestamps(rest, t);
        if has_timestamp(rest, t) {
            let i = choose|i: int| 0 <= i < rest.len() && (#[trigger] rest[i]).0 == t;
            assert(photos[i] == rest[i]);
        }
        if has_timestamp(photos, t) {
            let i = choose|i: int| 0 <= i < photos.len() && (#[trigger] photos[i]).0 == t;
            if i < rest.len() {
                assert(rest[i] == photos[i]);
            }
        }
    }
}

/// After any sequence of inserts the index holds, for each timestamp, the
/// reference of the latest insert for it: insert `i` counts if no later one
/// has its timestamp.
pub proof fn lemma_recorded_keeps_latest(photos: Seq<(i64, Seq<char>)>, i: int)
    requires
        0 <= i < photos.len(),
        forall|j: int| i < j < photos.len() ==> (#[trigger] photos[j]).0 != photos[i].0,
    ensures
        recorded(photos).contains_pair(photos[i].0, photos[i].1),
    decreases photos.len(),
{
    if i < photos.len() - 1 {
        let rest = photos.drop_last();
        assert(photos[photos.len() - 1].0 != photos[i].0);
        assert(rest[i] == photos[i]);
        assert forall|j: int| i < j < rest.len() implies (#[trigger] rest[j]).0 != rest[i].0 by {
            assert(rest[j] == photos[j]);
        }
        lemma_recorded_keeps_latest(rest, i);
    }
}

/// Selecting with the predicate that accepts everything selects the whole
/// index.
pub proof fn lemma_select_everything(photos: Map<i64, Seq<char>>)
    ensures
        selected(photos, Some(Seq::<Clause>::empty())) == photos,
{
    assert(selected(photos, Some(Seq::<Clause>::empty())) =~= photos);
}

/// Selecting with the predicate that accepts nothing selects no photo.
pub proof fn lemma_select_nothing(photos: Map<i64, Seq<char>>)
    ensures
        selected(photos, None) == Map::<i64, Seq<char>>::empty(),
{
    assert(selected(photos, None) =~= Map::<i64, Seq<char>>::empty());
}

/// The index of the latest insert for a timestamp, or -1 if there is none.
pub open spec fn latest(photos: Seq<(i64, Seq<char>)>, t: i64) -> int
    decreases photos.len(),
{
    if photos.len() == 0 {
        -1
    } else if photos.last().0 == t {
        photos.len() - 1
    } else {
        latest(photos.drop_last(), t)
    }
}

/// `latest` is the greatest index that carries the timestamp.
pub proof fn lemma_latest(photos: Seq<(i64, Seq<char>)>, t: i64)
    ensures
        -1 <= latest(photos, t) < photos.len(),
        latest(photos, t) >= 0 <==> has_timestamp(photos, t),
        latest(photos, t) >= 0 ==> photos[latest(photos, t)].0 == t,
        forall|j: int| latest(photos, t) < j < photos.len() ==> (#[trigger] photos[j]).0 != t,
    decreases photos.len(),
{
    if photos.len() > 0 {
        let rest = photos.drop_last();
        lemma_latest(rest, t);
        if photos.last().0 == t {
            assert(photos[photos.len() - 1].0 == t);
        } else {
            if latest(rest, t) >= 0 {
                assert(photos[latest(rest, t)] == rest[latest(rest, t)]);
            }
            if has_timestamp(photos, t) {
                let i = choose|i: int| 0 <= i < photos.len() && (#[trigger] photos[i]).0 == t;
                assert(rest[i] == photos[i]);
            }
            assert forall|j: int| latest(photos, t) < j < photos.len() implies (
            #[trigger] photos[j]).0 != t by {
                if j < rest.len() {
                    assert(rest[j] == photos[j]);
                }
            }
        }
    }
}

/// After any sequence of inserts, selecting with the predicate that accepts
/// everything gives the latest record of each timestamp, and nothing else, in
/// ascending order of timestamp.
pub proof fn lemma_select_all_after_inserts(
    photos: Seq<(i64, Seq<char>)>,
    listing: Seq<(i64, Seq<char>)>,
)
    requires
        lists(listing, selected(recorded(photos), Some(Seq::<Clause>::empty()))),
    ensures
        ascending(listing),
        forall|k: int|
            0 <= k < listing.len() ==> 0 <= latest(photos, (#[trigger] listing[k]).0) && listing[k]
                == photos[latest(photos, listing[k].0)],
        forall|i: int|
            0 <= i < photos.len() && latest(photos, (#[trigger] photos[i]).0) == i
                ==> listing.contains(photos[i]),
{
    lemma_select_everything(recorded(photos));
    let index = recorded(photos);
    assert forall|k: int| 0 <= k < listing.len() implies 0 <= latest(
        photos,
        (#[trigger] listing[k]).0,
    ) && listing[k] == photos[latest(photos, listing[k].0)] by {
        let t = listing[k].0;
        assert(index.contains_pair(t, listing[k].1));
        lemma_recorded_timestamps(photos, t);
        lemma_latest(photos, t);
        lemma_recorded_keeps_latest(photos, latest(photos, t));
    }
    assert forall|i: int|
        0 <= i < photos.len() && latest(photos, (#[trigger] photos[i]).0) == i implies listing.contains(
        photos[i],
    ) by {
        let t = photos[i].0;
        lemma_latest(photos, t);
        lemma_recorded_keeps_latest(photos, i);
        assert(listing.contains((t, index[t])));
    }
}

} // verus!
