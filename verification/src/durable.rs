//! The durable mirror of the photo index.
//!
//! Every photo is written to a key-value store as it is recorded: the key is
//! the capture timestamp as eight little-endian bytes, the value the
//! reference as UTF-8. At startup the index is rebuilt from a scan of the
//! store. An entry that cannot be read back makes the rebuild fail; nothing is
//! recovered in part.

use crate::calendar::has_calendar_date;
use crate::calendar::utc_label;
use crate::photo_index::dated;
use crate::photo_index::PhotoIndex;
use vstd::bytes::*;
use vstd::prelude::*;
use vstd::string::*;
use vstd::utf8::*;

verus! {

/// The length of a key in bytes.
pub const KEY_LEN: usize = 8;

/// One entry of the store.
#[derive(Debug)]
pub struct StoredEntry {
    pub key: Vec<u8>,
    pub value: Vec<u8>,
}

impl View for StoredEntry {
    type V = (Seq<u8>, Seq<u8>);

    open spec fn view(&self) -> (Seq<u8>, Seq<u8>) {
        (self.key@, self.value@)
    }
}

/// Why the index could not be rebuilt. `position` counts the entries of the
/// scan from zero.
#[derive(Debug, Clone, Copy, PartialEq, Eq, Structural)]
pub enum RebuildError {
    /// The key is not eight bytes long.
    BadKey { position: usize },
    /// No calendar date stands for the timestamp of the key.
    BadTimestamp { position: usize },
    /// The value is not UTF-8.
    BadReference { position: usize },
}

/// The key under which a timestamp is stored: its two's complement in eight
/// bytes, least significant byte first.
pub open spec fn durable_key(timestamp: i64) -> Seq<u8> {
    spec_u64_to_le_bytes(timestamp as u64)
}

/// The value under which a reference is stored.
pub open spec fn durable_value(reference: Seq<char>) -> Seq<u8> {
    encode_utf8(reference)
}

/// The timestamp that a key stands for.
pub open spec fn key_timestamp(key: Seq<u8>) -> Option<i64> {
    if key.len() == KEY_LEN {
        Some(spec_u64_from_le_bytes(key) as i64)
    } else {
        None
    }
}

/// The reference that a value stands for.
pub open spec fn value_reference(value: Seq<u8>) -> Option<Seq<char>> {
    if valid_utf8(value) {
        Some(decode_utf8(value))
    } else {
        None
    }
}

/// The capture time that a key stands for: its timestamp, if a calendar date
/// stands for that.
pub open spec fn key_time(key: Seq<u8>) -> Option<i64> {
    match key_timestamp(key) {
        Some(t) => if utc_label(t) is Some {
            Some(t)
        } else {
            None
        },
        None => None,
    }
}

/// The photo that a stored entry stands for.
pub open spec fn decoded(entry: (Seq<u8>, Seq<u8>)) -> Option<(i64, Seq<char>)> {
    match (key_time(entry.0), value_reference(entry.1)) {
        (Some(t), Some(r)) => Some((t, r)),
        _ => None,
    }
}

/// The entries of a scan as pairs of key and value.
pub open spec fn scan_of(stored: Seq<StoredEntry>) -> Seq<(Seq<u8>, Seq<u8>)> {
    stored.map_values(|e: StoredEntry| e@)
}

/// The index that a scan of the store rebuilds: its entries recorded in the
/// order of the scan, or `None` where one of them cannot be read.
pub open spec fn rebuilt(scan: Seq<(Seq<u8>, Seq<u8>)>) -> Option<Map<i64, Seq<char>>>
    decreases scan.len(),
{
    if scan.len() == 0 {
        Some(Map::empty())
    } else {
        match (rebuilt(scan.drop_last()), decoded(scan.last())) {
            (Some(photos), Some(e)) => Some(photos.insert(e.0, e.1)),
            _ => None,
        }
    }
}

/// A key reads back as the timestamp it was made from.
pub proof fn lemma_key_round_trip(timestamp: i64)
    ensures
        durable_key(timestamp).len() == KEY_LEN,
        key_timestamp(durable_key(timestamp)) == Some(timestamp),
{
    lemma_auto_spec_u64_to_from_le_bytes();
    let u = timestamp as u64;
    assert(u as i64 == timestamp) by (bit_vector)
        requires
            u == timestamp as u64,
    ;
}

/// A value reads back as the reference it was made from.
pub proof fn lemma_value_round_trip(reference: Seq<char>)
    ensures
        value_reference(durable_value(reference)) == Some(reference),
{
    encode_utf8_valid_utf8(reference);
    encode_utf8_decode_utf8(reference);
}

/// The store entry that mirrors a photo.
pub fn stored_entry(timestamp: i64, reference: &str) -> (entry: StoredEntry)
    ensures
        entry@ == (durable_key(timestamp), durable_value(reference@)),
        key_timestamp(entry@.0) == Some(timestamp),
        value_reference(entry@.1) == Some(reference@),
{
    proof {
        lemma_key_round_trip(timestamp);
        lemma_value_round_trip(reference@);
    }
    let key = u64_to_le_bytes(#[verifier::truncate] (timestamp as u64));
    let value = reference.as_bytes_vec();
    StoredEntry { key, value }
}

/// Reads a key back.
pub fn read_key(key: &[u8]) -> (timestamp: Option<i64>)
    ensures
        timestamp == key_timestamp(key@),
{
    if key.len() != KEY_LEN {
        return None;
    }
    let raw: u64 = u64_from_le_bytes(key);
    Some(#[verifier::truncate] (raw as i64))
}

/// `String::from_utf8` of the standard library: the text that the bytes
/// encode, or `None` where they are not UTF-8.
#[verifier::external_body]
fn string_from_utf8(bytes: Vec<u8>) -> (text: Option<String>)
    ensures
        text is Some <==> valid_utf8(bytes@),
        text matches Some(s) ==> s@ == decode_utf8(bytes@),
{
    String::from_utf8(bytes).ok()
}

/// Reads a value back.
pub fn read_reference(value: &Vec<u8>) -> (reference: Option<String>)
    ensures
        reference is Some <==> value_reference(value@) is Some,
        reference matches Some(s) ==> value_reference(value@) == Some(s@),
{
    string_from_utf8(value.clone())
}

impl PhotoIndex {
    /// Rebuilds the index from a scan of the store, whatever the order of the
    /// scan. Fails at the first entry that cannot be read: on its key, then on
    /// the timestamp of the key, then on its value.
    pub fn rebuild(stored: &Vec<StoredEntry>) -> (r: Result<PhotoIndex, RebuildError>)
        ensures
            match r {
                Ok(index) => rebuilt(scan_of(stored@)) == Some(index@),
                Err(e) => {
                    let position = match e {
                        RebuildError::BadKey { position } => position,
                        RebuildError::BadTimestamp { position } => position,
                        RebuildError::BadReference { position } => position,
                    };
                    &&& position < stored@.len()
                    &&& forall|k: int|
                        0 <= k < position ==> decoded(#[trigger] scan_of(stored@)[k]) is Some
                    &&& e == fault(stored@[position as int]@, position)
                    &&& decoded(stored@[position as int]@) is None
                },
            },
    {
        let ghost scan = scan_of(stored@);
        let mut index = PhotoIndex::new();
        let mut position: usize = 0;
        while position < stored.len()
            invariant
                position <= stored@.len(),
                scan == scan_of(stored@),
                rebuilt(scan.subrange(0, position as int)) == Some(index@),
                forall|k: int| 0 <= k < position ==> decoded(#[trigger] scan[k]) is Some,
            decreases stored@.len() - position,
        {
            let entry = &stored[position];
            assert(scan[position as int] == entry@);
            let timestamp: i64 = match read_key(entry.key.as_slice()) {
                Some(t) => t,
                None => {
                    return Err(RebuildError::BadKey { position });
                },
            };
            if !has_calendar_date(timestamp) {
                return Err(RebuildError::BadTimestamp { position });
            }
            let reference: String = match read_reference(&entry.value) {
                Some(s) => s,
                None => {
                    return Err(RebuildError::BadReference { position });
                },
            };
            match index.insert(timestamp, reference) {
                Ok(()) => {},
                Err(_) => {
                    return Err(RebuildError::BadTimestamp { position });
                },
            }
            proof {
                let next = scan.subrange(0, position + 1);
                assert(next.drop_last() =~= scan.subrange(0, position as int));
                assert(next.last() == scan[position as int]);
            }
            position = position + 1;
        }
        assert(scan.subrange(0, position as int) =~= scan);
        Ok(index)
    }
}

/// What is wrong with a stored entry that cannot be read, found at the given
/// position of the scan.
pub open spec fn fault(entry: (Seq<u8>, Seq<u8>), position: usize) -> RebuildError {
    if key_timestamp(entry.0) is None {
        RebuildError::BadKey { position }
    } else if key_time(entry.0) is None {
        RebuildError::BadTimestamp { position }
    } else {
        RebuildError::BadReference { position }
    }
}

/// The store that mirrors an index: under the key of each timestamp, the
/// value of its reference.
pub open spec fn mirror_of(photos: Map<i64, Seq<char>>) -> Map<Seq<u8>, Seq<u8>> {
    Map::new(
        |key: Seq<u8>| key_timestamp(key) is Some && photos.contains_key(key_timestamp(key)->0),
        |key: Seq<u8>| durable_value(photos[key_timestamp(key)->0]),
    )
}

/// Different timestamps have different keys.
pub proof fn lemma_key_of_timestamp(key: Seq<u8>, timestamp: i64)
    ensures
        key_timestamp(key) == Some(timestamp) <==> key == durable_key(timestamp),
{
    lemma_auto_spec_u64_to_from_le_bytes();
    lemma_key_round_trip(timestamp);
    if key_timestamp(key) == Some(timestamp) {
        let u = spec_u64_from_le_bytes(key);
        assert(u == timestamp as u64) by (bit_vector)
            requires
                u as i64 == timestamp,
        ;
        assert(spec_u64_to_le_bytes(spec_u64_from_le_bytes(key)) == key);
    }
}

/// Writing the entry of each recorded photo keeps the store the mirror of the
/// index.
pub proof fn lemma_mirror_insert(photos: Map<i64, Seq<char>>, timestamp: i64, reference: Seq<char>)
    ensures
        mirror_of(photos.insert(timestamp, reference)) == mirror_of(photos).insert(
            durable_key(timestamp),
            durable_value(reference),
        ),
{
    let a = mirror_of(photos.insert(timestamp, reference));
    let b = mirror_of(photos).insert(durable_key(timestamp), durable_value(reference));
    assert forall|key: Seq<u8>| a.contains_key(key) <==> b.contains_key(key) by {
        lemma_key_of_timestamp(key, timestamp);
    }
    assert forall|key: Seq<u8>| a.contains_key(key) implies a[key] == b[key] by {
        lemma_key_of_timestamp(key, timestamp);
    }
    assert(a =~= b);
}

/// A scan of the mirror rebuilds to photos of the index.
proof fn lemma_rebuilt_within(scan: Seq<(Seq<u8>, Seq<u8>)>, photos: Map<i64, Seq<char>>)
    requires
        dated(photos),
        forall|i: int|
            0 <= i < scan.len() ==> mirror_of(photos).contains_pair(
                (#[trigger] scan[i]).0,
                scan[i].1,
            ),
    ensures
        rebuilt(scan) is Some,
        forall|t: i64|
            rebuilt(scan)->0.contains_key(t) ==> photos.contains_pair(t, rebuilt(scan)->0[t]),
        forall|i: int|
            0 <= i < scan.len() ==> rebuilt(scan)->0.contains_key(
                key_timestamp((#[trigger] scan[i]).0)->0,
            ),
    decreases scan.len(),
{
    if scan.len() > 0 {
        let rest = scan.drop_last();
        let last = scan.last();
        assert forall|i: int| 0 <= i < rest.len() implies mirror_of(photos).contains_pair(
            (#[trigger] rest[i]).0,
            rest[i].1,
        ) by {
            assert(rest[i] == scan[i]);
        }
        lemma_rebuilt_within(rest, photos);
        assert(mirror_of(photos).contains_pair(last.0, last.1));
        let t = key_timestamp(last.0)->0;
        lemma_value_round_trip(photos[t]);
        assert(decoded(last) == Some((t, photos[t])));
        assert forall|i: int| 0 <= i < scan.len() implies rebuilt(scan)->0.contains_key(
            key_timestamp((#[trigger] scan[i]).0)->0,
        ) by {
            if i < rest.len() {
                assert(rest[i] == scan[i]);
            }
        }
    }
}

/// Rebuilding from any scan that holds the entries of the mirror, and no
/// others, gives back the index that was mirrored.
pub proof fn lemma_rebuild_restores(scan: Seq<(Seq<u8>, Seq<u8>)>, photos: Map<i64, Seq<char>>)
    requires
        dated(photos),
        forall|i: int|
            0 <= i < scan.len() ==> mirror_of(photos).contains_pair(
                (#[trigger] scan[i]).0,
                scan[i].1,
            ),
        forall|key: Seq<u8>|
            mirror_of(photos).contains_key(key) ==> #[trigger] scan.contains(
                (key, mirror_of(photos)[key]),
            ),
    ensures
        rebuilt(scan) == Some(photos),
{
    lemma_rebuilt_within(scan, photos);
    let got = rebuilt(scan)->0;
    assert forall|t: i64| photos.contains_key(t) implies got.contains_key(t) by {
        let key = durable_key(t);
        lemma_key_round_trip(t);
        assert(mirror_of(photos).contains_key(key));
        assert(scan.contains((key, mirror_of(photos)[key])));
        let i = choose|i: int| 0 <= i < scan.len() && scan[i] == (key, mirror_of(photos)[key]);
        assert(got.contains_key(key_timestamp(scan[i].0)->0));
    }
    assert(got =~= photos);
}

} // verus!
