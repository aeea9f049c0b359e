//! Writing a zip archive in memory, through the `zip` crate.
//!
//! An archive under construction is a `zip::ZipWriter` over a byte buffer.
//! What it holds is known here only as a sequence of entries, each a name and
//! the data written under it. Whether the writer takes an entry, and the bytes
//! of the finished archive, are whatever the crate makes of those entries.

use std::io::Cursor;
use std::io::Write;
use vstd::prelude::*;
use zip::result::ZipError;
use zip::write::FileOptions;
use zip::ZipWriter;

verus! {

/// An archive under construction: a `zip::ZipWriter` over a byte buffer in
/// memory. Nothing is known of it but the entries written to it.
#[verifier::external_body]
pub struct ArchiveWriter {
    inner: ZipWriter<Cursor<Vec<u8>>>,
}

/// `zip::result::ZipError`, carried through as an opaque value.
#[verifier::external_type_specification]
#[verifier::external_body]
pub struct ExZipError(ZipError);

/// `std::io::Error`, carried through as an opaque value.
#[verifier::external_type_specification]
#[verifier::external_body]
pub struct ExIoError(std::io::Error);

/// The entries that were written to an archive so far, oldest first: name and
/// data of each.
pub uninterp spec fn archive_entries(writer: ArchiveWriter) -> Seq<(Seq<char>, Seq<u8>)>;

/// Whether every call made on the writer so far has succeeded.
pub uninterp spec fn archive_open(writer: ArchiveWriter) -> bool;

/// Whether `ZipWriter::start_file` succeeds for the name, on a writer that
/// holds the entries and has not failed before.
pub uninterp spec fn zip_starts(entries: Seq<(Seq<char>, Seq<u8>)>, name: Seq<char>) -> bool;

/// Whether `Write::write_all` succeeds for the data, on a writer that holds
/// the entries, the last of them without data yet, and has not failed before.
pub uninterp spec fn zip_writes(entries: Seq<(Seq<char>, Seq<u8>)>, data: Seq<u8>) -> bool;

/// The bytes that `ZipWriter::finish` hands out for a writer that holds the
/// entries, each started with default options and written in one piece, and
/// has not failed before; `None` where it reports an error.
pub uninterp spec fn zip_encoding(entries: Seq<(Seq<char>, Seq<u8>)>) -> Option<Seq<u8>>;

/// Whether the writer takes one more entry: the name first, then the data.
pub open spec fn takes_entry(
    entries: Seq<(Seq<char>, Seq<u8>)>,
    name: Seq<char>,
    data: Seq<u8>,
) -> bool {
    zip_starts(entries, name) && zip_writes(entries.push((name, Seq::empty())), data)
}

/// Whether the writer takes the entries, one after the other.
pub open spec fn takes_all(entries: Seq<(Seq<char>, Seq<u8>)>) -> bool
    decreases entries.len(),
{
    entries.len() == 0 || (takes_all(entries.drop_last()) && takes_entry(
        entries.drop_last(),
        entries.last().0,
        entries.last().1,
    ))
}

/// `ZipWriter::new` over an empty buffer: an archive without entries. The
/// buffer is in memory, so what the writer does from here on depends on what
/// it is given and on nothing else.
#[verifier::external_body]
pub(crate) fn zip_new() -> (writer: ArchiveWriter)
    ensures
        archive_entries(writer) == Seq::<(Seq<char>, Seq<u8>)>::empty(),
        archive_open(writer),
{
    ArchiveWriter { inner: ZipWriter::new(Cursor::new(Vec::new())) }
}

/// `ZipWriter::start_file` with default options, on a writer that has not
/// failed before: whether it succeeds depends on the entries written and on
/// the name; where it does, the archive has one more entry, of the given name
/// and without data yet.
#[verifier::external_body]
pub(crate) fn zip_start_file(writer: &mut ArchiveWriter, name: &str) -> (r: Result<(), ZipError>)
    requires
        archive_open(*old(writer)),
    ensures
        r is Ok <==> zip_starts(archive_entries(*old(writer)), name@),
        r is Ok ==> archive_open(*final(writer)),
        r is Ok ==> archive_entries(*final(writer)) == archive_entries(*old(writer)).push(
            (name@, Seq::<u8>::empty()),
        ),
{
    writer.inner.start_file(name, FileOptions::default())
}

/// `Write::write_all` on a `ZipWriter` that has not failed before and whose
/// last entry has no data yet: whether it succeeds depends on the entries
/// written and on the data; where it does, the data is that entry's.
#[verifier::external_body]
pub(crate) fn zip_write_all(writer: &mut ArchiveWriter, data: &[u8]) -> (r: Result<
    (),
    std::io::Error,
>)
    requires
        archive_open(*old(writer)),
        archive_entries(*old(writer)).len() > 0,
        archive_entries(*old(writer)).last().1.len() == 0,
    ensures
        r is Ok <==> zip_writes(archive_entries(*old(writer)), data@),
        r is Ok ==> archive_open(*final(writer)),
        r is Ok ==> archive_entries(*final(writer)) == archive_entries(*old(writer)).drop_last().push(
            (archive_entries(*old(writer)).last().0, data@),
        ),
{
    writer.inner.write_all(data)
}

/// `ZipWriter::finish`, then `Cursor::into_inner`, on a writer that has not
/// failed before: the bytes of the archive of the entries written, or an
/// error, as the entries decide.
#[verifier::external_body]
pub(crate) fn zip_finish(writer: ArchiveWriter) -> (r: Result<Vec<u8>, ZipError>)
    requires
        archive_open(writer),
    ensures
        r matches Ok(bytes) ==> zip_encoding(archive_entries(writer)) == Some(bytes@),
        r is Err ==> zip_encoding(archive_entries(writer)) is None,
{
    let mut inner = writer.inner;
    inner.finish().map(|buffer| buffer.into_inner())
}

/// Adds one entry to an archive that has not failed before. Whether the
/// archive takes it is for the zip writer to say.
///
/// On failure nothing is known of the archive any more.
pub(crate) fn add_entry(writer: &mut ArchiveWriter, name: &str, data: &[u8]) -> (added: bool)
    requires
        archive_open(*old(writer)),
    ensures
        added <==> takes_entry(archive_entries(*old(writer)), name@, data@),
        added ==> archive_open(*final(writer)),
        added ==> archive_entries(*final(writer)) == archive_entries(*old(writer)).push(
            (name@, data@),
        ),
{
    match zip_start_file(writer, name) {
        Ok(()) => {},
        Err(_) => {
            return false;
        },
    }
    let ghost started = archive_entries(*writer);
    assert(started.last() == (name@, Seq::<u8>::empty()));
    match zip_write_all(writer, data) {
        Ok(()) => {
            assert(started.drop_last() =~= archive_entries(*old(writer)));
            true
        },
        Err(_) => false,
    }
}

} // verus!
