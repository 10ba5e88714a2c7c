//! The archive writer: packages an ordered payload sequence as an
//! uncompressed ("stored") archive, one entry per payload, named by
//! position. The archive format itself comes from the `zip` crate behind
//! trusted wrappers; the entry layout and ordering are verified here.

use vstd::prelude::*;
use crate::text::{
    ascii_text, entry_name, entry_name_spec, lemma_entry_name_wellformed,
    lemma_entry_names_distinct,
};
use std::io::Read;
use std::io::Write;

verus! {

/// An in-progress in-memory archive. Verus refuses the declaration of the
/// writer type itself (its trait bounds), so it is held opaque here; its
/// contents are spoken of only through `writer_entries`.
#[verifier::external_body]
pub struct ArchiveWriter {
    inner: zip::write::ZipWriter<std::io::Cursor<Vec<u8>>>,
}

/// The ordered entry list (name, contents) accumulated in an archive
/// writer so far.
pub uninterp spec fn writer_entries(w: ArchiveWriter) -> Seq<(Seq<char>, Seq<u8>)>;

/// Whether the writer has an entry open, so that written bytes go to it.
pub uninterp spec fn writer_entry_open(w: ArchiveWriter) -> bool;

/// The ordered entry list (name, contents) stored in a byte string, or
/// `None` when the bytes are not a readable archive.
pub uninterp spec fn archive_entries_of(b: Seq<u8>) -> Option<Seq<(Seq<char>, Seq<u8>)>>;

/// Relies on zip::write::ZipWriter::new: a fresh writer over an empty
/// in-memory buffer holds no entries and no entry is open.
#[verifier::external_body]
fn writer_new() -> (w: ArchiveWriter)
    ensures
        writer_entries(w) == Seq::<(Seq<char>, Seq<u8>)>::empty(),
        !writer_entry_open(w),
{
    ArchiveWriter { inner: zip::write::ZipWriter::new(std::io::Cursor::new(Vec::new())) }
}

/// Relies on zip::write::ZipWriter::start_file: on success a new entry
/// with the given name and no contents yet is appended after the entries
/// already written, and is open for its contents; stored (uncompressed)
/// semantics are requested. Over the in-memory buffer the call fails only
/// on a name already in the archive or a name over the format's 16-bit
/// byte-length field, so a fresh short ASCII name is always accepted.
#[verifier::external_body]
fn writer_start_entry(w: &mut ArchiveWriter, name: &str) -> (ok: bool)
    ensures
        ok ==> writer_entries(*final(w)) == writer_entries(*old(w)).push(
            (name@, Seq::<u8>::empty()),
        ) && writer_entry_open(*final(w)),
        (ascii_text(name@) && name@.len() <= 65535 && (forall|j: int|
            0 <= j < writer_entries(*old(w)).len() ==> (#[trigger] writer_entries(
                *old(w),
            )[j]).0 != name@)) ==> ok,
{
    let options = zip::write::SimpleFileOptions::default()
        .compression_method(zip::CompressionMethod::Stored);
    w.inner.start_file(name, options).is_ok()
}

/// Relies on the std::io::Write implementation of zip::write::ZipWriter:
/// bytes written while an entry is open are appended to that entry's
/// contents, which stays open. Over the in-memory buffer the write fails
/// only with no entry open, or when the entry passes the format's plain
/// 32-bit size limit without the large-file option; under that limit it
/// is always accepted.
#[verifier::external_body]
fn writer_append_bytes(w: &mut ArchiveWriter, data: &Vec<u8>) -> (ok: bool)
    requires
        writer_entries(*old(w)).len() > 0,
    ensures
        ok ==> writer_entries(*final(w)) == writer_entries(*old(w)).update(
            writer_entries(*old(w)).len() - 1,
            (
                writer_entries(*old(w)).last().0,
                writer_entries(*old(w)).last().1 + data@,
            ),
        ) && writer_entry_open(*final(w)),
        (writer_entry_open(*old(w)) && writer_entries(*old(w)).last().1.len() + data@.len()
            <= 0xFFFF_FFFF) ==> ok,
{
    w.inner.write_all(data).is_ok()
}

/// Relies on zip::write::ZipWriter::finish: the returned bytes are a
/// complete archive whose readable entry list is exactly what was
/// written, in order. Finishing only writes the central directory into
/// the in-memory buffer, which cannot fail in any state this module's
/// wrappers can leave the writer in, so the call succeeds.
#[verifier::external_body]
fn writer_finish(w: ArchiveWriter) -> (r: Option<Vec<u8>>)
    ensures
        r is Some,
        match r {
            Some(b) => archive_entries_of(b@) == Some(writer_entries(w)),
            None => true,
        },
{
    match w.inner.finish() {
        Ok(c) => Some(c.into_inner()),
        Err(_) => None,
    }
}

/// Relies on zip::read::ZipArchive: parses archive bytes and hands each
/// entry out by index in written order, the name from ZipFile::name and
/// the contents through its std::io::Read implementation.
#[verifier::external_body]
pub fn read_archive(bytes: &Vec<u8>) -> (r: Option<Vec<(String, Vec<u8>)>>)
    ensures
        match archive_entries_of(bytes@) {
            Some(es) => match r {
                Some(v) => v@.len() == es.len() && forall|i: int|
                    0 <= i < es.len() ==> (#[trigger] v@[i]).0@ == es[i].0 && v@[i].1@ == es[i].1,
                None => false,
            },
            None => r is None,
        },
{
    let mut za = match zip::read::ZipArchive::new(std::io::Cursor::new(bytes.as_slice())) {
        Ok(z) => z,
        Err(_) => return None,
    };
    let mut out = Vec::new();
    for i in 0..za.len() {
        let mut f = match za.by_index(i) { Ok(f) => f, Err(_) => return None };
        let name = f.name().to_string();
        let mut data = Vec::new();
        if f.read_to_end(&mut data).is_err() { return None }
        out.push((name, data));
    }
    Some(out)
}

/// The entry list an archive built from a payload sequence must hold:
/// entry `i` is named by position `i` and holds payload `i`.
pub open spec fn archive_model(ps: Seq<Seq<u8>>) -> Seq<(Seq<char>, Seq<u8>)> {
    Seq::new(ps.len(), |i: int| (entry_name_spec(i as nat), ps[i]))
}

/// Package the payloads, in order, as the numbered stored entries of one
/// archive. Success is owed whenever every payload fits the format's
/// plain 32-bit entry size; on success the bytes read back as exactly the
/// payloads. `None` can only come of a payload past that limit.
pub fn write_archive(payloads: &Vec<Vec<u8>>) -> (r: Option<Vec<u8>>)
    ensures
        match r {
            Some(b) => archive_entries_of(b@) == Some(archive_model(payloads.deep_view())),
            None => true,
        },
        (forall|i: int| 0 <= i < payloads@.len() ==> (#[trigger] payloads@[i])@.len()
            <= 0xFFFF_FFFF) ==> r is Some,
{
    let mut w = writer_new();
    let n = payloads.len();
    let mut i: usize = 0;
    while i < n
        invariant
            n == payloads@.len(),
            i <= n,
            writer_entries(w) == archive_model(payloads.deep_view().take(i as int)),
        decreases n - i,
    {
        let name = entry_name(i);
        proof {
            lemma_entry_name_wellformed(i as nat);
            assert forall|j: int| 0 <= j < writer_entries(w).len() implies (
            #[trigger] writer_entries(w)[j]).0 != name@ by {
                lemma_entry_names_distinct(j as nat, i as nat);
            }
        }
        if !writer_start_entry(&mut w, name.as_str()) {
            return None;
        }
        if !writer_append_bytes(&mut w, &payloads[i]) {
            proof {
                assert(payloads@[i as int]@.len() > 0xFFFF_FFFF);
            }
            return None;
        }
        proof {
            let dv = payloads.deep_view();
            assert(Seq::<u8>::empty() + dv[i as int] =~= dv[i as int]);
            assert(writer_entries(w) =~~= archive_model(dv.take(i + 1 as int)));
        }
        i += 1;
    }
    proof {
        assert(payloads.deep_view().take(n as int) =~= payloads.deep_view());
    }
    writer_finish(w)
}

/// Round trip: an archive written from a payload sequence reads back as
/// entries named by position, each holding the corresponding payload,
/// byte for byte and in order.
pub proof fn lemma_archive_round_trip(ps: Seq<Seq<u8>>, b: Seq<u8>)
    requires
        archive_entries_of(b) == Some(archive_model(ps)),
    ensures
        archive_entries_of(b) is Some,
        archive_entries_of(b)->Some_0.len() == ps.len(),
        forall|i: int| 0 <= i < ps.len()
            ==> (#[trigger] archive_entries_of(b)->Some_0[i]).0 == entry_name_spec(i as nat)
                && archive_entries_of(b)->Some_0[i].1 == ps[i],
{
}

} // verus!
