//! The deployment packager: bundles named byte payloads (the running
//! executable, the latest snapshot record) into one archive blob.
//!
//! An archive entry is modelled as (name, contents, unix permission bits,
//! stored-uncompressed flag).  `build` writes every payload with fixed
//! permission bits 0o777 and no compression, in the given order; it succeeds
//! whenever the names are pairwise distinct and each payload fits the
//! archive format's limits, and a successful blob is a function of the
//! payloads alone, so building twice from the same payloads gives identical
//! bytes.

use vstd::prelude::*;

use std::io::Write;

verus! {

/// Why the deployment archive could not be built.
#[derive(Clone, Copy, Debug, PartialEq, Eq, Structural)]
pub enum PackagingError {
    Archive,
}

/// One named byte payload to be packed.
pub struct Payload {
    pub name: String,
    pub data: Vec<u8>,
}

impl View for Payload {
    type V = (Seq<char>, Seq<u8>);

    open spec fn view(&self) -> (Seq<char>, Seq<u8>) {
        (self.name@, self.data@)
    }
}

/// The (name, bytes) pairs of a payload sequence, in order.
pub open spec fn view_of_payloads(ps: Seq<Payload>) -> Seq<(Seq<char>, Seq<u8>)> {
    Seq::new(ps.len(), |i: int| ps[i]@)
}

/// The payloads as archive entries: each one stored uncompressed with unix
/// permission bits 0o777, in the given order.
pub open spec fn packed_of(vs: Seq<(Seq<char>, Seq<u8>)>) -> Seq<(Seq<char>, Seq<u8>, u32, bool)> {
    Seq::new(vs.len(), |i: int| (vs[i].0, vs[i].1, 0o777u32, true))
}

/// The archive format takes this payload: the name's encoding fits the
/// 64 KiB name field, and the contents stay within the plain format's 4 GiB
/// size field.
pub open spec fn fits_archive(e: (Seq<char>, Seq<u8>)) -> bool {
    &&& vstd::utf8::encode_utf8(e.0).len() <= 0xFFFF
    &&& e.1.len() <= 0xFFFF_FFFF
}

/// Pairwise distinct payload names.
pub open spec fn distinct_names(vs: Seq<(Seq<char>, Seq<u8>)>) -> bool {
    forall|i: int, j: int| 0 <= i < j < vs.len() ==> (#[trigger] vs[i]).0 != (#[trigger] vs[j]).0
}

/// The archive under construction; it wraps the zip crate's writer over an
/// in-memory buffer and is opaque to verification, so its state is spoken of
/// only through `archive_entries` and `writer_ok`.
#[verifier::external_body]
pub struct ArchiveWriter {
    inner: zip::ZipWriter<std::io::Cursor<Vec<u8>>>,
}

/// The entries written so far to the archive under construction: name,
/// contents, unix permission bits, stored-uncompressed flag.
pub uninterp spec fn archive_entries(w: &ArchiveWriter) -> Seq<(Seq<char>, Seq<u8>, u32, bool)>;

/// Whether the archive under construction is still healthy: no operation on
/// it has failed, so it accepts further entries, bytes, and finishing.
pub uninterp spec fn writer_ok(w: &ArchiveWriter) -> bool;

/// The entries a finished archive blob holds when read back, in the order
/// they were written: name, contents, unix permission bits, and whether the
/// entry is stored uncompressed.  Reading a blob is a function of its bytes.
pub uninterp spec fn unzip_entries(blob: Seq<u8>) -> Seq<(Seq<char>, Seq<u8>, u32, bool)>;

/// The bytes of the finished archive holding the given entries.  With the
/// zip crate's clock features off, every written field (headers, fixed epoch
/// timestamps, central directory) is determined by the entries alone, so the
/// blob is a function of them.
pub uninterp spec fn archive_blob(entries: Seq<(Seq<char>, Seq<u8>, u32, bool)>) -> Seq<u8>;

/// Relies on zip::ZipWriter::new: a fresh archive writer is healthy and
/// holds no entries.
#[verifier::external_body]
fn new_writer() -> (w: ArchiveWriter)
    ensures
        archive_entries(&w) == Seq::<(Seq<char>, Seq<u8>, u32, bool)>::empty(),
        writer_ok(&w),
{
    ArchiveWriter { inner: zip::ZipWriter::new(std::io::Cursor::new(Vec::new())) }
}

/// Relies on zip::ZipWriter::start_file: on success a new, empty entry with
/// the given name is appended, stored uncompressed, with the given unix
/// permission bits kept up to the format's 0o777 mask.  On a healthy writer
/// the call succeeds whenever the name is not already taken (it reports a
/// duplicate otherwise) and the name's encoding fits the format's 64 KiB
/// name field; writing the local header to the in-memory buffer cannot fail.
#[verifier::external_body]
fn start_entry(w: &mut ArchiveWriter, name: &str, permissions: u32) -> (r: Result<
    (),
    PackagingError,
>)
    ensures
        r is Ok ==> writer_ok(final(w)) && archive_entries(final(w)) == archive_entries(
            old(w),
        ).push((name@, Seq::<u8>::empty(), permissions & 0o777, true)),
        ({
            &&& writer_ok(old(w))
            &&& vstd::utf8::encode_utf8(name@).len() <= 0xFFFF
            &&& forall|i: int|
                0 <= i < archive_entries(old(w)).len() ==> (#[trigger] archive_entries(old(w))[i]).0
                    != name@
        }) ==> r is Ok,
{
    let options = zip::write::SimpleFileOptions::default().compression_method(
        zip::CompressionMethod::Stored,
    ).unix_permissions(permissions);
    match w.inner.start_file(name, options) {
        Ok(()) => Ok(()),
        Err(_) => Err(PackagingError::Archive),
    }
}

/// Relies on the std::io::Write impl of zip::ZipWriter: on success the given
/// bytes extend the entry opened last.  On a healthy writer the call
/// succeeds whenever the entry stays within the plain format's 4 GiB size
/// field (past it the writer reports an error, since large-file support is
/// not requested); writing to the in-memory buffer cannot fail.
#[verifier::external_body]
fn write_entry(w: &mut ArchiveWriter, data: &Vec<u8>) -> (r: Result<(), PackagingError>)
    requires
        archive_entries(old(w)).len() > 0,
    ensures
        r is Ok ==> writer_ok(final(w)) && ({
            let before = archive_entries(old(w));
            let last = before[before.len() - 1];
            archive_entries(final(w)) == before.update(
                before.len() - 1,
                (last.0, last.1 + data@, last.2, last.3),
            )
        }),
        ({
            let before = archive_entries(old(w));
            &&& writer_ok(old(w))
            &&& before[before.len() - 1].1.len() + data@.len() <= 0xFFFF_FFFF
        }) ==> r is Ok,
{
    match w.inner.write_all(data.as_slice()) {
        Ok(()) => Ok(()),
        Err(_) => Err(PackagingError::Archive),
    }
}

/// Relies on zip::ZipWriter::finish: on a healthy writer it succeeds (the
/// central directory goes to the in-memory buffer, with the 64-bit format
/// taken automatically where counts or offsets need it), the blob's bytes
/// are a function of the entries written, and reading the blob back shows
/// exactly those entries, in order, with their contents, permission bits and
/// stored method.
#[verifier::external_body]
fn finish_writer(w: ArchiveWriter) -> (r: Result<Vec<u8>, PackagingError>)
    ensures
        r matches Ok(blob) ==> unzip_entries(blob@) == archive_entries(&w) && blob@ == archive_blob(
            archive_entries(&w),
        ),
        writer_ok(&w) ==> r is Ok,
{
    match w.inner.finish() {
        Ok(cursor) => Ok(cursor.into_inner()),
        Err(_) => Err(PackagingError::Archive),
    }
}

/// Builds the deployment archive: each payload becomes one entry, stored
/// uncompressed with permission bits 0o777, in the given order.  The build
/// succeeds whenever the names are pairwise distinct and every payload fits
/// the format's limits; extracting a successful blob yields exactly the
/// payloads with that fixed metadata, and the blob's bytes are a function of
/// the payloads alone.
#[verifier::loop_isolation(false)]
pub fn build(payloads: &Vec<Payload>) -> (r: Result<Vec<u8>, PackagingError>)
    ensures
        r matches Ok(blob) ==> unzip_entries(blob@) == packed_of(view_of_payloads(payloads@))
            && blob@ == archive_blob(packed_of(view_of_payloads(payloads@))),
        (distinct_names(view_of_payloads(payloads@)) && (forall|i: int|
            0 <= i < payloads@.len() ==> fits_archive(
                #[trigger] view_of_payloads(payloads@)[i],
            ))) ==> r is Ok,
{
    let ghost vs = view_of_payloads(payloads@);
    let ghost good = distinct_names(vs) && (forall|i: int|
        0 <= i < vs.len() ==> fits_archive(#[trigger] vs[i]));
    let mut w = new_writer();
    let n = payloads.len();
    let mut i: usize = 0;
    while i < n
        invariant
            i <= n,
            writer_ok(&w),
            archive_entries(&w) == packed_of(vs).take(i as int),
        decreases n - i,
    {
        let ghost before = archive_entries(&w);
        let p = &payloads[i];
        proof {
            assert(vs[i as int] == (p.name@, p.data@));
            assert(forall|j: int| 0 <= j < i ==> (#[trigger] before[j]).0 == vs[j].0);
        }
        match start_entry(&mut w, p.name.as_str(), 0o777) {
            Ok(()) => {},
            Err(e) => {
                proof {
                    if good {
                        assert(fits_archive(vs[i as int]));
                        assert(forall|j: int|
                            0 <= j < before.len() ==> (#[trigger] before[j]).0 != p.name@);
                        assert(false);
                    }
                }
                return Err(e);
            },
        }
        match write_entry(&mut w, &p.data) {
            Ok(()) => {},
            Err(e) => {
                proof {
                    if good {
                        assert(fits_archive(vs[i as int]));
                        assert(false);
                    }
                }
                return Err(e);
            },
        }
        proof {
            assert(0o777u32 & 0o777 == 0o777) by (bit_vector);
            assert(Seq::<u8>::empty() + p.data@ =~= p.data@);
            assert(archive_entries(&w) =~= packed_of(vs).take(i as int + 1));
        }
        i += 1;
    }
    proof {
        assert(packed_of(vs).take(n as int) =~= packed_of(vs));
    }
    finish_writer(w)
}

/// Determinism of the packager: two builds over payloads with identical
/// names, bytes and ordering produce identical archive bytes.
pub proof fn lemma_build_deterministic(p1: Seq<Payload>, p2: Seq<Payload>, b1: Seq<u8>, b2: Seq<u8>)
    requires
        view_of_payloads(p1) == view_of_payloads(p2),
        b1 == archive_blob(packed_of(view_of_payloads(p1))),
        b2 == archive_blob(packed_of(view_of_payloads(p2))),
    ensures
        b1 == b2,
{
}

} // verus!
