//! The archive container, read through the `zip` crate.  The contracts
//! model an open archive as the sequence of its entries, each a name and
//! its uncompressed content, in the order the central directory reports.

use vstd::prelude::*;

verus! {

#[verifier::external_type_specification]
#[verifier::external_body]
#[verifier::reject_recursive_types(T)]
pub struct ExCursor<T>(std::io::Cursor<T>);

#[verifier::external_type_specification]
#[verifier::external_body]
#[verifier::reject_recursive_types(R)]
pub struct ExZipArchive<R>(zip::ZipArchive<R>);

/// What the `zip` crate makes of `bytes`: `None` when it rejects them as
/// an archive, otherwise the entries it reports, in order, each a name
/// (as the crate decodes it) and an uncompressed content.
pub uninterp spec fn zip_entries(bytes: Seq<u8>) -> Option<Seq<(Seq<char>, Seq<u8>)>>;

/// Whether entry `i` of the archive held in `bytes` can be read in full:
/// the `zip` crate hands out its name and decompresses its whole content
/// without error.  Reading goes to an in-memory cursor over `bytes`, so
/// this too is a function of the bytes and the index alone (an entry with
/// corrupt compressed data, an unsupported compression method or an
/// encryption flag is unreadable on every attempt).
pub uninterp spec fn zip_entry_readable(bytes: Seq<u8>, i: int) -> bool;

/// The entries of an open archive, in central-directory order.
pub uninterp spec fn archive_contents(a: zip::ZipArchive<std::io::Cursor<Vec<u8>>>) -> Seq<
    (Seq<char>, Seq<u8>),
>;

/// The archive bytes an open archive was parsed from.
pub uninterp spec fn archive_bytes(a: zip::ZipArchive<std::io::Cursor<Vec<u8>>>) -> Seq<u8>;

/// Relies on `zip::ZipArchive::new`: it parses the central directory of
/// `bytes` alone, so both its success and the entries of the archive it
/// returns are functions of `bytes`.  On failure the error is rendered to
/// text.
#[verifier::external_body]
pub(crate) fn open_archive(bytes: Vec<u8>) -> (r: Result<
    zip::ZipArchive<std::io::Cursor<Vec<u8>>>,
    String,
>)
    ensures
        r is Ok <==> zip_entries(bytes@) is Some,
        r matches Ok(a) ==> archive_contents(a) == zip_entries(bytes@).unwrap(),
        r matches Ok(a) ==> archive_bytes(a) == bytes@,
{
    match zip::ZipArchive::new(std::io::Cursor::new(bytes)) {
        Ok(a) => Ok(a),
        Err(e) => Err(format!("{}", e)),
    }
}

/// Relies on `zip::ZipArchive::len`: the number of entries the archive
/// reports.
#[verifier::external_body]
pub(crate) fn archive_len(a: &zip::ZipArchive<std::io::Cursor<Vec<u8>>>) -> (n: usize)
    ensures
        n == archive_contents(*a).len(),
{
    a.len()
}

/// Relies on `zip::ZipArchive::by_index`, `ZipFile::name` and
/// `std::io::Read::read_to_end`: on success they yield entry `i`'s name
/// and its full uncompressed content; reading never changes which entries
/// the archive holds.  Reading can fail (an unsupported compression
/// method, an encryption flag, corrupt compressed data), but all I/O goes
/// to the in-memory cursor, so the outcome is decided by the archive
/// bytes and the index alone; the error is rendered to text.
#[verifier::external_body]
pub(crate) fn read_entry(a: &mut zip::ZipArchive<std::io::Cursor<Vec<u8>>>, i: usize) -> (r: Result<
    (String, Vec<u8>),
    String,
>)
    requires
        i < archive_contents(*old(a)).len(),
    ensures
        archive_contents(*final(a)) == archive_contents(*old(a)),
        archive_bytes(*final(a)) == archive_bytes(*old(a)),
        r is Ok <==> zip_entry_readable(archive_bytes(*old(a)), i as int),
        r matches Ok(e) ==> (e.0@, e.1@) == archive_contents(*old(a))[i as int],
{
    match a.by_index(i) {
        Ok(mut f) => {
            let name = f.name().to_owned();
            let mut contents: Vec<u8> = Vec::new();
            match std::io::Read::read_to_end(&mut f, &mut contents) {
                Ok(_) => Ok((name, contents)),
                Err(e) => Err(format!("{}", e)),
            }
        },
        Err(e) => Err(format!("{}", e)),
    }
}

} // verus!
