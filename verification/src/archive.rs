//! Reading a game archive - a `.sdz`, which is a zip - from its bytes.
//!
//! The zip crate does the reading. What an archive holds is a list of
//! entries, each a name and, where the entry decompresses to UTF-8 text, that
//! text; what the library makes of them (which entries are unit definitions,
//! which is `modinfo.lua`) is decided over that list.
use std::io::Read;

use vstd::prelude::*;

verus! {

#[verifier::external_type_specification]
#[verifier::external_body]
#[verifier::reject_recursive_types(T)]
pub struct ExCursor<T>(std::io::Cursor<T>);

#[verifier::external_type_specification]
#[verifier::external_body]
#[verifier::reject_recursive_types(R)]
pub struct ExZipArchive<R>(zip::ZipArchive<R>);

/// What the zip crate reads out of an archive's bytes: its entries in
/// archive order, each a name and the entry's text where it reads as UTF-8;
/// or, when the bytes are not a readable archive, the error it reports.
pub uninterp spec fn archive_entries(bytes: Seq<u8>) -> Result<Seq<(Seq<char>, Option<Seq<char>>)>, Seq<char>>;

/// The entries an opened archive holds, as `archive_entries` gives them.
pub uninterp spec fn archive_contents(archive: zip::ZipArchive<std::io::Cursor<Vec<u8>>>) -> Seq<(Seq<char>, Option<Seq<char>>)>;

/// `zip::ZipArchive::new` over the bytes, its error as the text it displays.
/// The contract claims only that the outcome is the one `archive_entries`
/// names for these bytes.
#[verifier::external_body]
pub(crate) fn open_archive(bytes: &[u8]) -> (r: Result<zip::ZipArchive<std::io::Cursor<Vec<u8>>>, String>)
    ensures
        match r {
            Ok(a) => archive_entries(bytes@) == Ok::<Seq<(Seq<char>, Option<Seq<char>>)>, Seq<char>>(
                archive_contents(a),
            ),
            Err(e) => archive_entries(bytes@) == Err::<Seq<(Seq<char>, Option<Seq<char>>)>, Seq<char>>(
                e@,
            ),
        },
{
    zip::ZipArchive::new(std::io::Cursor::new(bytes.to_vec())).map_err(|e| e.to_string())
}

/// `ZipArchive::len`: how many entries the archive holds.
#[verifier::external_body]
pub(crate) fn entry_count(archive: &zip::ZipArchive<std::io::Cursor<Vec<u8>>>) -> (r: usize)
    ensures
        r == archive_contents(*archive).len(),
{
    archive.len()
}

/// `ZipArchive::name_for_index`: the name of the entry at `i`, if there is
/// one.
#[verifier::external_body]
pub(crate) fn name_at(archive: &zip::ZipArchive<std::io::Cursor<Vec<u8>>>, i: usize) -> (r: Option<String>)
    ensures
        match r {
            Some(n) => i < archive_contents(*archive).len() && n@ == archive_contents(*archive)[i as int].0,
            None => i >= archive_contents(*archive).len(),
        },
{
    archive.name_for_index(i).map(|n| n.to_string())
}

/// `ZipArchive::by_index` and reading the entry to a `String`: the entry's
/// text, or `None` where it cannot be read as UTF-8 text. Reading moves the
/// archive's reader, not what it holds.
#[verifier::external_body]
pub(crate) fn text_at(archive: &mut zip::ZipArchive<std::io::Cursor<Vec<u8>>>, i: usize) -> (r: Option<String>)
    requires
        i < archive_contents(*old(archive)).len(),
    ensures
        archive_contents(*final(archive)) == archive_contents(*old(archive)),
        match r {
            Some(t) => archive_contents(*old(archive))[i as int].1 == Some(t@),
            None => archive_contents(*old(archive))[i as int].1 is None,
        },
{
    let mut entry = archive.by_index(i).ok()?;
    let mut out = String::new();
    entry.read_to_string(&mut out).ok()?;
    Some(out)
}

} // verus!
