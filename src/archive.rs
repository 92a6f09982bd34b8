//! An opened archive: its entries in central directory order and the text
//! of an entry looked up by name.

use vstd::prelude::*;
use vstd::utf8::*;
use std::io::Cursor;
use zip::result::ZipError;
use zip::ZipArchive;
use crate::pattern::{entry_views, listing, listing_shows_only_files, string_views, Entry, IgnoreSpec};

verus! {

#[verifier::external_type_specification]
#[verifier::external_body]
#[verifier::reject_recursive_types(R)]
pub struct ExZipArchive<R>(ZipArchive<R>);

#[verifier::external_type_specification]
#[verifier::external_body]
#[verifier::reject_recursive_types(T)]
pub struct ExCursor<T>(Cursor<T>);

#[verifier::external_type_specification]
#[verifier::external_body]
pub struct ExZipError(ZipError);

/// Whether `ZipArchive::new` accepts these bytes as an archive.
pub uninterp spec fn zip_opens(bytes: Seq<u8>) -> bool;

/// The names in an archive's central directory, in its order.
pub uninterp spec fn zip_names(z: ZipArchive<Cursor<Vec<u8>>>) -> Seq<Seq<char>>;

/// For each entry, in the same order, whether its local header can be found.
pub uninterp spec fn zip_entry_ok(z: ZipArchive<Cursor<Vec<u8>>>) -> Seq<bool>;

/// For each entry, in the same order, whether it opens (with the empty
/// password) and reads to its end.
pub uninterp spec fn zip_readable(z: ZipArchive<Cursor<Vec<u8>>>) -> Seq<bool>;

/// For each entry, in the same order, the bytes that reading it to its end
/// yields: what is stored, once decompressed.
pub uninterp spec fn zip_contents(z: ZipArchive<Cursor<Vec<u8>>>) -> Seq<Seq<u8>>;

/// Why an archive operation failed.
#[derive(PartialEq, Eq, Structural, Debug, Clone, Copy)]
pub enum ArchiveError {
    /// No file at the archive's path.
    NotFound,
    /// The container, or an entry of it, cannot be read.
    Corrupt,
    /// No file entry of that name.
    EntryNotFound,
    /// The entry's bytes are not UTF-8 text.
    EntryNotText,
    /// Changing an archive is not offered.
    Unsupported,
}

/// A name that ends with `/` or `\` marks a directory.
pub open spec fn is_dir_name(n: Seq<char>) -> bool {
    n.len() > 0 && (n.last() == '/' || n.last() == '\\')
}

/// The entries of an archive with the given names.
pub open spec fn entries_of(names: Seq<Seq<char>>) -> Seq<(Seq<char>, bool)> {
    names.map_values(|n: Seq<char>| (n, is_dir_name(n)))
}

pub open spec fn is_last_named(names: Seq<Seq<char>>, n: Seq<char>, i: int) -> bool {
    &&& 0 <= i < names.len()
    &&& names[i] == n
    &&& forall|k: int| i < k < names.len() ==> names[k] != n
}

/// The position of the last entry named `n`, or -1 where there is none.
pub open spec fn last_index(names: Seq<Seq<char>>, n: Seq<char>) -> int {
    if exists|i: int| is_last_named(names, n, i) {
        choose|i: int| is_last_named(names, n, i)
    } else {
        -1
    }
}

/// Two states of one archive: the same entries, the same outcomes.
pub open spec fn same_zip(a: ZipArchive<Cursor<Vec<u8>>>, b: ZipArchive<Cursor<Vec<u8>>>) -> bool {
    &&& zip_names(b) == zip_names(a)
    &&& zip_entry_ok(b) == zip_entry_ok(a)
    &&& zip_readable(b) == zip_readable(a)
    &&& zip_contents(b) == zip_contents(a)
}

/// Relies on zip::ZipArchive::new, which parses the central directory.
#[verifier::external_body]
fn zip_open(bytes: Vec<u8>) -> (r: Result<ZipArchive<Cursor<Vec<u8>>>, ZipError>)
    ensures
        r is Ok <==> zip_opens(bytes@),
{
    ZipArchive::new(Cursor::new(bytes))
}

/// Relies on zip::ZipArchive::len: the number of central directory entries.
#[verifier::external_body]
fn zip_len(z: &ZipArchive<Cursor<Vec<u8>>>) -> (r: usize)
    ensures
        r == zip_names(*z).len(),
{
    z.len()
}

/// Relies on zip::ZipArchive::by_index_raw, which locates an entry's local
/// header without decrypting or decompressing it, with ZipFile::name and
/// ZipFile::is_dir (the name ends with `/` or `\`).
#[verifier::external_body]
fn zip_entry_at(z: &mut ZipArchive<Cursor<Vec<u8>>>, i: usize) -> (r: Result<
    (String, bool),
    ZipError,
>)
    ensures
        same_zip(*old(z), *final(z)),
        zip_entry_ok(*old(z)).len() == zip_names(*old(z)).len(),
        r is Ok <==> i < zip_names(*old(z)).len() && zip_entry_ok(*old(z))[i as int],
        r is Ok ==> r->Ok_0.0@ == zip_names(*old(z))[i as int] && r->Ok_0.1 == is_dir_name(
            zip_names(*old(z))[i as int],
        ),
{
    z.by_index_raw(i).map(|f| (f.name().to_owned(), f.is_dir()))
}

/// Relies on zip::ZipArchive::by_name_decrypt, which finds the last entry of
/// that name and fails with FileNotFound only where there is none, and on
/// reading the entry to its end. The empty password stands for none; an
/// entry that asks for another fails as unreadable.
#[verifier::external_body]
fn zip_read_named(z: &mut ZipArchive<Cursor<Vec<u8>>>, name: &str) -> (r: Result<
    Vec<u8>,
    ArchiveError,
>)
    ensures
        same_zip(*old(z), *final(z)),
        zip_readable(*old(z)).len() == zip_names(*old(z)).len(),
        zip_contents(*old(z)).len() == zip_names(*old(z)).len(),
        r == Err::<Vec<u8>, ArchiveError>(ArchiveError::EntryNotFound) <==> last_index(
            zip_names(*old(z)),
            name@,
        ) < 0,
        r == Err::<Vec<u8>, ArchiveError>(ArchiveError::Corrupt) <==> ({
            let k = last_index(zip_names(*old(z)), name@);
            0 <= k && !zip_readable(*old(z))[k]
        }),
        r is Err ==> r->Err_0 == ArchiveError::EntryNotFound || r->Err_0 == ArchiveError::Corrupt,
        r is Ok ==> r->Ok_0@ == zip_contents(*old(z))[last_index(zip_names(*old(z)), name@)],
{
    let mut file = match z.by_name_decrypt(name, b"") {
        Ok(Ok(f)) => f,
        Ok(Err(_)) => return Err(ArchiveError::Corrupt),
        Err(ZipError::FileNotFound) => return Err(ArchiveError::EntryNotFound),
        Err(_) => return Err(ArchiveError::Corrupt),
    };
    let mut bytes = Vec::new();
    match std::io::Read::read_to_end(&mut file, &mut bytes) {
        Ok(_) => Ok(bytes),
        Err(_) => Err(ArchiveError::Corrupt),
    }
}

/// Relies on String::from_utf8, which fails exactly on bytes that are not
/// UTF-8.
#[verifier::external_body]
fn text_of(bytes: Vec<u8>) -> (r: Option<String>)
    ensures
        r is Some <==> valid_utf8(bytes@),
        r is Some ==> r->0@ == decode_utf8(bytes@),
{
    String::from_utf8(bytes).ok()
}

pub fn is_directory_name(name: &str) -> (r: bool)
    ensures
        r == is_dir_name(name@),
{
    let n = name.unicode_len();
    if n == 0 {
        return false;
    }
    let c = name.get_char(n - 1);
    c == '/' || c == '\\'
}

/// A read-only archive held in memory.
pub struct Archive {
    zip: ZipArchive<Cursor<Vec<u8>>>,
}

impl Archive {
    /// The entry names, in central directory order.
    pub closed spec fn names(&self) -> Seq<Seq<char>> {
        zip_names(self.zip)
    }

    /// For each entry, whether enumeration can reach it.
    pub closed spec fn entries_ok(&self) -> Seq<bool> {
        zip_entry_ok(self.zip)
    }

    /// For each entry, whether it opens and reads to its end.
    pub closed spec fn readable(&self) -> Seq<bool> {
        zip_readable(self.zip)
    }

    /// For each entry, the bytes stored for it.
    pub closed spec fn contents(&self) -> Seq<Seq<u8>> {
        zip_contents(self.zip)
    }
}

/// Two states of one archive, with the same entries and the same outcomes
/// for each.
pub open spec fn same_archive(a: Archive, b: Archive) -> bool {
    &&& b.names() == a.names()
    &&& b.entries_ok() == a.entries_ok()
    &&& b.readable() == a.readable()
    &&& b.contents() == a.contents()
}

/// Enumeration reaches every entry of the archive.
pub open spec fn all_entries_ok(a: Archive) -> bool {
    forall|i: int| 0 <= i < a.names().len() ==> #[trigger] a.entries_ok()[i]
}

/// A call of `enumerate` on `before` that left `after` and returned `r`.
pub open spec fn enumerated(before: Archive, after: Archive, r: Result<Vec<Entry>, ArchiveError>) -> bool {
    &&& same_archive(before, after)
    &&& r is Ok <==> all_entries_ok(before)
    &&& r is Ok ==> entry_views(r->Ok_0@) == entries_of(before.names())
    &&& r is Err ==> r->Err_0 == ArchiveError::Corrupt
}

/// A call of `list` with the patterns `ignore` on `before` that left `after`
/// and returned `r`.
pub open spec fn listed(
    before: Archive,
    after: Archive,
    ignore: Seq<Seq<char>>,
    r: Result<Vec<String>, ArchiveError>,
) -> bool {
    &&& same_archive(before, after)
    &&& r is Ok <==> all_entries_ok(before)
    &&& r is Ok ==> string_views(r->Ok_0@) == listing(entries_of(before.names()), ignore)
    &&& r is Err ==> r->Err_0 == ArchiveError::Corrupt
}

/// Enumerating an archive twice, with nothing done to it between the two
/// calls, gives the same outcome: both fail, or both give the same entries
/// in the same order.
pub proof fn enumeration_is_stable(
    a0: Archive,
    a1: Archive,
    a2: Archive,
    first: Result<Vec<Entry>, ArchiveError>,
    second: Result<Vec<Entry>, ArchiveError>,
)
    requires
        enumerated(a0, a1, first),
        enumerated(a1, a2, second),
    ensures
        first is Ok <==> second is Ok,
        first is Ok ==> entry_views(first->Ok_0@) == entry_views(second->Ok_0@),
        first is Err ==> first == second,
{
}

/// Listing an archive twice with the same patterns, with nothing done to it
/// between the two calls, gives the same outcome: both fail, or both give
/// the same names in the same order, duplicates included.
pub proof fn listing_is_stable(
    a0: Archive,
    a1: Archive,
    a2: Archive,
    ignore: Seq<Seq<char>>,
    first: Result<Vec<String>, ArchiveError>,
    second: Result<Vec<String>, ArchiveError>,
)
    requires
        listed(a0, a1, ignore, first),
        listed(a1, a2, ignore, second),
    ensures
        first is Ok <==> second is Ok,
        first is Ok ==> string_views(first->Ok_0@) == string_views(second->Ok_0@),
        first is Err ==> first == second,
{
}

/// No directory marker shows in the listing of an archive, whatever the
/// patterns, none included.
pub proof fn listing_shows_no_directory(names: Seq<Seq<char>>, ignore: Seq<Seq<char>>)
    ensures
        forall|k: int|
            0 <= k < listing(entries_of(names), ignore).len() ==> !is_dir_name(
                #[trigger] listing(entries_of(names), ignore)[k],
            ),
{
    let entries = entries_of(names);
    listing_shows_only_files(entries, ignore);
    assert forall|k: int|
        0 <= k < listing(entries, ignore).len() implies !is_dir_name(
        #[trigger] listing(entries, ignore)[k],
    ) by {
        let j = choose|j: int|
            0 <= j < entries.len() && entries[j].0 == listing(entries, ignore)[k] && !entries[j].1;
        assert(entries[j] == (names[j], is_dir_name(names[j])));
    }
}

impl Archive {
    /// Opens the archive whose file holds `bytes`.
    pub fn open(bytes: Vec<u8>) -> (r: Result<Archive, ArchiveError>)
        ensures
            r is Ok <==> zip_opens(bytes@),
            r is Err ==> r->Err_0 == ArchiveError::Corrupt,
    {
        match zip_open(bytes) {
            Ok(zip) => Ok(Archive { zip }),
            Err(_) => Err(ArchiveError::Corrupt),
        }
    }

    /// The number of entries.
    pub fn len(&self) -> (r: usize)
        ensures
            r == self.names().len(),
    {
        zip_len(&self.zip)
    }

    /// All entries, in central directory order.
    pub fn enumerate(&mut self) -> (r: Result<Vec<Entry>, ArchiveError>)
        ensures
            enumerated(*old(self), *final(self), r),
    {
        let n = zip_len(&self.zip);
        let ghost names = self.names();
        let mut entries: Vec<Entry> = Vec::new();
        let mut i: usize = 0;
        while i < n
            invariant
                n == names.len(),
                names == old(self).names(),
                same_archive(*old(self), *self),
                i <= n,
                forall|k: int| 0 <= k < i ==> #[trigger] old(self).entries_ok()[k],
                entry_views(entries@) == entries_of(names).subrange(0, i as int),
            decreases n - i,
        {
            match zip_entry_at(&mut self.zip, i) {
                Ok((name, is_directory)) => {
                    let ghost before = entries@;
                    let e = Entry { name, is_directory };
                    entries.push(e);
                    proof {
                        assert(entry_views(entries@) =~= entry_views(before).push(e@));
                        assert(entries_of(names).subrange(0, i + 1) =~= entries_of(names).subrange(
                            0,
                            i as int,
                        ).push(e@));
                    }
                },
                Err(_) => {
                    assert(!old(self).entries_ok()[i as int]);
                    return Err(ArchiveError::Corrupt);
                },
            }
            i = i + 1;
        }
        proof {
            assert(entries_of(names).subrange(0, n as int) =~= entries_of(names));
        }
        Ok(entries)
    }

    /// The text of the file entry named `name`: the bytes stored for the last
    /// entry of that name, decoded as UTF-8.
    pub fn read_entry(&mut self, name: &str) -> (r: Result<String, ArchiveError>)
        ensures
            same_archive(*old(self), *final(self)),
            r == Err::<String, ArchiveError>(ArchiveError::EntryNotFound) <==> (is_dir_name(name@)
                || last_index(old(self).names(), name@) < 0),
            r == Err::<String, ArchiveError>(ArchiveError::Corrupt) <==> ({
                let k = last_index(old(self).names(), name@);
                &&& !is_dir_name(name@)
                &&& 0 <= k
                &&& !old(self).readable()[k]
            }),
            r == Err::<String, ArchiveError>(ArchiveError::EntryNotText) <==> ({
                let k = last_index(old(self).names(), name@);
                &&& !is_dir_name(name@)
                &&& 0 <= k
                &&& old(self).readable()[k]
                &&& !valid_utf8(old(self).contents()[k])
            }),
            r is Ok <==> ({
                let k = last_index(old(self).names(), name@);
                &&& !is_dir_name(name@)
                &&& 0 <= k
                &&& old(self).readable()[k]
                &&& valid_utf8(old(self).contents()[k])
            }),
            r is Ok ==> r->Ok_0@ == decode_utf8(
                old(self).contents()[last_index(old(self).names(), name@)],
            ),
            r is Err ==> r->Err_0 == ArchiveError::EntryNotFound || r->Err_0
                == ArchiveError::EntryNotText || r->Err_0 == ArchiveError::Corrupt,
    {
        if is_directory_name(name) {
            return Err(ArchiveError::EntryNotFound);
        }
        match zip_read_named(&mut self.zip, name) {
            Ok(bytes) => match text_of(bytes) {
                Some(text) => Ok(text),
                None => Err(ArchiveError::EntryNotText),
            },
            Err(e) => Err(e),
        }
    }

    /// The names of the entries that `ignore` lets through, in central
    /// directory order.
    pub fn list(&mut self, ignore: &IgnoreSpec) -> (r: Result<Vec<String>, ArchiveError>)
        ensures
            listed(*old(self), *final(self), ignore@, r),
    {
        match self.enumerate() {
            Ok(entries) => Ok(ignore.filter_entries(&entries)),
            Err(e) => Err(e),
        }
    }

    /// Writing an entry back is not offered: the archive stays as it is.
    pub fn replace_entry(&self, name: &str, content: &str) -> (r: Result<(), ArchiveError>)
        ensures
            r == Err::<(), ArchiveError>(ArchiveError::Unsupported),
    {
        Err(ArchiveError::Unsupported)
    }

    /// Removing an entry is not offered: the archive stays as it is.
    pub fn remove_entry(&self, name: &str) -> (r: Result<(), ArchiveError>)
        ensures
            r == Err::<(), ArchiveError>(ArchiveError::Unsupported),
    {
        Err(ArchiveError::Unsupported)
    }
}

} // verus!
