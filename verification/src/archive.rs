//! Unpacking a repository archive into its files.
//!
//! The source fetcher downloads one repository as a zip archive whose
//! entries all sit under a single root directory named after the
//! repository and branch. This module turns the archive's bytes into
//! [`FetchedFile`] records: one per file entry, named by its path with
//! the root directory stripped, carrying the entry's raw bytes. The
//! archive format itself is the zip crate's business; what the crate
//! reads out of the bytes is given a name, and the selection and
//! renaming of entries is verified against it.

use crate::repo::{spec_strip_root, strip_root, FetchedFile, FetchedFileView};
use vstd::prelude::*;

verus! {

/// The zip crate's archive reader over an in-memory buffer.
#[verifier::external_type_specification]
#[verifier::external_body]
#[verifier::reject_recursive_types(T)]
pub struct ExCursor<T>(std::io::Cursor<T>);

/// The zip crate's archive reader.
#[verifier::external_type_specification]
#[verifier::external_body]
#[verifier::reject_recursive_types(R)]
pub struct ExZipArchive<R>(zip::ZipArchive<R>);

/// One archive entry as read out of the archive: its name, whether it
/// is a file (rather than a directory or symbolic link), and its
/// decompressed bytes.
#[derive(Debug)]
pub struct ArchiveEntry {
    pub name: String,
    pub is_file: bool,
    pub data: Vec<u8>,
}

impl View for ArchiveEntry {
    type V = (Seq<char>, bool, Seq<u8>);

    open spec fn view(&self) -> (Seq<char>, bool, Seq<u8>) {
        (self.name@, self.is_file, self.data@)
    }
}

/// The entries a zip archive with the given bytes holds, in central
/// directory order as the reader retains them (the reader keys entries
/// by name, so of two same-named entries one is retained): for each
/// retained entry its decoded name, whether it is a file, and its
/// decompressed bytes. A function of the bytes alone.
pub uninterp spec fn zip_entries_of(bytes: Seq<u8>) -> Seq<(Seq<char>, bool, Seq<u8>)>;

/// Whether a zip reader can be opened on the given bytes at all: the
/// central directory parses. A function of the bytes alone.
pub uninterp spec fn zip_parse_ok(bytes: Seq<u8>) -> bool;

/// Whether the entry at `i` of an archive with the given bytes can be
/// read out in full: its compression is supported, it needs no
/// password, and its data decompresses. A function of the bytes and
/// the index alone.
pub uninterp spec fn zip_entry_readable(bytes: Seq<u8>, i: int) -> bool;

/// The entries an open archive reader holds.
pub uninterp spec fn archive_entries(a: zip::ZipArchive<std::io::Cursor<Vec<u8>>>) -> Seq<
    (Seq<char>, bool, Seq<u8>),
>;

/// Whether the entry at `i` of an open archive reader can be read out
/// in full.
pub uninterp spec fn entry_readable(a: zip::ZipArchive<std::io::Cursor<Vec<u8>>>, i: int) -> bool;

/// Relies on `zip::ZipArchive::new` over `std::io::Cursor`: parsing the
/// bytes' central directory succeeds or fails as a function of the
/// bytes alone, and on success yields the archive's entries, each as
/// readable as the bytes make it.
#[verifier::external_body]
fn open_archive(bytes: Vec<u8>) -> (r: Option<zip::ZipArchive<std::io::Cursor<Vec<u8>>>>)
    ensures
        r is Some <==> zip_parse_ok(bytes@),
        r matches Some(a) ==> archive_entries(a) == zip_entries_of(bytes@),
        r matches Some(a) ==> forall|i: int|
            #[trigger] entry_readable(a, i) == zip_entry_readable(bytes@, i),
{
    zip::ZipArchive::new(std::io::Cursor::new(bytes)).ok()
}

/// Relies on `zip::ZipArchive::len`: the number of entries the archive
/// holds.
#[verifier::external_body]
fn archive_len(a: &zip::ZipArchive<std::io::Cursor<Vec<u8>>>) -> (r: usize)
    ensures
        r == archive_entries(*a).len(),
{
    a.len()
}

/// Relies on `zip::ZipArchive::by_index` and the entry's `name`,
/// `is_file` and `Read` methods: reading the entry at `i` succeeds
/// exactly when the index is in range and the entry is readable
/// (`by_index` seeks to the entry's own offset, so earlier reads do
/// not matter), yields its name, kind and decompressed bytes converted
/// to plain values, and moves only the reader's cursor — never the
/// entry table, nor what is readable.
#[verifier::external_body]
fn read_entry(a: &mut zip::ZipArchive<std::io::Cursor<Vec<u8>>>, i: usize) -> (r: Option<
    ArchiveEntry,
>)
    ensures
        archive_entries(*final(a)) == archive_entries(*old(a)),
        forall|k: int| #[trigger] entry_readable(*final(a), k) == entry_readable(*old(a), k),
        r is Some <==> i < archive_entries(*old(a)).len() && entry_readable(*old(a), i as int),
        r matches Some(e) ==> e@ == archive_entries(*old(a))[i as int],
{
    let mut f = a.by_index(i).ok()?;
    let name = f.name().to_string();
    let is_file = f.is_file();
    let mut data = Vec::new();
    std::io::Read::read_to_end(&mut f, &mut data).ok()?;
    Some(ArchiveEntry { name, is_file, data })
}

/// The files that unpacking a repository archive with the given entries
/// yields: every file entry, in order, renamed by stripping the root
/// directory from its name; directory and link entries are passed over.
/// Nothing, when some file entry has no root directory to strip — the
/// archive is then not the single-rooted archive a repository fetch
/// produces.
pub open spec fn spec_unpack(entries: Seq<(Seq<char>, bool, Seq<u8>)>) -> Option<
    Seq<FetchedFileView>,
>
    decreases entries.len(),
{
    if entries.len() == 0 {
        Some(Seq::empty())
    } else {
        match spec_unpack(entries.drop_last()) {
            Option::None => Option::None,
            Option::Some(rest) => {
                let e = entries.last();
                if !e.1 {
                    Some(rest)
                } else {
                    match spec_strip_root(e.0) {
                        Option::Some(p) => Some(
                            rest.push(FetchedFileView { path: p, bytes: e.2 }),
                        ),
                        Option::None => Option::None,
                    }
                }
            },
        }
    }
}

/// Once a prefix of the entries fails to unpack, the whole sequence
/// does.
proof fn lemma_spec_unpack_none_extends(entries: Seq<(Seq<char>, bool, Seq<u8>)>, m: int)
    requires
        0 <= m <= entries.len(),
        spec_unpack(entries.take(m)) is None,
    ensures
        spec_unpack(entries) is None,
    decreases entries.len() - m,
{
    if m == entries.len() {
        assert(entries.take(m) =~= entries);
    } else {
        assert(entries.take(m + 1).drop_last() =~= entries.take(m));
        assert(spec_unpack(entries.take(m + 1)) is None);
        lemma_spec_unpack_none_extends(entries, m + 1);
    }
}

/// Unpacks a repository archive into its files: one record per file
/// entry, in archive order, named by its path under the archive's root
/// directory and carrying the entry's raw bytes.
///
/// Succeeds exactly when the bytes parse as an archive, every entry
/// can be read out, and every file entry sits under a root directory;
/// it then returns exactly the unpacking of the archive's entries.
/// Anything else is `None`, which the caller treats as a fetch
/// failure.
#[verifier::loop_isolation(false)]
pub fn unpack_archive(bytes: Vec<u8>) -> (r: Option<Vec<FetchedFile>>)
    ensures
        r is Some <==> zip_parse_ok(bytes@) && spec_unpack(zip_entries_of(bytes@)) is Some && (
        forall|i: int|
            0 <= i < zip_entries_of(bytes@).len() ==> #[trigger] zip_entry_readable(bytes@, i)),
        r matches Some(files) ==> spec_unpack(zip_entries_of(bytes@)) == Some(
            files@.map_values(|f: FetchedFile| f@),
        ),
{
    let ghost bs = bytes@;
    let ghost entries = zip_entries_of(bs);
    let mut archive = match open_archive(bytes) {
        Some(a) => a,
        None => {
            return None;
        },
    };
    let n = archive_len(&archive);
    let mut files: Vec<FetchedFile> = Vec::new();
    let mut i: usize = 0;
    while i < n
        invariant
            0 <= i <= n,
            n == entries.len(),
            archive_entries(archive) == entries,
            forall|k: int| #[trigger] entry_readable(archive, k) == zip_entry_readable(bs, k),
            forall|k: int| 0 <= k < i ==> #[trigger] zip_entry_readable(bs, k),
            spec_unpack(entries.take(i as int)) == Some(
                files@.map_values(|f: FetchedFile| f@),
            ),
        decreases n - i,
    {
        let e = match read_entry(&mut archive, i) {
            Some(e) => e,
            None => {
                proof {
                    assert(!zip_entry_readable(bs, i as int));
                }
                return None;
            },
        };
        proof {
            assert(e@ == entries[i as int]);
            assert(entries.take(i + 1).drop_last() =~= entries.take(i as int));
            assert(entries.take(i + 1).last() == entries[i as int]);
        }
        if e.is_file {
            match strip_root(e.name.as_str()) {
                Some(path) => {
                    let ghost oldvec = files@;
                    let ghost oldmap = files@.map_values(|f: FetchedFile| f@);
                    let ghost newfile = FetchedFileView { path: path@, bytes: e.data@ };
                    files.push(FetchedFile { path, bytes: e.data });
                    proof {
                        let m = files@.map_values(|f: FetchedFile| f@);
                        assert forall|k: int| 0 <= k < m.len() implies #[trigger] m[k]
                            == oldmap.push(newfile)[k] by {
                            assert(m[k] == files@[k]@);
                            if k < m.len() - 1 {
                                assert(files@[k] == oldvec[k]);
                                assert(oldmap[k] == oldvec[k]@);
                            }
                        }
                        assert(m =~= oldmap.push(newfile));
                        assert(spec_unpack(entries.take(i + 1)) == Some(m));
                    }
                },
                None => {
                    proof {
                        assert(spec_unpack(entries.take(i + 1)) is None);
                        lemma_spec_unpack_none_extends(entries, i + 1);
                    }
                    return None;
                },
            }
        }
        i = i + 1;
    }
    proof {
        assert(entries.take(n as int) =~= entries);
    }
    Some(files)
}

} // verus!
