//! Repository identities, their collection key, and file records.

use crate::text::{decimal_string, spec_decimal};
use vstd::prelude::*;
use vstd::string::{StrSliceExecFns, StringExecFns};

verus! {

/// The identity of a source repository: owner, name, and branch.
///
/// Both the ingestion and the retrieval pipeline derive the name of the
/// per-repository collection from this identity, through [`key_of`], and
/// through nothing else.
#[derive(Clone, Debug)]
pub struct Repository {
    pub owner: String,
    pub name: String,
    pub branch: String,
}

/// The mathematical value of a [`Repository`]: its three fields as
/// sequences of characters.
pub struct RepoView {
    pub owner: Seq<char>,
    pub name: Seq<char>,
    pub branch: Seq<char>,
}

impl View for Repository {
    type V = RepoView;

    open spec fn view(&self) -> RepoView {
        RepoView { owner: self.owner@, name: self.name@, branch: self.branch@ }
    }
}

/// The character that separates the three identity fields inside a
/// collection key. The key layout is a persisted schema: changing it
/// orphans every collection written under the old layout.
pub open spec fn key_separator() -> char {
    '-'
}

/// What [`key_of`] returns: the three fields joined by [`key_separator`].
pub open spec fn spec_key_of(r: RepoView) -> Seq<char> {
    r.owner + seq![key_separator()] + r.name + seq![key_separator()] + r.branch
}

/// Maps a repository identity to the name of its collection in the vector
/// store.
///
/// This is a pure function of the identity: the same identity always
/// yields the same key, on every call and in both pipelines.
pub fn key_of(repository: &Repository) -> (key: String)
    ensures
        key@ == spec_key_of(repository@),
{
    proof {
        reveal_strlit("-");
    }
    let key = repository.owner.clone().concat("-").concat(repository.name.as_str()).concat(
        "-",
    ).concat(repository.branch.as_str());
    assert(key@ =~= spec_key_of(repository@));
    key
}

/// A sequence of characters in which the key separator does not occur.
pub open spec fn separator_free(s: Seq<char>) -> bool {
    forall|i: int| 0 <= i < s.len() ==> s[i] != key_separator()
}

/// Both halves of a join are pinned down by the joined sequence, as long
/// as neither prefix contains the separator.
proof fn lemma_join_injective(x: Seq<char>, y: Seq<char>, u: Seq<char>, v: Seq<char>)
    requires
        separator_free(x),
        separator_free(u),
        x + seq![key_separator()] + y == u + seq![key_separator()] + v,
    ensures
        x == u,
        y == v,
{
    let s = x + seq![key_separator()] + y;
    let t = u + seq![key_separator()] + v;
    if x.len() < u.len() {
        assert(s[x.len() as int] == key_separator());
        assert(t[x.len() as int] == u[x.len() as int]);
        assert(false);
    }
    if u.len() < x.len() {
        assert(t[u.len() as int] == key_separator());
        assert(s[u.len() as int] == x[u.len() as int]);
        assert(false);
    }
    assert(x =~= u) by {
        assert(forall|i: int| 0 <= i < x.len() ==> s[i] == x[i] && t[i] == u[i]);
    }
    assert(s.len() == x.len() + 1 + y.len());
    assert(t.len() == u.len() + 1 + v.len());
    assert(y.len() == v.len());
    assert(y =~= v) by {
        assert forall|i: int| 0 <= i < y.len() implies y[i] == v[i] by {
            assert(s[x.len() + 1 + i] == y[i]);
            assert(t[x.len() + 1 + i] == v[i]);
        }
    }
}

/// Distinct identities map to distinct collection keys, provided no
/// identity field contains the separator character. (Identities whose
/// fields contain the separator can collide: joining `a-b, c` and
/// `a, b-c` with `-` yields the same key.)
pub proof fn lemma_key_of_injective(a: RepoView, b: RepoView)
    requires
        separator_free(a.owner),
        separator_free(a.name),
        separator_free(a.branch),
        separator_free(b.owner),
        separator_free(b.name),
        separator_free(b.branch),
        spec_key_of(a) == spec_key_of(b),
    ensures
        a.owner == b.owner,
        a.name == b.name,
        a.branch == b.branch,
{
    let ya = a.name + seq![key_separator()] + a.branch;
    let yb = b.name + seq![key_separator()] + b.branch;
    assert(a.owner + seq![key_separator()] + ya =~= spec_key_of(a));
    assert(b.owner + seq![key_separator()] + yb =~= spec_key_of(b));
    lemma_join_injective(a.owner, ya, b.owner, yb);
    lemma_join_injective(a.name, a.branch, b.name, b.branch);
}

/// A file of the repository, as the index stores and returns it: its
/// path inside the repository, its decoded text content, and the length
/// in bytes of that content.
#[derive(Debug)]
pub struct File {
    pub path: String,
    pub content: String,
    pub length: usize,
}

/// The mathematical value of a [`File`].
pub struct FileView {
    pub path: Seq<char>,
    pub content: Seq<char>,
    pub length: nat,
}

impl View for File {
    type V = FileView;

    open spec fn view(&self) -> FileView {
        FileView { path: self.path@, content: self.content@, length: self.length as nat }
    }
}

/// The length in bytes of a text: the length of its UTF-8 encoding.
/// (The cast mirrors `str::len`, which reports the length as a `usize`;
/// for any text that fits in memory the cast changes nothing.)
pub open spec fn byte_len(content: Seq<char>) -> nat {
    (vstd::utf8::encode_utf8(content).len() as usize) as nat
}

/// The text that stands for a file when it is embedded: its path, its
/// byte length and its content, each under a short label.
pub open spec fn spec_display_text(f: FileView) -> Seq<char> {
    "File path: "@ + f.path + "\nFile length: "@ + spec_decimal(f.length) + " bytes\nFile content: "@
        + f.content
}

impl File {
    /// Renders the file in the labelled form that the ingestion pipeline
    /// hands to the embedding model.
    pub fn display_string(&self) -> (r: String)
        ensures
            r@ == spec_display_text(self@),
    {
        let mut out = String::new();
        out.append("File path: ");
        out.append(self.path.as_str());
        out.append("\nFile length: ");
        let len = decimal_string(self.length as u64);
        out.append(len.as_str());
        out.append(" bytes\nFile content: ");
        out.append(self.content.as_str());
        proof {
            assert(out@ =~= spec_display_text(self@));
        }
        out
    }
}

/// A file as the source fetcher hands it over: its path inside the
/// archive and its raw, not yet decoded bytes.
pub struct FetchedFile {
    pub path: String,
    pub bytes: Vec<u8>,
}

/// The mathematical value of a [`FetchedFile`].
pub struct FetchedFileView {
    pub path: Seq<char>,
    pub bytes: Seq<u8>,
}

impl View for FetchedFile {
    type V = FetchedFileView;

    open spec fn view(&self) -> FetchedFileView {
        FetchedFileView { path: self.path@, bytes: self.bytes@ }
    }
}

/// The index of the first slash in `name`, or `-1` if there is none.
pub open spec fn first_slash(name: Seq<char>) -> int
    decreases name.len(),
{
    if name.len() == 0 {
        -1
    } else if name[0] == '/' {
        0
    } else {
        let rest = first_slash(name.drop_first());
        if rest < 0 {
            -1
        } else {
            rest + 1
        }
    }
}

/// What [`strip_root`] returns: everything after the first slash, or
/// nothing when the name contains no slash.
pub open spec fn spec_strip_root(name: Seq<char>) -> Option<Seq<char>> {
    if first_slash(name) >= 0 {
        Some(name.subrange(first_slash(name) + 1, name.len() as int))
    } else {
        None
    }
}

proof fn lemma_first_slash_at(name: Seq<char>, i: int)
    requires
        0 <= i < name.len(),
        name[i] == '/',
        forall|j: int| 0 <= j < i ==> name[j] != '/',
    ensures
        first_slash(name) == i,
    decreases name.len(),
{
    if i == 0 {
    } else {
        assert(forall|j: int| 0 <= j < i - 1 ==> name.drop_first()[j] == name[j + 1]);
        lemma_first_slash_at(name.drop_first(), i - 1);
    }
}

proof fn lemma_first_slash_none(name: Seq<char>)
    requires
        forall|j: int| 0 <= j < name.len() ==> name[j] != '/',
    ensures
        first_slash(name) == -1,
    decreases name.len(),
{
    if name.len() > 0 {
        assert(forall|j: int| 0 <= j < name.len() - 1 ==> name.drop_first()[j] == name[j + 1]);
        lemma_first_slash_none(name.drop_first());
    }
}

/// Drops an archive entry's top-level directory: the part of the name up
/// to and including its first slash. Returns `None` when the name has no
/// slash, that is, when the entry does not sit under a root directory.
pub fn strip_root(name: &str) -> (r: Option<String>)
    ensures
        r matches Some(p) ==> spec_strip_root(name@) == Some(p@),
        r is None ==> spec_strip_root(name@) is None,
{
    let n = name.unicode_len();
    let mut i: usize = 0;
    while i < n
        invariant
            n == name@.len(),
            0 <= i <= n,
            forall|j: int| 0 <= j < i ==> name@[j] != '/',
        decreases n - i,
    {
        if name.get_char(i) == '/' {
            let tail = name.substring_char(i + 1, n);
            proof {
                lemma_first_slash_at(name@, i as int);
            }
            return Some(tail.to_owned());
        }
        i = i + 1;
    }
    proof {
        lemma_first_slash_none(name@);
    }
    None
}

} // verus!
