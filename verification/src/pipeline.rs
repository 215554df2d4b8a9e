//! The ingestion and retrieval pipelines.
//!
//! Ingestion turns the fetched files of one repository into indexed
//! points: decode each file as text (skipping files that are not text),
//! embed the decoded files through the embedding model, and store one
//! point per embedded file under a deterministic identifier. Retrieval
//! embeds a query, searches the repository's collection, and hydrates
//! the hits back into full file records.
//!
//! The embedding model is a capability the caller supplies. Nothing is
//! assumed about it: every contract here states what holds whatever the
//! model returns, and the pipeline degrades per-file embedding failures
//! to skips, failing only when no file embeds at all.

use crate::repo::{spec_key_of, File, FileView, FetchedFile, FetchedFileView, Repository, key_of};
use crate::score::Embeddings;
use crate::store::{
    coll_idx, coll_of, has_coll, spec_point_id, spec_upsert_batch, CollView, IndexPoint,
    PointView, StorageError, VectorStore,
};
use crate::text::decode_text;
use vstd::prelude::*;
use vstd::utf8::{decode_utf8, valid_utf8};

verus! {

/// The embedding model: turns a text into a fixed-dimension vector.
///
/// The pipelines own no model; callers hand one in, which also lets a
/// test substitute a deterministic stand-in. A model is expected to be
/// deterministic and to produce vectors of one fixed dimension, but
/// nothing here relies on that: vectors of the wrong dimension are
/// rejected by the store as a schema conflict.
pub trait EmbeddingsModel {
    /// Embeds one text.
    fn embed(&self, text: &str) -> Result<Embeddings, EmbedError>;
}

/// A failure of the embedding model, with the model's own description.
#[derive(Debug, Clone)]
pub struct EmbedError {
    pub message: String,
}

/// A failure of the source fetcher: the repository's files could not be
/// obtained, because the archive was unreachable or malformed.
#[derive(Debug, Clone)]
pub struct FetchFailure {
    pub message: String,
}

/// One file's path, stored content and embedding vector, ready to be
/// indexed. The content travels with the embedding so that retrieval
/// can hydrate hits without fetching again — what is returned is then
/// exactly what was embedded.
#[derive(Debug)]
pub struct FileEmbeddings {
    pub path: String,
    pub content: String,
    pub embeddings: Embeddings,
}

/// The mathematical value of a [`FileEmbeddings`].
pub struct FileEmbeddingsView {
    pub path: Seq<char>,
    pub content: Seq<char>,
    pub embeddings: Seq<i32>,
}

impl View for FileEmbeddings {
    type V = FileEmbeddingsView;

    open spec fn view(&self) -> FileEmbeddingsView {
        FileEmbeddingsView {
            path: self.path@,
            content: self.content@,
            embeddings: self.embeddings@,
        }
    }
}

/// Everything the ingestion pipeline derived from one repository: the
/// repository's collection key and one entry per embedded file.
#[derive(Debug)]
pub struct RepositoryEmbeddings {
    pub repo_id: String,
    pub file_embeddings: Vec<FileEmbeddings>,
}

/// What one ingestion call did, count by count: files handed over by
/// the fetcher, files skipped because their bytes are not text, files
/// whose embedding failed, and points written to the store.
#[derive(Clone, Copy, Debug, PartialEq, Eq, Structural)]
pub struct IngestReport {
    pub fetched: usize,
    pub skipped: usize,
    pub embed_failed: usize,
    pub upserted: usize,
}

/// Why an ingestion call failed as a whole. Per-file anomalies are
/// absorbed into the report; these are the failures of the call itself.
#[derive(Debug)]
pub enum IngestError {
    /// The source fetcher could not deliver the repository's files.
    Fetch(FetchFailure),
    /// Files were there to embed, and every single embedding failed:
    /// the model is broken, not the input.
    Embed,
    /// The store refused: a schema conflict or a store fault.
    Storage(StorageError),
}

/// Why a retrieval call failed: the query could not be embedded, or the
/// store refused the search.
#[derive(Debug)]
pub enum RetrievalError {
    Embed(EmbedError),
    Storage(StorageError),
}

/// A retrieval request: the repository to search and the query text.
#[derive(Debug)]
pub struct Query {
    pub repository: Repository,
    pub query: String,
}

/// The files that ingestion decodes out of the fetched files, in order:
/// one file record per fetched file whose bytes are valid text, with
/// the decoded content and the byte length.
pub open spec fn spec_decoded(files: Seq<FetchedFileView>) -> Seq<FileView>
    decreases files.len(),
{
    if files.len() == 0 {
        Seq::empty()
    } else {
        let rest = spec_decoded(files.drop_last());
        let f = files.last();
        if valid_utf8(f.bytes) {
            rest.push(
                FileView { path: f.path, content: decode_utf8(f.bytes), length: f.bytes.len() },
            )
        } else {
            rest
        }
    }
}

/// The embedded files `fes` are an in-order selection of the decoded
/// files `dec`: each carries the path and content of one decoded file,
/// and later entries come from later files.
pub open spec fn is_selection(
    sel: Seq<int>,
    fes: Seq<FileEmbeddingsView>,
    dec: Seq<FileView>,
) -> bool {
    &&& sel.len() == fes.len()
    &&& forall|j: int| 0 <= j < sel.len() ==> 0 <= #[trigger] sel[j] < dec.len()
    &&& forall|j: int, k: int| 0 <= j < k < sel.len() ==> sel[j] < sel[k]
    &&& forall|j: int|
        0 <= j < sel.len() ==> (#[trigger] fes[j]).path == dec[sel[j]].path && fes[j].content
            == dec[sel[j]].content
}

/// Some in-order selection of the decoded files produced `fes`.
pub open spec fn embeds_from(fes: Seq<FileEmbeddingsView>, dec: Seq<FileView>) -> bool {
    exists|sel: Seq<int>| is_selection(sel, fes, dec)
}

/// Decodes and embeds the files of one repository.
///
/// Every fetched file whose bytes are valid text is decoded and handed
/// to the model, rendered as its labelled display text; files that are
/// not text are skipped and counted, and files whose embedding call
/// fails are counted and excluded. Whatever the model returns, the
/// result carries the repository's collection key, one entry per
/// successfully embedded file — an in-order selection of the decoded
/// files — and exact counts: `fetched` is the number of files handed
/// in, `skipped` the number that were not text, and
/// `embed_failed + upserted` the number that were.
#[verifier::loop_isolation(false)]
pub fn embed_repo<M: EmbeddingsModel>(
    repository: &Repository,
    files: Vec<FetchedFile>,
    model: &M,
) -> (r: (RepositoryEmbeddings, IngestReport))
    ensures
        r.0.repo_id@ == spec_key_of(repository@),
        r.1.fetched == files@.len(),
        ({
            let dec = spec_decoded(files@.map_values(|f: FetchedFile| f@));
            &&& r.1.skipped == files@.len() - dec.len()
            &&& r.1.embed_failed + r.1.upserted == dec.len()
            &&& r.0.file_embeddings@.len() == r.1.upserted
            &&& embeds_from(r.0.file_embeddings@.map_values(|fe: FileEmbeddings| fe@), dec)
        }),
{
    let key = key_of(repository);
    let ghost fviews = files@.map_values(|f: FetchedFile| f@);
    let n = files.len();
    let mut file_embeddings: Vec<FileEmbeddings> = Vec::new();
    let mut skipped: usize = 0;
    let mut embed_failed: usize = 0;
    let ghost sel: Seq<int> = Seq::empty();
    let mut rest = files;
    let ghost done: int = 0;
    while rest.len() > 0
        invariant
            0 <= done <= n,
            rest@.map_values(|f: FetchedFile| f@) =~= fviews.skip(done),
            skipped == done - spec_decoded(fviews.take(done)).len(),
            embed_failed + file_embeddings@.len() == spec_decoded(fviews.take(done)).len(),
            spec_decoded(fviews.take(done)).len() <= done,
            is_selection(
                sel,
                file_embeddings@.map_values(|fe: FileEmbeddings| fe@),
                spec_decoded(fviews.take(done)),
            ),
        decreases rest@.len(),
    {
        proof {
            assert(rest@.map_values(|f: FetchedFile| f@).len() == rest@.len());
            assert(rest@.map_values(|f: FetchedFile| f@)[0] == rest@[0]@);
            assert(fviews.skip(done)[0] == fviews[done]);
        }
        let ghost prev = rest@;
        let f = rest.remove(0);
        let ghost dec0 = spec_decoded(fviews.take(done));
        proof {
            assert(f@ == fviews[done]);
            let m = rest@.map_values(|q: FetchedFile| q@);
            assert forall|i2: int| 0 <= i2 < rest@.len() implies #[trigger] m[i2] == fviews.skip(
                done + 1,
            )[i2] by {
                assert(rest@[i2] == prev[i2 + 1]);
                assert(prev.map_values(|q: FetchedFile| q@)[i2 + 1] == prev[i2 + 1]@);
                assert(fviews.skip(done)[i2 + 1] == fviews[done + 1 + i2]);
                assert(fviews.skip(done + 1)[i2] == fviews[done + 1 + i2]);
            }
            assert(m =~= fviews.skip(done + 1));
            assert(fviews.take(done + 1).drop_last() =~= fviews.take(done));
            assert(fviews.take(done + 1).last() == fviews[done]);
        }
        match decode_text(&f.bytes) {
            None => {
                skipped = skipped + 1;
                proof {
                    assert(spec_decoded(fviews.take(done + 1)) == dec0);
                    done = done + 1;
                }
            },
            Some(content) => {
                let ghost newfile = FileView {
                    path: f@.path,
                    content: decode_utf8(f@.bytes),
                    length: f@.bytes.len(),
                };
                proof {
                    assert(spec_decoded(fviews.take(done + 1)) == dec0.push(newfile));
                }
                let length = f.bytes.len();
                let file = File { path: f.path, content, length };
                let text = file.display_string();
                match model.embed(text.as_str()) {
                    Err(_) => {
                        embed_failed = embed_failed + 1;
                        proof {
                            assert(is_selection(
                                sel,
                                file_embeddings@.map_values(|fe: FileEmbeddings| fe@),
                                dec0.push(newfile),
                            ));
                            done = done + 1;
                        }
                    },
                    Ok(vector) => {
                        let fe = FileEmbeddings {
                            path: file.path,
                            content: file.content,
                            embeddings: vector,
                        };
                        proof {
                            assert(fe@.path == newfile.path);
                            assert(fe@.content == newfile.content);
                        }
                        let ghost oldvec = file_embeddings@;
                        let ghost oldfevs = file_embeddings@.map_values(|q: FileEmbeddings| q@);
                        file_embeddings.push(fe);
                        proof {
                            let fevs = file_embeddings@.map_values(|q: FileEmbeddings| q@);
                            assert forall|k: int| 0 <= k < fevs.len() implies #[trigger] fevs[k]
                                == oldfevs.push(fe@)[k] by {
                                assert(fevs[k] == file_embeddings@[k]@);
                                if k < fevs.len() - 1 {
                                    assert(file_embeddings@[k] == oldvec[k]);
                                    assert(oldfevs[k] == oldvec[k]@);
                                }
                            }
                            assert(fevs =~= oldfevs.push(fe@));
                            let newsel = sel.push(dec0.len() as int);
                            assert(is_selection(newsel, fevs, dec0.push(newfile)));
                            sel = newsel;
                            done = done + 1;
                        }
                    },
                }
            },
        }
    }
    proof {
        assert(fviews.take(done) =~= fviews);
    }
    let upserted = file_embeddings.len();
    (
        RepositoryEmbeddings { repo_id: key, file_embeddings },
        IngestReport { fetched: n, skipped, embed_failed, upserted },
    )
}

/// Whether an ingestion's embedding phase collapsed: there were files
/// to embed and not one of them embedded. This is the one condition
/// under which ingestion fails with [`IngestError::Embed`]; callers
/// that run the pipeline piecewise take the decision from here rather
/// than re-deriving it.
pub fn embedding_collapsed(report: &IngestReport) -> (r: bool)
    ensures
        r == (report.upserted == 0 && report.skipped < report.fetched),
{
    report.upserted == 0 && report.skipped < report.fetched
}

/// Decodes the fetched files of one repository: keeps, in order, every
/// file whose bytes are valid text as a full file record, and counts
/// the files that are not.
///
/// Together with [`assemble_embeddings`] this is [`embed_repo`]'s work
/// split into its pure halves, so that a caller can fan the per-file
/// embedding calls out over a worker pool of its own — each file's
/// text is [`File::display_string`] — and hand the outcomes back in
/// order.
#[verifier::loop_isolation(false)]
pub fn decode_files(files: Vec<FetchedFile>) -> (r: (Vec<File>, usize))
    ensures
        r.0@.map_values(|f: File| f@) =~= spec_decoded(files@.map_values(|f: FetchedFile| f@)),
        r.1 + r.0@.len() == files@.len(),
{
    let ghost fviews = files@.map_values(|f: FetchedFile| f@);
    let n = files.len();
    let mut decoded: Vec<File> = Vec::new();
    let mut skipped: usize = 0;
    let mut rest = files;
    let ghost done: int = 0;
    while rest.len() > 0
        invariant
            0 <= done <= n,
            rest@.map_values(|f: FetchedFile| f@) =~= fviews.skip(done),
            skipped == done - spec_decoded(fviews.take(done)).len(),
            decoded@.map_values(|f: File| f@) =~= spec_decoded(fviews.take(done)),
            spec_decoded(fviews.take(done)).len() <= done,
        decreases rest@.len(),
    {
        proof {
            assert(rest@.map_values(|f: FetchedFile| f@).len() == rest@.len());
            assert(rest@.map_values(|f: FetchedFile| f@)[0] == rest@[0]@);
            assert(fviews.skip(done)[0] == fviews[done]);
        }
        let ghost prev = rest@;
        let f = rest.remove(0);
        let ghost dec0 = spec_decoded(fviews.take(done));
        proof {
            assert(f@ == fviews[done]);
            let m = rest@.map_values(|q: FetchedFile| q@);
            assert forall|i2: int| 0 <= i2 < rest@.len() implies #[trigger] m[i2] == fviews.skip(
                done + 1,
            )[i2] by {
                assert(rest@[i2] == prev[i2 + 1]);
                assert(prev.map_values(|q: FetchedFile| q@)[i2 + 1] == prev[i2 + 1]@);
                assert(fviews.skip(done)[i2 + 1] == fviews[done + 1 + i2]);
                assert(fviews.skip(done + 1)[i2] == fviews[done + 1 + i2]);
            }
            assert(m =~= fviews.skip(done + 1));
            assert(fviews.take(done + 1).drop_last() =~= fviews.take(done));
            assert(fviews.take(done + 1).last() == fviews[done]);
        }
        match decode_text(&f.bytes) {
            None => {
                skipped = skipped + 1;
                proof {
                    assert(spec_decoded(fviews.take(done + 1)) == dec0);
                    done = done + 1;
                }
            },
            Some(content) => {
                let ghost newfile = FileView {
                    path: f@.path,
                    content: decode_utf8(f@.bytes),
                    length: f@.bytes.len(),
                };
                proof {
                    assert(spec_decoded(fviews.take(done + 1)) == dec0.push(newfile));
                }
                let length = f.bytes.len();
                let ghost oldvec = decoded@;
                let ghost oldmap = decoded@.map_values(|q: File| q@);
                let nf = File { path: f.path, content, length };
                proof {
                    assert(nf@ == newfile);
                }
                decoded.push(nf);
                proof {
                    let m = decoded@.map_values(|q: File| q@);
                    assert forall|k: int| 0 <= k < m.len() implies #[trigger] m[k] == oldmap.push(
                        newfile,
                    )[k] by {
                        assert(m[k] == decoded@[k]@);
                        if k < m.len() - 1 {
                            assert(decoded@[k] == oldvec[k]);
                            assert(oldmap[k] == oldvec[k]@);
                        }
                    }
                    assert(m =~= oldmap.push(newfile));
                    done = done + 1;
                }
            },
        }
    }
    proof {
        assert(fviews.take(done) =~= fviews);
    }
    (decoded, skipped)
}

/// The mathematical value of one per-file embedding outcome.
pub open spec fn spec_embed_outcome(o: Option<Embeddings>) -> Option<Seq<i32>> {
    match o {
        Option::Some(v) => Some(v@),
        Option::None => Option::None,
    }
}

/// What pairing decoded files with their embedding outcomes yields:
/// one entry per file whose outcome is a vector, in order, carrying
/// the file's path and content alongside the vector.
pub open spec fn spec_assemble(dec: Seq<FileView>, res: Seq<Option<Seq<i32>>>) -> Seq<
    FileEmbeddingsView,
>
    decreases dec.len(),
{
    if dec.len() == 0 || res.len() == 0 {
        Seq::empty()
    } else {
        let rest = spec_assemble(dec.drop_last(), res.drop_last());
        match res.last() {
            Option::Some(v) => rest.push(
                FileEmbeddingsView {
                    path: dec.last().path,
                    content: dec.last().content,
                    embeddings: v,
                },
            ),
            Option::None => rest,
        }
    }
}

/// Pairs the decoded files with the embedding outcomes a caller
/// obtained for them — in the same order, one outcome per file — and
/// builds the repository's embeddings and the ingestion report:
/// exactly the files whose outcome is a vector survive, failed ones
/// are counted, and the counts add up as [`embed_repo`]'s do.
#[verifier::loop_isolation(false)]
pub fn assemble_embeddings(
    repository: &Repository,
    decoded: Vec<File>,
    results: Vec<Option<Embeddings>>,
    skipped: usize,
) -> (r: (RepositoryEmbeddings, IngestReport))
    requires
        decoded@.len() == results@.len(),
        skipped + decoded@.len() <= usize::MAX,
    ensures
        r.0.repo_id@ == spec_key_of(repository@),
        r.0.file_embeddings@.map_values(|fe: FileEmbeddings| fe@) =~= spec_assemble(
            decoded@.map_values(|f: File| f@),
            results@.map_values(|o: Option<Embeddings>| spec_embed_outcome(o)),
        ),
        r.1.fetched == skipped + decoded@.len(),
        r.1.skipped == skipped,
        r.1.embed_failed + r.1.upserted == decoded@.len(),
        r.1.upserted == r.0.file_embeddings@.len(),
{
    let key = key_of(repository);
    let ghost dv = decoded@.map_values(|f: File| f@);
    let ghost rv = results@.map_values(|o: Option<Embeddings>| spec_embed_outcome(o));
    let n = decoded.len();
    let fetched = skipped + n;
    let mut file_embeddings: Vec<FileEmbeddings> = Vec::new();
    let mut embed_failed: usize = 0;
    let mut drest = decoded;
    let mut rrest = results;
    let ghost done: int = 0;
    while drest.len() > 0
        invariant
            0 <= done <= n,
            drest@.map_values(|f: File| f@) =~= dv.skip(done),
            rrest@.map_values(|o: Option<Embeddings>| spec_embed_outcome(o)) =~= rv.skip(done),
            file_embeddings@.map_values(|fe: FileEmbeddings| fe@) =~= spec_assemble(
                dv.take(done),
                rv.take(done),
            ),
            embed_failed + file_embeddings@.len() == done,
        decreases drest@.len(),
    {
        proof {
            assert(drest@.map_values(|f: File| f@).len() == drest@.len());
            assert(rrest@.map_values(|o: Option<Embeddings>| spec_embed_outcome(o)).len()
                == rrest@.len());
            assert(drest@.map_values(|f: File| f@)[0] == drest@[0]@);
            assert(rrest@.map_values(|o: Option<Embeddings>| spec_embed_outcome(o))[0]
                == spec_embed_outcome(rrest@[0]));
            assert(dv.skip(done)[0] == dv[done]);
            assert(rv.skip(done)[0] == rv[done]);
        }
        let ghost dprev = drest@;
        let ghost rprev = rrest@;
        let f = drest.remove(0);
        let o = rrest.remove(0);
        proof {
            assert(f@ == dv[done]);
            assert(spec_embed_outcome(o) == rv[done]);
            let dm = drest@.map_values(|q: File| q@);
            assert forall|i2: int| 0 <= i2 < drest@.len() implies #[trigger] dm[i2] == dv.skip(
                done + 1,
            )[i2] by {
                assert(drest@[i2] == dprev[i2 + 1]);
                assert(dprev.map_values(|q: File| q@)[i2 + 1] == dprev[i2 + 1]@);
                assert(dv.skip(done)[i2 + 1] == dv[done + 1 + i2]);
                assert(dv.skip(done + 1)[i2] == dv[done + 1 + i2]);
            }
            assert(dm =~= dv.skip(done + 1));
            let rm = rrest@.map_values(|q: Option<Embeddings>| spec_embed_outcome(q));
            assert forall|i2: int| 0 <= i2 < rrest@.len() implies #[trigger] rm[i2] == rv.skip(
                done + 1,
            )[i2] by {
                assert(rrest@[i2] == rprev[i2 + 1]);
                assert(rprev.map_values(|q: Option<Embeddings>| spec_embed_outcome(q))[i2 + 1]
                    == spec_embed_outcome(rprev[i2 + 1]));
                assert(rv.skip(done)[i2 + 1] == rv[done + 1 + i2]);
                assert(rv.skip(done + 1)[i2] == rv[done + 1 + i2]);
            }
            assert(rm =~= rv.skip(done + 1));
            assert(dv.take(done + 1).drop_last() =~= dv.take(done));
            assert(rv.take(done + 1).drop_last() =~= rv.take(done));
            assert(dv.take(done + 1).last() == dv[done]);
            assert(rv.take(done + 1).last() == rv[done]);
        }
        match o {
            None => {
                embed_failed = embed_failed + 1;
                proof {
                    assert(spec_assemble(dv.take(done + 1), rv.take(done + 1)) == spec_assemble(
                        dv.take(done),
                        rv.take(done),
                    ));
                    done = done + 1;
                }
            },
            Some(vector) => {
                let ghost newfe = FileEmbeddingsView {
                    path: f@.path,
                    content: f@.content,
                    embeddings: vector@,
                };
                proof {
                    assert(spec_assemble(dv.take(done + 1), rv.take(done + 1)) == spec_assemble(
                        dv.take(done),
                        rv.take(done),
                    ).push(newfe));
                }
                let fe = FileEmbeddings { path: f.path, content: f.content, embeddings: vector };
                proof {
                    assert(fe@ == newfe);
                }
                let ghost oldvec = file_embeddings@;
                let ghost oldmap = file_embeddings@.map_values(|q: FileEmbeddings| q@);
                file_embeddings.push(fe);
                proof {
                    let m = file_embeddings@.map_values(|q: FileEmbeddings| q@);
                    assert forall|k: int| 0 <= k < m.len() implies #[trigger] m[k] == oldmap.push(
                        newfe,
                    )[k] by {
                        assert(m[k] == file_embeddings@[k]@);
                        if k < m.len() - 1 {
                            assert(file_embeddings@[k] == oldvec[k]);
                            assert(oldmap[k] == oldvec[k]@);
                        }
                    }
                    assert(m =~= oldmap.push(newfe));
                    done = done + 1;
                }
            },
        }
    }
    proof {
        assert(dv.take(done) =~= dv);
        assert(rv.take(done) =~= rv);
    }
    let upserted = file_embeddings.len();
    (
        RepositoryEmbeddings { repo_id: key, file_embeddings },
        IngestReport { fetched, skipped, embed_failed, upserted },
    )
}

/// The points that index the given embedded files in the collection
/// named `key`: identifiers derived from key and path, paths, contents
/// and vectors carried over.
pub open spec fn spec_points_of(key: Seq<char>, fes: Seq<FileEmbeddingsView>) -> Seq<PointView> {
    fes.map_values(
        |fe: FileEmbeddingsView|
            PointView {
                id: spec_point_id(key, fe.path),
                path: fe.path,
                content: fe.content,
                vector: fe.embeddings,
            },
    )
}

/// The store after one repository's batch is written: the batch is
/// upserted into the collection under `key`, which is created empty
/// first when it does not exist.
pub open spec fn spec_store_after_insert(
    s0: Seq<CollView>,
    key: Seq<char>,
    dim: nat,
    batch: Seq<PointView>,
) -> Seq<CollView> {
    if has_coll(s0, key) {
        s0.update(
            coll_idx(s0, key),
            CollView {
                key,
                dim: coll_of(s0, key).dim,
                points: spec_upsert_batch(coll_of(s0, key).points, batch),
            },
        )
    } else {
        s0.push(CollView { key, dim, points: spec_upsert_batch(Seq::empty(), batch) })
    }
}

/// Re-ingesting an unchanged repository changes nothing: writing the
/// same batch of points a second time leaves the store exactly as the
/// first write left it. The collection key is a pure function of the
/// identity and point identifiers are pure functions of key and path,
/// so an unchanged repository yields the same batch — and the same
/// batch, upserted again, neither grows the point count nor changes a
/// stored point.
///
/// The premises are the store's own invariants, plus distinct
/// identifiers within the batch — which hold of every batch ingestion
/// builds from distinct paths.
pub proof fn lemma_reingest_idempotent(
    s: Seq<CollView>,
    key: Seq<char>,
    dim: nat,
    batch: Seq<PointView>,
)
    requires
        forall|i: int, j: int| 0 <= i < j < s.len() ==> s[i].key != s[j].key,
        forall|i: int| 0 <= i < s.len() ==> crate::store::coll_wf(#[trigger] s[i]),
        crate::store::distinct_ids(batch),
    ensures
        spec_store_after_insert(
            spec_store_after_insert(s, key, dim, batch),
            key,
            dim,
            batch,
        ) == spec_store_after_insert(s, key, dim, batch),
{
    let s1 = spec_store_after_insert(s, key, dim, batch);
    if has_coll(s, key) {
        let w = coll_idx(s, key);
        assert(0 <= w < s.len() && s[w].key == key);
        let pts0 = coll_of(s, key).points;
        crate::store::lemma_coll_distinct_ids(s[w]);
        crate::store::lemma_upsert_batch_idempotent(pts0, batch);
        assert(s1[w].key == key);
        assert(has_coll(s1, key));
        let w1 = coll_idx(s1, key);
        assert(0 <= w1 < s1.len() && s1[w1].key == key);
        if w1 != w {
            assert(s1[w1].key == s[w1].key);
            assert(false);
        }
        assert(spec_store_after_insert(s1, key, dim, batch) =~= s1) by {
            assert(coll_of(s1, key).points == spec_upsert_batch(pts0, batch));
            assert(spec_upsert_batch(coll_of(s1, key).points, batch) == coll_of(
                s1,
                key,
            ).points);
        }
    } else {
        let n = s.len() as int;
        assert(s1[n].key == key);
        assert(has_coll(s1, key));
        let w1 = coll_idx(s1, key);
        assert(0 <= w1 < s1.len() && s1[w1].key == key);
        if w1 != n {
            assert(s1[w1] == s[w1]);
            assert(has_coll(s, key));
            assert(false);
        }
        crate::store::lemma_upsert_batch_idempotent(Seq::empty(), batch);
        assert(spec_store_after_insert(s1, key, dim, batch) =~= s1) by {
            assert(coll_of(s1, key).points == spec_upsert_batch(Seq::empty(), batch));
            assert(spec_upsert_batch(coll_of(s1, key).points, batch) == coll_of(
                s1,
                key,
            ).points);
        }
    }
}

impl VectorStore {
    /// Writes one repository's embedded files into its collection,
    /// creating the collection with the given dimension when it does
    /// not exist, and overwriting points by identifier when it does.
    ///
    /// Creating and writing are one unit: the call succeeds exactly
    /// when every embedding has the given dimension and no collection
    /// with a different dimension exists under the key; otherwise the
    /// call fails with `SchemaConflict` and the store is unchanged.
    #[verifier::loop_isolation(false)]
    pub fn insert_repo_embeddings(&mut self, repo: RepositoryEmbeddings, dim: usize) -> (r:
        Result<(), StorageError>)
        requires
            old(self).wf(),
        ensures
            final(self).wf(),
            ({
                let key = repo.repo_id@;
                let fes = repo.file_embeddings@.map_values(|fe: FileEmbeddings| fe@);
                if exists|i: int|
                    0 <= i < fes.len() && (#[trigger] fes[i]).embeddings.len() != dim {
                    &&& r == Result::<(), StorageError>::Err(StorageError::SchemaConflict)
                    &&& final(self)@ == old(self)@
                } else if has_coll(old(self)@, key) && coll_of(old(self)@, key).dim != dim {
                    &&& r == Result::<(), StorageError>::Err(StorageError::SchemaConflict)
                    &&& final(self)@ == old(self)@
                } else {
                    &&& r is Ok
                    &&& final(self)@ =~= spec_store_after_insert(
                        old(self)@,
                        key,
                        dim as nat,
                        spec_points_of(key, fes),
                    )
                }
            }),
    {
        let ghost fes = repo.file_embeddings@.map_values(|fe: FileEmbeddings| fe@);
        let nf = repo.file_embeddings.len();
        let mut i: usize = 0;
        while i < nf
            invariant
                0 <= i <= nf,
                nf == fes.len(),
                forall|k: int| 0 <= k < i ==> (#[trigger] fes[k]).embeddings.len() == dim,
            decreases nf - i,
        {
            proof {
                assert(fes[i as int] == repo.file_embeddings@[i as int]@);
            }
            if repo.file_embeddings[i].embeddings.len() != dim {
                return Err(StorageError::SchemaConflict);
            }
            i = i + 1;
        }
        let key = repo.repo_id;
        let ghost mid0 = self@;
        match self.ensure_collection(&key, dim) {
            Ok(()) => {},
            Err(e) => {
                return Err(e);
            },
        }
        let ghost mid = self@;
        proof {
            assert(has_coll(mid, key@)) by {
                if has_coll(mid0, key@) {
                    let w = coll_idx(mid0, key@);
                    assert(mid[w].key == key@);
                } else {
                    assert(mid[mid.len() - 1].key == key@);
                }
            }
            assert(coll_of(mid, key@).dim == dim) by {
                let w = coll_idx(mid, key@);
                assert(0 <= w < mid.len() && mid[w].key == key@);
                if has_coll(mid0, key@) {
                    let w0 = coll_idx(mid0, key@);
                    assert(mid0[w0].key == key@);
                    if w != w0 {
                        assert(false);
                    }
                } else {
                    if w != mid.len() - 1 {
                        assert(mid[w] == mid0[w]);
                        assert(has_coll(mid0, key@));
                        assert(false);
                    }
                }
            }
        }
        let mut points: Vec<IndexPoint> = Vec::new();
        let mut rest = repo.file_embeddings;
        let ghost done: int = 0;
        while rest.len() > 0
            invariant
                0 <= done <= fes.len(),
                rest@.map_values(|fe: FileEmbeddings| fe@) =~= fes.skip(done),
                points@.map_values(|p: IndexPoint| p@) =~= spec_points_of(key@, fes.take(done)),
                self@ == mid,
            decreases rest@.len(),
        {
            proof {
                assert(rest@.map_values(|fe: FileEmbeddings| fe@)[0] == rest@[0]@);
                assert(fes.skip(done)[0] == fes[done]);
            }
            let ghost prev = rest@;
            let fe = rest.remove(0);
            proof {
                assert(fe@ == fes[done]);
                let m = rest@.map_values(|q: FileEmbeddings| q@);
                assert forall|i2: int| 0 <= i2 < rest@.len() implies #[trigger] m[i2] == fes.skip(
                    done + 1,
                )[i2] by {
                    assert(rest@[i2] == prev[i2 + 1]);
                    assert(prev.map_values(|q: FileEmbeddings| q@)[i2 + 1] == prev[i2 + 1]@);
                    assert(fes.skip(done)[i2 + 1] == fes[done + 1 + i2]);
                    assert(fes.skip(done + 1)[i2] == fes[done + 1 + i2]);
                }
                assert(m =~= fes.skip(done + 1));
            }
            let ghost oldpts = points@;
            let p = IndexPoint::new(&key, fe.path, fe.content, fe.embeddings);
            points.push(p);
            proof {
                let pv = points@.map_values(|q: IndexPoint| q@);
                assert forall|k: int| 0 <= k < pv.len() implies #[trigger] pv[k] == spec_points_of(
                    key@,
                    fes.take(done + 1),
                )[k] by {
                    assert(pv[k] == points@[k]@);
                    assert(fes.take(done + 1)[k] == fes[k]);
                    if k < pv.len() - 1 {
                        assert(points@[k] == oldpts[k]);
                        assert(oldpts.map_values(|q: IndexPoint| q@)[k] == oldpts[k]@);
                        assert(fes.take(done)[k] == fes[k]);
                    }
                }
                assert(pv =~= spec_points_of(key@, fes.take(done + 1)));
                done = done + 1;
            }
        }
        proof {
            assert(fes.take(done) =~= fes);
            let pv = points@.map_values(|q: IndexPoint| q@);
            assert forall|k: int| 0 <= k < points@.len() implies (#[trigger] points@[k])@.id
                == spec_point_id(key@, points@[k]@.path) by {
                assert(pv[k] == points@[k]@);
                assert(pv[k] == spec_points_of(key@, fes)[k]);
                assert(spec_points_of(key@, fes)[k].id == spec_point_id(key@, fes[k].path));
                assert(spec_points_of(key@, fes)[k].path == fes[k].path);
            }
        }
        let r = self.upsert(&key, points);
        match r {
            Ok(()) => {
                proof {
                    let batch = spec_points_of(key@, fes);
                    if has_coll(mid0, key@) {
                        assert(mid == mid0);
                        assert(final(self)@ =~= spec_store_after_insert(
                            mid0,
                            key@,
                            dim as nat,
                            batch,
                        ));
                    } else {
                        let w = coll_idx(mid, key@);
                        assert(w == mid.len() - 1) by {
                            if w != mid.len() - 1 {
                                assert(mid[w] == mid0[w]);
                                assert(has_coll(mid0, key@));
                                assert(false);
                            }
                        }
                        assert(coll_of(mid, key@).points =~= Seq::<PointView>::empty());
                        assert(final(self)@ =~= spec_store_after_insert(
                            mid0,
                            key@,
                            dim as nat,
                            batch,
                        ));
                    }
                }
                Ok(())
            },
            Err(e) => {
                proof {
                    assert(false);
                }
                Err(e)
            },
        }
    }
}

/// Ingests one repository: decodes and embeds the fetched files and
/// writes the resulting points into the repository's collection.
///
/// The fetch outcome is handed in by the caller, who performed the
/// fetch; a fetch failure fails the whole call. Files that are not
/// text, and files whose embedding fails, are skipped and counted —
/// but if there were files to embed and not one embedded, the call
/// fails, since that is a failure of the model, not of the input.
/// Creating the collection and writing the points are one unit: on any
/// error the store is exactly as it was, and a `SchemaConflict` is
/// reported when the collection exists with a different dimension than
/// the one given.
pub fn ingest<M: EmbeddingsModel>(
    store: &mut VectorStore,
    repository: &Repository,
    fetched: Result<Vec<FetchedFile>, FetchFailure>,
    model: &M,
    dim: usize,
) -> (r: Result<IngestReport, IngestError>)
    requires
        old(store).wf(),
    ensures
        final(store).wf(),
        r is Err ==> final(store)@ == old(store)@,
        fetched matches Err(e) ==> r matches Err(IngestError::Fetch(f)) && f.message
            == e.message,
        fetched matches Ok(files) ==> ({
            let key = spec_key_of(repository@);
            let dec = spec_decoded(files@.map_values(|f: FetchedFile| f@));
            &&& (r matches Err(IngestError::Embed) ==> dec.len() > 0)
            &&& (r matches Err(IngestError::Storage(se)) ==> se == StorageError::SchemaConflict)
            &&& (has_coll(old(store)@, key) && coll_of(old(store)@, key).dim != dim ==> r is Err)
            &&& (dec.len() == 0 && (!has_coll(old(store)@, key) || coll_of(
                old(store)@,
                key,
            ).dim == dim) ==> r is Ok)
            &&& (r matches Ok(report) ==> {
                &&& report.fetched == files@.len()
                &&& report.skipped == files@.len() - dec.len()
                &&& report.embed_failed + report.upserted == dec.len()
                &&& (report.upserted > 0 || dec.len() == 0)
                &&& exists|fes: Seq<FileEmbeddingsView>|
                    {
                        &&& #[trigger] embeds_from(fes, dec)
                        &&& fes.len() == report.upserted
                        &&& forall|j: int|
                            0 <= j < fes.len() ==> (#[trigger] fes[j]).embeddings.len() == dim
                        &&& final(store)@ =~= spec_store_after_insert(
                            old(store)@,
                            key,
                            dim as nat,
                            spec_points_of(key, fes),
                        )
                    }
            })
        }),
{
    let files = match fetched {
        Ok(files) => files,
        Err(e) => {
            return Err(IngestError::Fetch(e));
        },
    };
    let ghost dec = spec_decoded(files@.map_values(|f: FetchedFile| f@));
    let ghost nfiles = files@.len();
    let (repo_embeddings, report) = embed_repo(repository, files, model);
    if embedding_collapsed(&report) {
        return Err(IngestError::Embed);
    }
    let ghost fes = repo_embeddings.file_embeddings@.map_values(|fe: FileEmbeddings| fe@);
    match store.insert_repo_embeddings(repo_embeddings, dim) {
        Ok(()) => {
            proof {
                assert(fes.len() == report.upserted);
                assert(!(exists|i: int|
                    0 <= i < fes.len() && (#[trigger] fes[i]).embeddings.len() != dim));
            }
            Ok(report)
        },
        Err(e) => Err(IngestError::Storage(e)),
    }
}

/// Answers one query: embeds the query text, searches the repository's
/// collection, and hydrates the hits into full file records, in
/// ranking order.
///
/// A repository that was never ingested yields an empty list, not an
/// error. The call fails only when the model cannot embed the query,
/// or with a schema conflict when the query embedding does not have
/// the collection's dimension.
pub fn retrieve<M: EmbeddingsModel>(
    store: &VectorStore,
    query: &Query,
    limit: u64,
    model: &M,
) -> (r: Result<Vec<File>, RetrievalError>)
    requires
        store.wf(),
    ensures
        ({
            let key = spec_key_of(query.repository@);
            &&& (!has_coll(store@, key) ==> ((r matches Ok(files) && files@.len() == 0) || r
                matches Err(RetrievalError::Embed(_))))
            &&& (r matches Err(RetrievalError::Storage(se)) ==> se == StorageError::SchemaConflict
                && has_coll(store@, key))
            &&& (r matches Ok(files) ==> (has_coll(store@, key) ==> exists|qv: Seq<i32>|
                {
                    let pts = coll_of(store@, key).points;
                    &&& (#[trigger] qv.len()) == coll_of(store@, key).dim
                    &&& files@.map_values(|f: File| f@) == crate::store::spec_hydrated(
                        pts,
                        crate::store::spec_search_hits(pts, qv, limit as nat),
                    )
                }))
        }),
{
    let query_embeddings = match model.embed(query.query.as_str()) {
        Ok(qv) => qv,
        Err(e) => {
            return Err(RetrievalError::Embed(e));
        },
    };
    match store.get_relevant_files(&query.repository, &query_embeddings, limit) {
        Ok(files) => {
            proof {
                let key = spec_key_of(query.repository@);
                if has_coll(store@, key) {
                    assert(coll_of(store@, key).dim == query_embeddings@.len());
                }
            }
            Ok(files)
        },
        Err(e) => Err(RetrievalError::Storage(e)),
    }
}

} // verus!
