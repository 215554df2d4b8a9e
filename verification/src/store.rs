//! The vector store: per-repository collections of indexed points.
//!
//! One collection holds the points of one repository, under the key that
//! [`crate::repo::key_of`] derives from the repository's identity. A
//! point's identifier is derived from the collection key and the file
//! path, so storing a point for a path that is already indexed overwrites
//! the old point instead of adding a duplicate: ingestion is idempotent
//! by path.

use crate::repo::{byte_len, key_of, spec_key_of, File, FileView, Repository};
use crate::score::{
    dot, insert_ranked, lemma_insert_ranked_at, lemma_ranking_prefix_is_ranking,
    lemma_spec_ranking_is_ranking, ranking_prefix, spec_dot, spec_ranking, Embeddings, Ranked,
};
use vstd::prelude::*;
use vstd::string::StringExecFns;

verus! {

/// How a vector store call can fail.
///
/// `Unavailable` and `Unauthorized` describe transport faults of a remote
/// store; the in-memory store never produces them, but adapters that
/// mirror these operations onto a remote store report their faults
/// through the same type.
#[derive(Clone, Copy, Debug, PartialEq, Eq, Structural)]
pub enum StorageError {
    /// The collection addressed by the key does not exist.
    NotFound,
    /// The collection exists with a different vector dimension.
    SchemaConflict,
    /// The store cannot be reached.
    Unavailable,
    /// The store refused the caller's credentials.
    Unauthorized,
}

/// One stored point: a file path, the file's content, the file's
/// embedding vector, and an identifier derived from the collection key
/// and the path.
#[derive(Debug)]
pub struct IndexPoint {
    pub id: String,
    pub path: String,
    pub content: String,
    pub vector: Vec<i32>,
}

/// The mathematical value of an [`IndexPoint`].
pub struct PointView {
    pub id: Seq<char>,
    pub path: Seq<char>,
    pub content: Seq<char>,
    pub vector: Seq<i32>,
}

impl View for IndexPoint {
    type V = PointView;

    open spec fn view(&self) -> PointView {
        PointView { id: self.id@, path: self.path@, content: self.content@, vector: self.vector@ }
    }
}

/// The identifier of the point that indexes `path` in the collection
/// named `key`. For a fixed key this is injective in the path, which
/// makes overwriting by identifier the same as overwriting by path.
pub open spec fn spec_point_id(key: Seq<char>, path: Seq<char>) -> Seq<char> {
    key + seq!['/'] + path
}

/// Derives the identifier of the point that indexes `path` in the
/// collection named `key`.
pub fn point_id_of(key: &String, path: &String) -> (id: String)
    ensures
        id@ == spec_point_id(key@, path@),
{
    proof {
        reveal_strlit("/");
    }
    let id = key.clone().concat("/").concat(path.as_str());
    assert(id@ =~= spec_point_id(key@, path@));
    id
}

/// For a fixed collection key, two point identifiers are equal exactly
/// when their paths are.
pub proof fn lemma_point_id_injective(key: Seq<char>, pa: Seq<char>, pb: Seq<char>)
    ensures
        (spec_point_id(key, pa) == spec_point_id(key, pb)) <==> (pa == pb),
{
    if spec_point_id(key, pa) == spec_point_id(key, pb) {
        let a = spec_point_id(key, pa);
        let b = spec_point_id(key, pb);
        assert(pa =~= pb) by {
            assert(a.len() == key.len() + 1 + pa.len());
            assert(b.len() == key.len() + 1 + pb.len());
            assert forall|i: int| 0 <= i < pa.len() implies pa[i] == pb[i] by {
                assert(a[key.len() + 1 + i] == pa[i]);
                assert(b[key.len() + 1 + i] == pb[i]);
            }
        }
    }
}

impl IndexPoint {
    /// Builds the point that indexes `path` in the collection named
    /// `key`, with the given content and embedding vector. The
    /// identifier is derived, never random: re-building the point for
    /// the same key and path always yields the same identifier.
    pub fn new(key: &String, path: String, content: String, vector: Vec<i32>) -> (p: IndexPoint)
        ensures
            p@.id == spec_point_id(key@, path@),
            p@.path == path@,
            p@.content == content@,
            p@.vector == vector@,
    {
        let id = point_id_of(key, &path);
        IndexPoint { id, path, content, vector }
    }
}

/// A hit of a similarity search: the path stored in the matching point's
/// payload and the point's similarity score against the query vector.
#[derive(Debug)]
pub struct RetrievalHit {
    pub path: String,
    pub score: i128,
}

/// The mathematical value of a [`RetrievalHit`].
pub struct HitView {
    pub path: Seq<char>,
    pub score: int,
}

impl View for RetrievalHit {
    type V = HitView;

    open spec fn view(&self) -> HitView {
        HitView { path: self.path@, score: self.score as int }
    }
}

/// One collection of the store. Values of this type live only inside a
/// [`VectorStore`]; the store's operations maintain their invariants.
pub struct Collection {
    pub key: String,
    pub dim: usize,
    pub points: Vec<IndexPoint>,
}

/// The mathematical value of a collection: its key, its configured
/// vector dimension, and its points in insertion order.
pub struct CollView {
    pub key: Seq<char>,
    pub dim: nat,
    pub points: Seq<PointView>,
}

impl View for Collection {
    type V = CollView;

    open spec fn view(&self) -> CollView {
        CollView {
            key: self.key@,
            dim: self.dim as nat,
            points: self.points@.map_values(|p: IndexPoint| p@),
        }
    }
}

/// A well-formed collection: every point's vector has the collection's
/// dimension, every point's identifier is derived from the collection
/// key and the point's path, and no two points index the same path.
pub open spec fn coll_wf(c: CollView) -> bool {
    &&& forall|i: int|
        0 <= i < c.points.len() ==> (#[trigger] c.points[i]).vector.len() == c.dim
    &&& forall|i: int|
        0 <= i < c.points.len() ==> (#[trigger] c.points[i]).id == spec_point_id(
            c.key,
            c.points[i].path,
        )
    &&& forall|i: int, j: int|
        0 <= i < j < c.points.len() ==> c.points[i].path != c.points[j].path
}

/// No two points share an identifier.
pub open spec fn distinct_ids(pts: Seq<PointView>) -> bool {
    forall|i: int, j: int| 0 <= i < j < pts.len() ==> pts[i].id != pts[j].id
}

/// Some point holds the given identifier.
pub open spec fn has_point(pts: Seq<PointView>, id: Seq<char>) -> bool {
    exists|j: int| 0 <= j < pts.len() && (#[trigger] pts[j]).id == id
}

/// The position of the point with the given identifier.
pub open spec fn point_pos(pts: Seq<PointView>, id: Seq<char>) -> int {
    choose|j: int| 0 <= j < pts.len() && (#[trigger] pts[j]).id == id
}

/// The point that holds the given identifier.
pub open spec fn entry_of(pts: Seq<PointView>, id: Seq<char>) -> PointView {
    pts[point_pos(pts, id)]
}

/// Upserting one point: the entry with the same identifier is
/// overwritten in place; when there is none, the point is appended.
pub open spec fn spec_upsert_one(pts: Seq<PointView>, p: PointView) -> Seq<PointView> {
    if has_point(pts, p.id) {
        pts.update(point_pos(pts, p.id), p)
    } else {
        pts.push(p)
    }
}

/// Upserting a batch of points, one after the other, first point first.
pub open spec fn spec_upsert_batch(pts: Seq<PointView>, batch: Seq<PointView>) -> Seq<PointView>
    decreases batch.len(),
{
    if batch.len() == 0 {
        pts
    } else {
        spec_upsert_one(spec_upsert_batch(pts, batch.drop_last()), batch.last())
    }
}

/// Upserting keeps point identifiers distinct.
proof fn lemma_upsert_one_distinct(pts: Seq<PointView>, p: PointView)
    requires
        distinct_ids(pts),
    ensures
        distinct_ids(spec_upsert_one(pts, p)),
{
    let u = spec_upsert_one(pts, p);
    if has_point(pts, p.id) {
        let w = point_pos(pts, p.id);
        assert(pts[w].id == p.id);
        assert forall|i: int, j: int| 0 <= i < j < u.len() implies u[i].id != u[j].id by {
            assert(u[i].id == pts[i].id);
            assert(u[j].id == pts[j].id);
        }
    } else {
        assert forall|i: int, j: int| 0 <= i < j < u.len() implies u[i].id != u[j].id by {
            if j == u.len() - 1 {
                assert(u[i] == pts[i]);
                assert(!(exists|k: int| 0 <= k < pts.len() && (#[trigger] pts[k]).id == p.id));
            }
        }
    }
}

/// After an upsert the upserted point is present, under its identifier,
/// with exactly the upserted value.
proof fn lemma_upsert_one_present(pts: Seq<PointView>, p: PointView)
    requires
        distinct_ids(pts),
    ensures
        has_point(spec_upsert_one(pts, p), p.id),
        entry_of(spec_upsert_one(pts, p), p.id) == p,
{
    let u = spec_upsert_one(pts, p);
    lemma_upsert_one_distinct(pts, p);
    if has_point(pts, p.id) {
        let w = point_pos(pts, p.id);
        assert(u[w] == p);
        assert(has_point(u, p.id));
        let w2 = point_pos(u, p.id);
        if w2 != w {
            assert(u[w2].id == p.id && u[w].id == p.id);
            assert(false);
        }
    } else {
        assert(u[u.len() - 1] == p);
        assert(has_point(u, p.id));
        let w2 = point_pos(u, p.id);
        if w2 != u.len() - 1 {
            assert(u[w2] == pts[w2]);
            assert(has_point(pts, p.id));
            assert(false);
        }
    }
}

/// Upserting a point with a different identifier does not disturb the
/// entry stored under `id`.
proof fn lemma_upsert_one_frame(pts: Seq<PointView>, p: PointView, id: Seq<char>)
    requires
        distinct_ids(pts),
        has_point(pts, id),
        p.id != id,
    ensures
        has_point(spec_upsert_one(pts, p), id),
        entry_of(spec_upsert_one(pts, p), id) == entry_of(pts, id),
{
    let u = spec_upsert_one(pts, p);
    lemma_upsert_one_distinct(pts, p);
    let w = point_pos(pts, id);
    assert(pts[w].id == id);
    if has_point(pts, p.id) {
        let wp = point_pos(pts, p.id);
        assert(pts[wp].id == p.id);
        assert(wp != w);
        assert(u[w] == pts[w]);
    } else {
        assert(u[w] == pts[w]);
    }
    assert(has_point(u, id));
    let w2 = point_pos(u, id);
    if w2 != w {
        assert(u[w2].id == id && u[w].id == id);
        assert(false);
    }
}

/// Upserting a batch whose identifiers avoid `id` does not disturb the
/// entry stored under `id`, and keeps identifiers distinct.
proof fn lemma_upsert_batch_frame(pts: Seq<PointView>, batch: Seq<PointView>, id: Seq<char>)
    requires
        distinct_ids(pts),
        has_point(pts, id),
        forall|k: int| 0 <= k < batch.len() ==> (#[trigger] batch[k]).id != id,
    ensures
        distinct_ids(spec_upsert_batch(pts, batch)),
        has_point(spec_upsert_batch(pts, batch), id),
        entry_of(spec_upsert_batch(pts, batch), id) == entry_of(pts, id),
    decreases batch.len(),
{
    if batch.len() == 0 {
    } else {
        lemma_upsert_batch_frame(pts, batch.drop_last(), id);
        let mid = spec_upsert_batch(pts, batch.drop_last());
        lemma_upsert_one_frame(mid, batch.last(), id);
        lemma_upsert_one_distinct(mid, batch.last());
    }
}

/// Upserting a point that is already stored unchanged changes nothing.
proof fn lemma_upsert_one_same(pts: Seq<PointView>, p: PointView)
    requires
        distinct_ids(pts),
        has_point(pts, p.id),
        entry_of(pts, p.id) == p,
    ensures
        spec_upsert_one(pts, p) == pts,
{
    let w = point_pos(pts, p.id);
    assert(pts[w] == p);
    assert(spec_upsert_one(pts, p) =~= pts);
}

/// A batch can be peeled from the front: upserting the whole batch is
/// upserting its first point, then the rest.
proof fn lemma_upsert_batch_front(pts: Seq<PointView>, batch: Seq<PointView>)
    requires
        batch.len() > 0,
    ensures
        spec_upsert_batch(pts, batch) == spec_upsert_batch(
            spec_upsert_one(pts, batch[0]),
            batch.drop_first(),
        ),
    decreases batch.len(),
{
    if batch.len() == 1 {
        assert(batch.drop_last().len() == 0);
        assert(batch.last() == batch[0]);
        assert(batch.drop_first().len() == 0);
        assert(spec_upsert_batch(pts, batch.drop_last()) == pts);
        assert(spec_upsert_batch(pts, batch) == spec_upsert_one(pts, batch[0]));
        assert(spec_upsert_batch(spec_upsert_one(pts, batch[0]), batch.drop_first())
            == spec_upsert_one(pts, batch[0]));
    } else {
        let head = batch.drop_last();
        let p2 = spec_upsert_one(pts, batch[0]);
        lemma_upsert_batch_front(pts, head);
        assert(head[0] == batch[0]);
        assert(spec_upsert_batch(pts, head) == spec_upsert_batch(p2, head.drop_first()));
        assert(spec_upsert_batch(pts, batch) == spec_upsert_one(
            spec_upsert_batch(pts, head),
            batch.last(),
        ));
        assert(head.drop_first() =~= batch.drop_first().drop_last());
        assert(batch.drop_first().last() == batch.last());
        assert(batch.drop_first().len() > 0);
        assert(spec_upsert_batch(p2, batch.drop_first()) == spec_upsert_one(
            spec_upsert_batch(p2, batch.drop_first().drop_last()),
            batch.drop_first().last(),
        ));
    }
}

/// Re-applying an unchanged batch of points changes nothing: the points
/// of a collection after upserting the same batch twice are exactly the
/// points after upserting it once. In particular, re-ingesting an
/// unchanged repository neither grows the indexed point count nor
/// changes any stored point or identifier.
///
/// The two distinctness premises hold wherever the store is involved:
/// a well-formed collection has distinct identifiers, and a batch built
/// from one file per path has too.
pub proof fn lemma_upsert_batch_idempotent(pts: Seq<PointView>, batch: Seq<PointView>)
    requires
        distinct_ids(pts),
        distinct_ids(batch),
    ensures
        spec_upsert_batch(spec_upsert_batch(pts, batch), batch) == spec_upsert_batch(pts, batch),
    decreases batch.len(),
{
    if batch.len() == 0 {
    } else {
        let x = batch[0];
        let rest = batch.drop_first();
        let p2 = spec_upsert_one(pts, x);
        let s1 = spec_upsert_batch(pts, batch);
        lemma_upsert_batch_front(pts, batch);
        assert(s1 == spec_upsert_batch(p2, rest));
        lemma_upsert_one_distinct(pts, x);
        lemma_upsert_one_present(pts, x);
        assert(forall|k: int| 0 <= k < rest.len() ==> (#[trigger] rest[k]).id == batch[k + 1].id);
        assert forall|k: int| 0 <= k < rest.len() implies (#[trigger] rest[k]).id != x.id by {
            assert(batch[0].id != batch[k + 1].id);
        }
        lemma_upsert_batch_frame(p2, rest, x.id);
        assert(distinct_ids(s1));
        assert(entry_of(s1, x.id) == x);
        lemma_upsert_batch_front(s1, batch);
        lemma_upsert_one_same(s1, x);
        assert(spec_upsert_batch(s1, batch) == spec_upsert_batch(s1, rest));
        assert(distinct_ids(rest)) by {
            assert forall|i: int, j: int| 0 <= i < j < rest.len() implies rest[i].id
                != rest[j].id by {
                assert(rest[i] == batch[i + 1]);
                assert(rest[j] == batch[j + 1]);
            }
        }
        lemma_upsert_batch_idempotent(p2, rest);
    }
}

/// In a well-formed collection the point identifiers are distinct,
/// because the paths are and the identifier is injective in the path.
pub proof fn lemma_coll_distinct_ids(c: CollView)
    requires
        coll_wf(c),
    ensures
        distinct_ids(c.points),
{
    assert forall|i: int, j: int| 0 <= i < j < c.points.len() implies c.points[i].id
        != c.points[j].id by {
        lemma_point_id_injective(c.key, c.points[i].path, c.points[j].path);
    }
}

/// An in-memory vector store: a set of collections with distinct keys.
///
/// The store realizes the same operations an external vector database
/// offers — create a collection, upsert points, search by similarity,
/// enumerate paths — as pure state transitions, so every property of the
/// pipelines can be stated and checked against it.
pub struct VectorStore {
    collections: Vec<Collection>,
}

impl View for VectorStore {
    type V = Seq<CollView>;

    closed spec fn view(&self) -> Seq<CollView> {
        self.collections@.map_values(|c: Collection| c@)
    }
}

/// The store holds a collection under this key.
pub open spec fn has_coll(s: Seq<CollView>, key: Seq<char>) -> bool {
    exists|i: int| 0 <= i < s.len() && (#[trigger] s[i]).key == key
}

/// The index of the collection with the given key.
pub open spec fn coll_idx(s: Seq<CollView>, key: Seq<char>) -> int {
    choose|i: int| 0 <= i < s.len() && (#[trigger] s[i]).key == key
}

/// The collection with the given key.
pub open spec fn coll_of(s: Seq<CollView>, key: Seq<char>) -> CollView {
    s[coll_idx(s, key)]
}

impl VectorStore {
    /// A well-formed store: collection keys are distinct and every
    /// collection is well-formed.
    pub open spec fn wf(&self) -> bool {
        &&& forall|i: int, j: int| 0 <= i < j < self@.len() ==> self@[i].key != self@[j].key
        &&& forall|i: int| 0 <= i < self@.len() ==> coll_wf(#[trigger] self@[i])
    }

    /// Creates an empty store.
    pub fn new() -> (s: VectorStore)
        ensures
            s.wf(),
            s@ =~= Seq::<CollView>::empty(),
    {
        VectorStore { collections: Vec::new() }
    }

    /// Finds the position of the collection with the given key.
    fn find_collection(&self, key: &String) -> (r: Option<usize>)
        requires
            self.wf(),
        ensures
            r matches Some(i) ==> 0 <= i < self@.len() && self@[i as int].key == key@
                && coll_idx(self@, key@) == i,
            r is None ==> !has_coll(self@, key@),
    {
        let n = self.collections.len();
        let mut i: usize = 0;
        while i < n
            invariant
                self.wf(),
                n == self@.len(),
                0 <= i <= n,
                forall|j: int| 0 <= j < i ==> (#[trigger] self@[j]).key != key@,
            decreases n - i,
        {
            if self.collections[i].key.eq(key) {
                proof {
                    let w = coll_idx(self@, key@);
                    assert(self@[i as int].key == key@);
                    assert(0 <= w < self@.len() && self@[w].key == key@);
                    if w != i {
                        assert(false);
                    }
                }
                return Some(i);
            }
            i = i + 1;
        }
        None
    }

    /// Whether the store holds a collection for this key.
    pub fn has_collection(&self, key: &String) -> (r: bool)
        requires
            self.wf(),
        ensures
            r == has_coll(self@, key@),
    {
        self.find_collection(key).is_some()
    }

    /// Creates the collection for `key` with the given vector dimension,
    /// or checks it: the call succeeds whether or not the collection
    /// already exists, as long as an existing collection was created
    /// with the same dimension, and fails with `SchemaConflict` when it
    /// was not. The store is unchanged except that a missing collection
    /// is created empty.
    ///
    /// The distance metric is not per-collection: every collection
    /// ranks by the one integer dot product of this store, which
    /// stands for cosine similarity on unit-scaled vectors, so only
    /// the dimension is part of a collection's schema.
    pub fn ensure_collection(&mut self, key: &String, dim: usize) -> (r: Result<
        (),
        StorageError,
    >)
        requires
            old(self).wf(),
        ensures
            final(self).wf(),
            ({
                if !has_coll(old(self)@, key@) {
                    &&& r is Ok
                    &&& final(self)@ =~= old(self)@.push(
                        CollView { key: key@, dim: dim as nat, points: Seq::empty() },
                    )
                } else if coll_of(old(self)@, key@).dim == dim {
                    &&& r is Ok
                    &&& final(self)@ == old(self)@
                } else {
                    &&& r == Result::<(), StorageError>::Err(StorageError::SchemaConflict)
                    &&& final(self)@ == old(self)@
                }
            }),
    {
        match self.find_collection(key) {
            Some(i) => {
                if self.collections[i].dim == dim {
                    Ok(())
                } else {
                    Err(StorageError::SchemaConflict)
                }
            },
            None => {
                let c = Collection { key: key.clone(), dim, points: Vec::new() };
                proof {
                    assert(c@.points =~= Seq::<PointView>::empty());
                }
                self.collections.push(c);
                proof {
                    assert(final(self)@ =~= old(self)@.push(
                        CollView { key: key@, dim: dim as nat, points: Seq::empty() },
                    ));
                }
                Ok(())
            },
        }
    }

    /// Applies one point to the collection at position `ci`.
    fn upsert_point(&mut self, ci: usize, p: IndexPoint)
        requires
            old(self).wf(),
            ci < old(self)@.len(),
            p@.id == spec_point_id(old(self)@[ci as int].key, p@.path),
            p@.vector.len() == old(self)@[ci as int].dim,
        ensures
            final(self).wf(),
            final(self)@ =~= old(self)@.update(
                ci as int,
                CollView {
                    key: old(self)@[ci as int].key,
                    dim: old(self)@[ci as int].dim,
                    points: spec_upsert_one(old(self)@[ci as int].points, p@),
                },
            ),
    {
        let ghost old_coll = old(self)@[ci as int];
        let ghost pts = old_coll.points;
        proof {
            lemma_coll_distinct_ids(old_coll);
        }
        let mut c = self.collections.remove(ci);
        assert(c@ == old_coll);
        proof {
            assert(pts =~= c.points@.map_values(|q: IndexPoint| q@));
            assert(forall|k: int|
                0 <= k < c.points@.len() ==> pts[k] == (#[trigger] c.points@[k])@);
        }
        let found = find_path(&c.points, &p.path);
        proof {
            coll_wf_unfold(old_coll);
        }
        match found {
            Some(f) => {
                proof {
                    assert(pts[f as int].path == p@.path);
                    assert(pts[f as int].id == spec_point_id(old_coll.key, pts[f as int].path));
                    assert(pts[f as int].id == p@.id);
                    assert(has_point(pts, p@.id));
                    let w = point_pos(pts, p@.id);
                    assert(pts[w].id == p@.id);
                    if w != f {
                        lemma_point_id_injective(old_coll.key, pts[w].path, pts[f as int].path);
                        assert(pts[w].path == pts[f as int].path);
                        assert(false);
                    }
                }
                c.points[f] = p;
                proof {
                    assert(c@.points =~= spec_upsert_one(pts, p@));
                }
            },
            None => {
                proof {
                    assert forall|k: int| 0 <= k < pts.len() implies (#[trigger] pts[k]).id
                        != p@.id by {
                        assert(pts[k].path != p@.path);
                        lemma_point_id_injective(old_coll.key, pts[k].path, p@.path);
                    }
                    assert(!has_point(pts, p@.id));
                }
                c.points.push(p);
                proof {
                    assert(c@.points =~= spec_upsert_one(pts, p@));
                }
            },
        }
        proof {
            let newpts = spec_upsert_one(pts, p@);
            assert(coll_wf(CollView { key: old_coll.key, dim: old_coll.dim, points: newpts }))
                by {
                if has_point(pts, p@.id) {
                    let w = point_pos(pts, p@.id);
                    lemma_point_id_injective(old_coll.key, pts[w].path, p@.path);
                    assert(forall|i: int|
                        0 <= i < newpts.len() ==> #[trigger] newpts[i] == if i == w {
                            p@
                        } else {
                            pts[i]
                        });
                } else {
                    assert forall|i: int, j2: int|
                        0 <= i < j2 < newpts.len() implies newpts[i].path != newpts[j2].path by {
                        if j2 == newpts.len() - 1 {
                            lemma_point_id_injective(old_coll.key, pts[i].path, p@.path);
                        }
                    }
                }
            }
        }
        self.collections.insert(ci, c);
        proof {
            assert(final(self)@ =~= old(self)@.update(
                ci as int,
                CollView {
                    key: old_coll.key,
                    dim: old_coll.dim,
                    points: spec_upsert_one(pts, p@),
                },
            ));
        }
    }

    /// Stores a batch of points in the collection for `key`, overwriting
    /// by point identifier.
    ///
    /// The batch is atomic: either every point is applied, or the store
    /// is unchanged and the error says why — `NotFound` when no
    /// collection exists for the key, `SchemaConflict` when some point's
    /// vector does not have the collection's dimension. Every caller
    /// derives point identifiers from the collection key and the path,
    /// which [`IndexPoint::new`] does.
    #[verifier::loop_isolation(false)]
    pub fn upsert(&mut self, key: &String, points: Vec<IndexPoint>) -> (r: Result<
        (),
        StorageError,
    >)
        requires
            old(self).wf(),
            forall|i: int|
                0 <= i < points@.len() ==> (#[trigger] points@[i])@.id == spec_point_id(
                    key@,
                    points@[i]@.path,
                ),
        ensures
            final(self).wf(),
            ({
                let b = points@.map_values(|p: IndexPoint| p@);
                if !has_coll(old(self)@, key@) {
                    &&& r == Result::<(), StorageError>::Err(StorageError::NotFound)
                    &&& final(self)@ == old(self)@
                } else if exists|i: int|
                    0 <= i < b.len() && (#[trigger] b[i]).vector.len() != coll_of(
                        old(self)@,
                        key@,
                    ).dim {
                    &&& r == Result::<(), StorageError>::Err(StorageError::SchemaConflict)
                    &&& final(self)@ == old(self)@
                } else {
                    &&& r is Ok
                    &&& final(self)@ =~= old(self)@.update(
                        coll_idx(old(self)@, key@),
                        CollView {
                            key: key@,
                            dim: coll_of(old(self)@, key@).dim,
                            points: spec_upsert_batch(coll_of(old(self)@, key@).points, b),
                        },
                    )
                }
            }),
    {
        let ghost b = points@.map_values(|p: IndexPoint| p@);
        let ci = match self.find_collection(key) {
            Some(ci) => ci,
            None => {
                return Err(StorageError::NotFound);
            },
        };
        let dim = self.collections[ci].dim;
        assert(dim == coll_of(self@, key@).dim);
        let n = points.len();
        let mut i: usize = 0;
        while i < n
            invariant
                n == b.len(),
                0 <= i <= n,
                points@.map_values(|p: IndexPoint| p@) == b,
                forall|k: int| 0 <= k < i ==> (#[trigger] b[k]).vector.len() == dim,
            decreases n - i,
        {
            if points[i].vector.len() != dim {
                assert(b[i as int].vector.len() != dim);
                return Err(StorageError::SchemaConflict);
            }
            i = i + 1;
        }
        let ghost orig = self@;
        let ghost pts0 = coll_of(orig, key@).points;
        let mut rest = points;
        let ghost done: int = 0;
        while rest.len() > 0
            invariant
                self.wf(),
                0 <= done <= b.len(),
                rest@.map_values(|p: IndexPoint| p@) =~= b.skip(done),
                ci < self@.len(),
                self@ =~= orig.update(
                    ci as int,
                    CollView {
                        key: key@,
                        dim: dim as nat,
                        points: spec_upsert_batch(pts0, b.take(done)),
                    },
                ),
                coll_idx(orig, key@) == ci,
                forall|k: int|
                    0 <= k < b.len() ==> (#[trigger] b[k]).id == spec_point_id(key@, b[k].path),
                forall|k: int| 0 <= k < b.len() ==> (#[trigger] b[k]).vector.len() == dim,
            decreases rest@.len(),
        {
            proof {
                assert(rest@.map_values(|q: IndexPoint| q@).len() == rest@.len());
                assert(0 <= done < b.len());
                assert(rest@.map_values(|q: IndexPoint| q@)[0] == rest@[0]@);
                assert(b.skip(done)[0] == b[done]);
                assert(rest@[0]@ == b[done]);
            }
            let ghost prev = rest@;
            let p = rest.remove(0);
            proof {
                assert(p@ == b[done]);
                let m = rest@.map_values(|q: IndexPoint| q@);
                assert forall|i2: int| 0 <= i2 < rest@.len() implies #[trigger] m[i2] == b.skip(
                    done + 1,
                )[i2] by {
                    assert(rest@[i2] == prev[i2 + 1]);
                    assert(prev.map_values(|q: IndexPoint| q@)[i2 + 1] == prev[i2 + 1]@);
                    assert(b.skip(done)[i2 + 1] == b[done + 1 + i2]);
                    assert(b.skip(done + 1)[i2] == b[done + 1 + i2]);
                }
                assert(rest@.map_values(|q: IndexPoint| q@) =~= b.skip(done + 1));
                assert(b.take(done + 1).drop_last() =~= b.take(done));
                assert(b.take(done + 1).last() == b[done]);
            }
            self.upsert_point(ci, p);
            proof {
                done = done + 1;
                assert(self@ =~= orig.update(
                    ci as int,
                    CollView {
                        key: key@,
                        dim: dim as nat,
                        points: spec_upsert_batch(pts0, b.take(done)),
                    },
                ));
            }
        }
        proof {
            assert(b.take(done) =~= b);
        }
        Ok(())
    }

    /// Searches the collection for `key` for the points most similar to
    /// the query vector.
    ///
    /// Succeeds exactly when the collection exists and the query vector
    /// has its dimension; it then returns the first `limit` points in
    /// descending score order, ties broken by insertion order, each as a
    /// path and score. A `limit` of zero returns no hits and is not an
    /// error. Fails with `NotFound` when no collection exists for the
    /// key, and with `SchemaConflict` when the query vector's length is
    /// not the collection's dimension.
    #[verifier::loop_isolation(false)]
    pub fn search(&self, key: &String, query: &Vec<i32>, limit: u64) -> (r: Result<
        Vec<RetrievalHit>,
        StorageError,
    >)
        requires
            self.wf(),
        ensures
            ({
                if !has_coll(self@, key@) {
                    r == Result::<Vec<RetrievalHit>, StorageError>::Err(StorageError::NotFound)
                } else if coll_of(self@, key@).dim != query@.len() {
                    r == Result::<Vec<RetrievalHit>, StorageError>::Err(
                        StorageError::SchemaConflict,
                    )
                } else {
                    r matches Ok(hits) && hits@.map_values(|h: RetrievalHit| h@)
                        =~= spec_search_hits(coll_of(self@, key@).points, query@, limit as nat)
                }
            }),
    {
        let ci = match self.find_collection(key) {
            Some(ci) => ci,
            None => {
                return Err(StorageError::NotFound);
            },
        };
        let c = &self.collections[ci];
        let ghost cv = self@[ci as int];
        proof {
            assert(c@ == cv);
            assert(forall|k: int|
                0 <= k < c.points@.len() ==> cv.points[k] == (#[trigger] c.points@[k])@);
            coll_wf_unfold(cv);
        }
        let n = c.points.len();
        if query.len() != c.dim {
            return Err(StorageError::SchemaConflict);
        }
        let ghost scores = spec_scores(cv.points, query@);
        proof {
            assert(scores.len() == n);
            assert(forall|k: int|
                0 <= k < n ==> scores[k] == spec_dot((#[trigger] cv.points[k]).vector, query@));
        }
        let mut order: Vec<(i128, usize)> = Vec::new();
        let mut i: usize = 0;
        while i < n
            invariant
                0 <= i <= n,
                order@.map_values(|p: (i128, usize)| (p.0 as int, p.1 as int)) =~= ranking_prefix(
                    scores,
                    i as nat,
                ),
            decreases n - i,
        {
            let ghost ov = order@.map_values(|p: (i128, usize)| (p.0 as int, p.1 as int));
            proof {
                lemma_ranking_prefix_is_ranking(scores, i as nat);
                assert(ov.len() == order@.len());
            }
            let s = dot(&c.points[i].vector, query);
            let ghost x: Ranked = (s as int, i as int);
            let mut j: usize = 0;
            while j < order.len() && order[j].0 >= s
                invariant
                    0 <= j <= order.len(),
                    forall|k: int| 0 <= k < j ==> (#[trigger] order@[k]).0 >= s,
                decreases order.len() - j,
            {
                j = j + 1;
            }
            proof {
                assert(x.0 == scores[i as int]);
                assert forall|k: int| 0 <= k < j implies !crate::score::ranks_before(
                    x,
                    #[trigger] ov[k],
                ) by {
                    assert(ov[k] == (order@[k].0 as int, order@[k].1 as int));
                    assert(order@[k].0 >= s);
                    assert(ov[k].1 < i);
                }
                if j < order.len() {
                    assert(ov[j as int] == (order@[j as int].0 as int,
                    order@[j as int].1 as int));
                    assert(crate::score::ranks_before(x, ov[j as int]));
                }
                lemma_insert_ranked_at(ov, x, j as int);
            }
            let ghost pre = order@;
            order.insert(j, (s, i));
            proof {
                let m = order@.map_values(|p: (i128, usize)| (p.0 as int, p.1 as int));
                assert(order@ =~= pre.insert(j as int, (s, i)));
                assert forall|k: int| 0 <= k < m.len() implies #[trigger] m[k] == insert_ranked(
                    ov,
                    x,
                )[k] by {
                    assert(m[k] == (order@[k].0 as int, order@[k].1 as int));
                    if k < j {
                        assert(order@[k] == pre[k]);
                        assert(insert_ranked(ov, x)[k] == ov[k]);
                        assert(ov[k] == (pre[k].0 as int, pre[k].1 as int));
                    } else if k == j {
                        assert(order@[k] == (s, i));
                        assert(insert_ranked(ov, x)[k] == x);
                    } else {
                        assert(order@[k] == pre[k - 1]);
                        assert(insert_ranked(ov, x)[k] == ov.skip(j as int)[k - j - 1]);
                        assert(ov.skip(j as int)[k - j - 1] == ov[k - 1]);
                        assert(ov[k - 1] == (pre[k - 1].0 as int, pre[k - 1].1 as int));
                    }
                }
                assert(m =~= insert_ranked(ov, x));
                assert(ranking_prefix(scores, (i + 1) as nat) == insert_ranked(
                    ranking_prefix(scores, i as nat),
                    (scores[i as int], i as int),
                ));
            }
            i = i + 1;
        }
        let ghost rk = spec_ranking(scores);
        proof {
            assert(order@.map_values(|p: (i128, usize)| (p.0 as int, p.1 as int)) =~= rk);
            lemma_spec_ranking_is_ranking(scores);
        }
        let lim: usize = if limit >= (n as u64) {
            n
        } else {
            limit as usize
        };
        proof {
            assert(lim as nat == spec_limit(limit as nat, cv.points.len()));
        }
        let mut hits: Vec<RetrievalHit> = Vec::new();
        let mut j: usize = 0;
        while j < lim
            invariant
                0 <= j <= lim,
                hits@.len() == j,
                forall|k: int|
                    0 <= k < j ==> (#[trigger] hits@[k])@ == spec_search_hits(
                        cv.points,
                        query@,
                        limit as nat,
                    )[k],
            decreases lim - j,
        {
            let (s, idx) = order[j];
            proof {
                let m = order@.map_values(|p: (i128, usize)| (p.0 as int, p.1 as int));
                assert(m[j as int] == (s as int, idx as int));
                assert(rk[j as int].1 == idx);
                assert(rk[j as int].0 == s as int);
                assert(0 <= idx < cv.points.len());
            }
            let path = c.points[idx].path.clone();
            hits.push(RetrievalHit { path, score: s });
            j = j + 1;
        }
        proof {
            assert(hits@.map_values(|h: RetrievalHit| h@) =~= spec_search_hits(
                cv.points,
                query@,
                limit as nat,
            ));
        }
        Ok(hits)
    }

    /// Enumerates the paths indexed in the collection for `key`, in
    /// insertion order, capped at `max_count`. Fails with `NotFound`
    /// when no collection exists for the key.
    #[verifier::loop_isolation(false)]
    pub fn list_paths(&self, key: &String, max_count: u64) -> (r: Result<
        Vec<String>,
        StorageError,
    >)
        requires
            self.wf(),
        ensures
            ({
                if !has_coll(self@, key@) {
                    r == Result::<Vec<String>, StorageError>::Err(StorageError::NotFound)
                } else {
                    r matches Ok(paths) && paths@.map_values(|s: String| s@) =~= coll_of(
                        self@,
                        key@,
                    ).points.map_values(|p: PointView| p.path).take(
                        spec_limit(max_count as nat, coll_of(self@, key@).points.len()) as int,
                    )
                }
            }),
    {
        let ci = match self.find_collection(key) {
            Some(ci) => ci,
            None => {
                return Err(StorageError::NotFound);
            },
        };
        let c = &self.collections[ci];
        let ghost cv = self@[ci as int];
        proof {
            assert(c@ == cv);
            assert(forall|k: int|
                0 <= k < c.points@.len() ==> cv.points[k] == (#[trigger] c.points@[k])@);
        }
        let n = c.points.len();
        let lim: usize = if max_count >= (n as u64) {
            n
        } else {
            max_count as usize
        };
        let mut paths: Vec<String> = Vec::new();
        let mut j: usize = 0;
        while j < lim
            invariant
                0 <= j <= lim,
                paths@.len() == j,
                forall|k: int| 0 <= k < j ==> (#[trigger] paths@[k])@ == cv.points[k].path,
            decreases lim - j,
        {
            paths.push(c.points[j].path.clone());
            j = j + 1;
        }
        proof {
            assert(paths@.map_values(|s: String| s@) =~= cv.points.map_values(
                |p: PointView| p.path,
            ).take(lim as int));
        }
        Ok(paths)
    }

    /// Returns the files of the repository most relevant to the query
    /// embedding: the `limit` best-scoring points, in descending score
    /// order, hydrated into full file records from the content stored
    /// with each point.
    ///
    /// A repository that was never ingested has no collection; the
    /// query then succeeds with an empty list rather than failing,
    /// because "nothing indexed" is an answer, not an error. The call
    /// fails only with `SchemaConflict`, when the collection exists but
    /// the query embedding does not have its dimension.
    #[verifier::loop_isolation(false)]
    pub fn get_relevant_files(
        &self,
        repository: &Repository,
        query_embeddings: &Embeddings,
        limit: u64,
    ) -> (r: Result<Vec<File>, StorageError>)
        requires
            self.wf(),
        ensures
            ({
                let key = spec_key_of(repository@);
                if !has_coll(self@, key) {
                    r matches Ok(files) && files@.len() == 0
                } else if coll_of(self@, key).dim != query_embeddings@.len() {
                    r == Result::<Vec<File>, StorageError>::Err(StorageError::SchemaConflict)
                } else {
                    let pts = coll_of(self@, key).points;
                    r matches Ok(files) && files@.map_values(|f: File| f@) =~= spec_hydrated(
                        pts,
                        spec_search_hits(pts, query_embeddings@, limit as nat),
                    )
                }
            }),
    {
        let key = key_of(repository);
        let hits = match self.search(&key, query_embeddings, limit) {
            Ok(hits) => hits,
            Err(StorageError::NotFound) => {
                return Ok(Vec::new());
            },
            Err(e) => {
                return Err(e);
            },
        };
        let ci = match self.find_collection(&key) {
            Some(ci) => ci,
            None => {
                proof {
                    assert(false);
                }
                return Ok(Vec::new());
            },
        };
        let c = &self.collections[ci];
        let ghost cv = self@[ci as int];
        let ghost pts = cv.points;
        proof {
            assert(c@ == cv);
            assert(forall|k: int|
                0 <= k < c.points@.len() ==> pts[k] == (#[trigger] c.points@[k])@);
            coll_wf_unfold(cv);
        }
        let ghost hv = hits@.map_values(|h: RetrievalHit| h@);
        let ghost target = spec_hydrated(pts, spec_search_hits(pts, query_embeddings@, limit as nat));
        let n = hits.len();
        proof {
            assert(hv.len() == n);
            assert(target.len() == n);
        }
        let mut files: Vec<File> = Vec::new();
        let mut j: usize = 0;
        while j < n
            invariant
                0 <= j <= n,
                files@.len() == j,
                forall|k: int| 0 <= k < j ==> (#[trigger] files@[k])@ == target[k],
            decreases n - j,
        {
            proof {
                assert(hv[j as int] == hits@[j as int]@);
                let rk = spec_ranking(spec_scores(pts, query_embeddings@));
                lemma_spec_ranking_is_ranking(spec_scores(pts, query_embeddings@));
                assert(hv[j as int].path == pts[rk[j as int].1].path);
            }
            let pi = match find_path(&c.points, &hits[j].path) {
                Some(pi) => pi,
                None => {
                    proof {
                        let rk = spec_ranking(spec_scores(pts, query_embeddings@));
                        assert(pts[rk[j as int].1].path == hits@[j as int].path@);
                        assert(false);
                    }
                    return Err(StorageError::Unavailable);
                },
            };
            proof {
                let w = path_pos(pts, hv[j as int].path);
                assert(pts[pi as int].path == hv[j as int].path);
                assert(0 <= w < pts.len() && pts[w].path == hv[j as int].path);
                if w != pi {
                    assert(false);
                }
            }
            let content = c.points[pi].content.clone();
            let length = content.as_str().len();
            let path = hits[j].path.clone();
            proof {
                assert(content@ == content_at(pts, hv[j as int].path));
                assert(path@ == hv[j as int].path);
                assert(length == byte_len(content@));
            }
            files.push(File { path, content, length });
            proof {
                assert(files@[j as int]@ == target[j as int]);
            }
            j = j + 1;
        }
        proof {
            assert(hv.len() == spec_search_hits(pts, query_embeddings@, limit as nat).len());
            assert(files@.map_values(|f: File| f@) =~= target);
        }
        Ok(files)
    }
}

/// The paths indexed for one repository, as `get_file_paths` reports
/// them: the repository's collection key and the stored paths.
#[derive(Debug)]
pub struct RepositoryFilePaths {
    pub repo_id: String,
    pub file_paths: Vec<String>,
}

/// The largest number of paths that `get_file_paths` reports for one
/// repository.
pub const MAX_FILE_COUNT: u64 = 10000;

impl VectorStore {
    /// Enumerates the paths indexed for the repository, up to
    /// [`MAX_FILE_COUNT`], together with the repository's collection
    /// key. Fails with `NotFound` when the repository was never
    /// ingested.
    pub fn get_file_paths(&self, repository: &Repository) -> (r: Result<
        RepositoryFilePaths,
        StorageError,
    >)
        requires
            self.wf(),
        ensures
            ({
                let key = spec_key_of(repository@);
                if !has_coll(self@, key) {
                    r == Result::<RepositoryFilePaths, StorageError>::Err(StorageError::NotFound)
                } else {
                    r matches Ok(fp) && fp.repo_id@ == key && fp.file_paths@.map_values(
                        |s: String| s@,
                    ) =~= coll_of(self@, key).points.map_values(|p: PointView| p.path).take(
                        spec_limit(MAX_FILE_COUNT as nat, coll_of(self@, key).points.len()) as int,
                    )
                }
            }),
    {
        let key = key_of(repository);
        match self.list_paths(&key, MAX_FILE_COUNT) {
            Ok(file_paths) => Ok(RepositoryFilePaths { repo_id: key, file_paths }),
            Err(e) => Err(e),
        }
    }
}

/// The scores of a collection's points against a query vector: the
/// `i`-th score belongs to the `i`-th point.
pub open spec fn spec_scores(points: Seq<PointView>, q: Seq<i32>) -> Seq<int> {
    points.map_values(|p: PointView| spec_dot(p.vector, q))
}

/// The smaller of a requested limit and the number of points.
pub open spec fn spec_limit(limit: nat, n: nat) -> nat {
    if limit < n {
        limit
    } else {
        n
    }
}

/// What a similarity search returns: the first `limit` entries of the
/// ranking of all points by descending score, each reported as the
/// point's path and score.
pub open spec fn spec_search_hits(points: Seq<PointView>, q: Seq<i32>, limit: nat) -> Seq<
    HitView,
> {
    let rk = spec_ranking(spec_scores(points, q));
    Seq::new(
        spec_limit(limit, points.len()),
        |j: int| HitView { path: points[rk[j].1].path, score: rk[j].0 },
    )
}

/// What a search returns is a true top-`limit` answer: there are
/// exactly as many hits as requested, or as many as there are points if
/// fewer; the hits come in descending score order; and every hit
/// reports the path of a stored point together with that point's real
/// score against the query vector.
pub proof fn lemma_search_hits_sorted(points: Seq<PointView>, q: Seq<i32>, limit: nat)
    ensures
        spec_search_hits(points, q, limit).len() == spec_limit(limit, points.len()),
        forall|j: int, k: int|
            0 <= j < k < spec_search_hits(points, q, limit).len()
                ==> spec_search_hits(points, q, limit)[j].score >= spec_search_hits(
                points,
                q,
                limit,
            )[k].score,
        forall|j: int|
            0 <= j < spec_search_hits(points, q, limit).len() ==> exists|i: int|
                0 <= i < points.len() && (#[trigger] spec_search_hits(points, q, limit)[j]).path
                    == points[i].path && spec_search_hits(points, q, limit)[j].score == spec_dot(
                    points[i].vector,
                    q,
                ),
{
    let scores = spec_scores(points, q);
    let rk = spec_ranking(scores);
    let hits = spec_search_hits(points, q, limit);
    lemma_spec_ranking_is_ranking(scores);
    assert(scores.len() == points.len());
    assert forall|j: int, k: int| 0 <= j < k < hits.len() implies hits[j].score
        >= hits[k].score by {
        assert(crate::score::ranks_before(rk[j], rk[k]));
    }
    assert forall|j: int| 0 <= j < hits.len() implies exists|i: int|
        0 <= i < points.len() && (#[trigger] hits[j]).path == points[i].path && hits[j].score
            == spec_dot(points[i].vector, q) by {
        let i = rk[j].1;
        assert(0 <= i < points.len());
        assert(hits[j].path == points[i].path);
        assert(rk[j].0 == scores[i]);
        assert(scores[i] == spec_dot(points[i].vector, q));
        assert(hits[j].score == spec_dot(points[i].vector, q));
    }
}

/// The hits really are the top of the collection: a point that no hit
/// names scores no better against the query than any hit does. (The
/// premise that paths are distinct is the store's own invariant.)
pub proof fn lemma_search_hits_dominate(points: Seq<PointView>, q: Seq<i32>, limit: nat)
    requires
        forall|i: int, j: int| 0 <= i < j < points.len() ==> points[i].path != points[j].path,
    ensures
        forall|i: int, l: int|
            #![trigger spec_search_hits(points, q, limit)[l], points[i].vector]
            (0 <= i < points.len() && 0 <= l < spec_search_hits(points, q, limit).len() && !(
            exists|j: int|
                0 <= j < spec_search_hits(points, q, limit).len() && (#[trigger] spec_search_hits(
                    points,
                    q,
                    limit,
                )[j]).path == points[i].path)) ==> spec_search_hits(points, q, limit)[l].score
                >= spec_dot(points[i].vector, q),
{
    let scores = spec_scores(points, q);
    let rk = spec_ranking(scores);
    let hits = spec_search_hits(points, q, limit);
    lemma_spec_ranking_is_ranking(scores);
    assert(scores.len() == points.len());
    assert forall|i: int, l: int|
        (0 <= i < points.len() && 0 <= l < hits.len() && !(exists|j: int|
            0 <= j < hits.len() && (#[trigger] hits[j]).path == points[i].path))
            implies (#[trigger] hits[l]).score >= spec_dot((#[trigger] points[i]).vector, q) by {
        assert(crate::score::ranking_mentions(rk, i));
        let jr = choose|jr: int| 0 <= jr < rk.len() && (#[trigger] rk[jr]).1 == i;
        if jr < hits.len() {
            assert(hits[jr].path == points[i].path);
            assert(false);
        }
        assert(crate::score::ranks_before(rk[l], rk[jr]));
        assert(rk[jr].0 == scores[i]);
        assert(scores[i] == spec_dot(points[i].vector, q));
        assert(hits[l].score == rk[l].0);
    }
}

/// The position of the point that indexes `path`.
pub open spec fn path_pos(pts: Seq<PointView>, path: Seq<char>) -> int {
    choose|j: int| 0 <= j < pts.len() && (#[trigger] pts[j]).path == path
}

/// The stored content of the point that indexes `path`.
pub open spec fn content_at(pts: Seq<PointView>, path: Seq<char>) -> Seq<char> {
    pts[path_pos(pts, path)].content
}

/// What hydration turns search hits into: one file per hit, in hit
/// order, carrying the content stored for the hit's path and that
/// content's length in bytes.
pub open spec fn spec_hydrated(pts: Seq<PointView>, hits: Seq<HitView>) -> Seq<
    crate::repo::FileView,
> {
    Seq::new(
        hits.len(),
        |j: int|
            crate::repo::FileView {
                path: hits[j].path,
                content: content_at(pts, hits[j].path),
                length: byte_len(content_at(pts, hits[j].path)),
            },
    )
}

/// Finds the position of the point that indexes `path`.
fn find_path(points: &Vec<IndexPoint>, path: &String) -> (r: Option<usize>)
    ensures
        r matches Some(f) ==> 0 <= f < points@.len() && points@[f as int]@.path == path@,
        r is None ==> forall|k: int|
            0 <= k < points@.len() ==> (#[trigger] points@[k])@.path != path@,
{
    let n = points.len();
    let mut j: usize = 0;
    while j < n
        invariant
            n == points@.len(),
            0 <= j <= n,
            forall|k: int| 0 <= k < j ==> (#[trigger] points@[k])@.path != path@,
        decreases n - j,
    {
        if points[j].path.eq(path) {
            return Some(j);
        }
        j = j + 1;
    }
    None
}

/// Spells out the three clauses of [`coll_wf`] for a collection.
proof fn coll_wf_unfold(c: CollView)
    requires
        coll_wf(c),
    ensures
        forall|i: int| 0 <= i < c.points.len() ==> (#[trigger] c.points[i]).vector.len() == c.dim,
        forall|i: int|
            0 <= i < c.points.len() ==> (#[trigger] c.points[i]).id == spec_point_id(
                c.key,
                c.points[i].path,
            ),
        forall|i: int, j: int| 0 <= i < j < c.points.len() ==> c.points[i].path != c.points[j].path,
{
}

} // verus!
