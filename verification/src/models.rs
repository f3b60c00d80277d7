//! The materialized-path tree store: rows carrying an identifier, a path of
//! base-62 labels, a sibling rank and a payload, with an insert-or-update
//! operation that keeps ancestry and sibling order consistent, a flat listing
//! that recovers each row's direct parent from its path, and removal by
//! identifier.

use vstd::prelude::*;
use vstd::multiset::Multiset;
use vstd::relations::{sorted_by, total_ordering};
use vstd::seq_lib::{lemma_multiset_commutative, lemma_sorted_unique};
use vstd::string::StringExecFns;
use crate::base62::{encode, encode_spec};

verus! {

/// A persisted row of the store.
pub struct StoredItem {
    /// Unique 128-bit identifier, assigned by the creator.
    pub id: u128,
    /// Materialized path: the labels of every ancestor from the root down,
    /// ending with this row's own label.
    pub path: Vec<String>,
    /// Position among the siblings sharing this row's parent.
    pub rank: u64,
    /// Opaque text payload.
    pub content: String,
    /// Opaque structured payload, carried as text.
    pub metadata: String,
    /// Ordered labels attached to the row.
    pub tags: Vec<String>,
    /// Display collapse state.
    pub expand: bool,
    /// Creation timestamp, set once.
    pub created: i64,
    /// Last-modification timestamp, renewed by every upsert.
    pub modified: i64,
}

/// A row of the flat listing: the row's payload plus the identifier of its
/// direct parent, recovered from the materialized paths.
pub struct Item {
    pub id: u128,
    pub content: String,
    pub parent: Option<u128>,
    pub expand: bool,
    pub metadata: String,
    pub tags: Vec<String>,
    pub created: i64,
    pub modified: i64,
}

/// An insert-or-update request: a payload keyed by `id`, placed under
/// `parent` (root-level when absent) and after sibling `previous` (first
/// position when absent).
pub struct UpdateItem {
    pub id: u128,
    pub parent: Option<u128>,
    pub previous: Option<u128>,
    pub content: String,
    pub metadata: String,
    pub expand: bool,
}

/// A removal request.
pub struct DeleteItem {
    pub id: u128,
}

/// The failures a store operation can surface.
#[derive(Debug, PartialEq, Eq)]
pub enum DataError {
    /// A path segment could not be decoded.
    CanNotParse(String),
    /// No row carries the referenced identifier.
    NotFoundByUUID(u128),
    /// No row carries the referenced path.
    NotFoundByPath(String),
    /// The storage layer rejected the operation.
    Database(String),
}

/// Whether some row of `rows` carries `id`.
pub open spec fn contains_id(rows: Seq<StoredItem>, id: u128) -> bool {
    exists|j: int| 0 <= j < rows.len() && rows[j].id == id
}

/// The index of the row carrying `id` (meaningful when `contains_id` holds
/// and identifiers are unique).
pub open spec fn idx_of(rows: Seq<StoredItem>, id: u128) -> int {
    choose|j: int| 0 <= j < rows.len() && rows[j].id == id
}

/// The materialized path of the row carrying `id`.
pub open spec fn path_of_id(rows: Seq<StoredItem>, id: u128) -> Seq<Seq<char>> {
    rows[idx_of(rows, id)].path.deep_view()
}

/// The rank of the row carrying `id`.
pub open spec fn rank_of_id(rows: Seq<StoredItem>, id: u128) -> u64 {
    rows[idx_of(rows, id)].rank
}

/// A row is well formed when its path ends with its own label.
pub open spec fn wf_row(r: StoredItem) -> bool {
    r.path@.len() >= 1 && r.path.deep_view().last() == encode_spec(r.id as nat)
}

/// A row set is well formed when identifiers are unique and every row is
/// well formed.
pub open spec fn wf_rows(rows: Seq<StoredItem>) -> bool {
    (forall|i: int, j: int| 0 <= i < j < rows.len() ==> rows[i].id != rows[j].id)
        && (forall|j: int| 0 <= j < rows.len() ==> wf_row(#[trigger] rows[j]))
}

/// Whether `p` is the path of a direct child of the row whose path is `pp`.
pub open spec fn is_child_path(p: Seq<Seq<char>>, pp: Seq<Seq<char>>) -> bool {
    p.len() == pp.len() + 1 && p.drop_last() == pp
}

/// The committed state of the store: the full set of persisted rows.
pub struct Store {
    rows: Vec<StoredItem>,
}

impl View for Store {
    type V = Seq<StoredItem>;

    closed spec fn view(&self) -> Seq<StoredItem> {
        self.rows@
    }
}

/// When a row with `id` stands at `j` and identifiers are unique, `j` is the
/// index `idx_of` names.
pub proof fn lemma_idx_of(rows: Seq<StoredItem>, id: u128, j: int)
    requires
        wf_rows(rows),
        0 <= j < rows.len(),
        rows[j].id == id,
    ensures
        idx_of(rows, id) == j,
        contains_id(rows, id),
{
    assert(contains_id(rows, id));
    let k = idx_of(rows, id);
    if k < j {
        assert(rows[k].id != rows[j].id);
    } else if j < k {
        assert(rows[j].id != rows[k].id);
    }
}

/// Find the index of the row carrying `id`.
fn find_index(rows: &Vec<StoredItem>, id: u128) -> (r: Option<usize>)
    ensures
        match r {
            Some(k) => 0 <= k < rows@.len() && rows@[k as int].id == id,
            None => !contains_id(rows@, id),
        },
{
    let mut k: usize = 0;
    while k < rows.len()
        invariant
            0 <= k <= rows@.len(),
            forall|j: int| 0 <= j < k ==> rows@[j].id != id,
        decreases rows@.len() - k,
    {
        if rows[k].id == id {
            return Some(k);
        }
        k = k + 1;
    }
    None
}

/// Copy a vector of strings, element by element.
fn clone_strings(p: &Vec<String>) -> (r: Vec<String>)
    ensures
        r@ == p@,
        r.deep_view() == p.deep_view(),
{
    let mut r: Vec<String> = Vec::new();
    let mut i: usize = 0;
    while i < p.len()
        invariant
            0 <= i <= p@.len(),
            r@.len() == i,
            forall|j: int| 0 <= j < i ==> r@[j] == p@[j],
        decreases p@.len() - i,
    {
        r.push(p[i].clone());
        i = i + 1;
    }
    proof {
        assert(r@ =~= p@);
        assert(r.deep_view() =~= p.deep_view());
    }
    r
}

/// Whether `child` is the path of a direct child of the row whose path is
/// `pp`.
fn is_direct_child(child: &Vec<String>, pp: &Vec<String>) -> (b: bool)
    ensures
        b == is_child_path(child.deep_view(), pp.deep_view()),
{
    if child.len() == 0 || child.len() - 1 != pp.len() {
        proof {
            assert(child.deep_view().len() == child@.len());
            assert(pp.deep_view().len() == pp@.len());
        }
        return false;
    }
    let mut i: usize = 0;
    while i < pp.len()
        invariant
            0 <= i <= pp@.len(),
            child@.len() == pp@.len() + 1,
            forall|j: int| 0 <= j < i ==> child.deep_view()[j] == pp.deep_view()[j],
        decreases pp@.len() - i,
    {
        if !child[i].eq(&pp[i]) {
            proof {
                assert(child.deep_view()[i as int] != pp.deep_view()[i as int]);
                assert(child.deep_view().drop_last()[i as int] == child.deep_view()[i as int]);
            }
            return false;
        }
        i = i + 1;
    }
    proof {
        assert(child.deep_view().drop_last() =~= pp.deep_view());
    }
    true
}

/// Whether the request names a parent that no row carries.
pub open spec fn parent_missing(rows: Seq<StoredItem>, u: UpdateItem) -> bool {
    u.parent is Some && !contains_id(rows, u.parent->0)
}

/// Whether the request names a predecessor sibling that no row carries.
pub open spec fn previous_missing(rows: Seq<StoredItem>, u: UpdateItem) -> bool {
    u.previous is Some && !contains_id(rows, u.previous->0)
}

/// The materialized path the upserted row receives: the parent's path plus
/// the row's own label, or the label alone at root level.
pub open spec fn new_item_path(rows: Seq<StoredItem>, u: UpdateItem) -> Seq<Seq<char>> {
    if u.parent is Some {
        path_of_id(rows, u.parent->0).push(encode_spec(u.id as nat))
    } else {
        seq![encode_spec(u.id as nat)]
    }
}

/// The rank the upserted row receives: one past the predecessor's rank, or 0
/// when no predecessor is named.
pub open spec fn new_item_rank(rows: Seq<StoredItem>, u: UpdateItem) -> int {
    if u.previous is Some {
        rank_of_id(rows, u.previous->0) + 1
    } else {
        0
    }
}

/// Whether the row at `j` is a sibling the upsert pushes one rank up: a
/// direct child of the named parent whose rank is at least the new row's.
pub open spec fn sibling_shifted(rows: Seq<StoredItem>, u: UpdateItem, j: int) -> bool {
    u.parent is Some && is_child_path(
        rows[j].path.deep_view(),
        path_of_id(rows, u.parent->0),
    ) && rows[j].rank >= new_item_rank(rows, u)
}

/// Whether the upsert would push a rank past the integer domain of the
/// store; such a write is rejected as a storage failure.
pub open spec fn rank_overflow(rows: Seq<StoredItem>, u: UpdateItem) -> bool {
    new_item_rank(rows, u) > u64::MAX || (u.parent is Some && exists|j: int|
        0 <= j < rows.len() && #[trigger] sibling_shifted(rows, u, j) && rows[j].rank
            == u64::MAX)
}

/// `b` is `a` with its rank replaced by `r` and every other field kept.
pub open spec fn same_but_rank(a: StoredItem, b: StoredItem, r: int) -> bool {
    &&& b.id == a.id
    &&& b.path == a.path
    &&& b.rank == r
    &&& b.content == a.content
    &&& b.metadata == a.metadata
    &&& b.tags == a.tags
    &&& b.expand == a.expand
    &&& b.created == a.created
    &&& b.modified == a.modified
}

/// How the upsert leaves a row other than its target: pushed one rank up
/// when it is a shifted sibling, untouched otherwise.
pub open spec fn untouched_or_shifted(
    rows: Seq<StoredItem>,
    u: UpdateItem,
    b: StoredItem,
    j: int,
) -> bool {
    if sibling_shifted(rows, u, j) {
        same_but_rank(rows[j], b, rows[j].rank + 1)
    } else {
        b == rows[j]
    }
}

/// `b` is the old row `a` overwritten by the request: payload, path, rank
/// and modification time renewed; creation time and tags kept.
pub open spec fn row_updated(
    a: StoredItem,
    b: StoredItem,
    rows: Seq<StoredItem>,
    u: UpdateItem,
    now: i64,
) -> bool {
    &&& b.id == u.id
    &&& b.path.deep_view() == new_item_path(rows, u)
    &&& b.rank == new_item_rank(rows, u)
    &&& b.content == u.content
    &&& b.metadata == u.metadata
    &&& b.expand == u.expand
    &&& b.tags == a.tags
    &&& b.created == a.created
    &&& b.modified == now
}

/// `b` is a freshly created row for the request: no tags yet, creation and
/// modification time both set to the time of the write.
pub open spec fn row_created(b: StoredItem, rows: Seq<StoredItem>, u: UpdateItem, now: i64) -> bool {
    &&& b.id == u.id
    &&& b.path.deep_view() == new_item_path(rows, u)
    &&& b.rank == new_item_rank(rows, u)
    &&& b.content == u.content
    &&& b.metadata == u.metadata
    &&& b.expand == u.expand
    &&& b.tags@ == Seq::<String>::empty()
    &&& b.created == now
    &&& b.modified == now
}

/// The committed state after a successful upsert: the target row updated in
/// place or appended, every shifted sibling one rank up, everything else
/// untouched.
pub open spec fn upsert_post(
    rows: Seq<StoredItem>,
    nrows: Seq<StoredItem>,
    u: UpdateItem,
    now: i64,
) -> bool {
    if contains_id(rows, u.id) {
        &&& nrows.len() == rows.len()
        &&& forall|j: int|
            0 <= j < rows.len() && j != idx_of(rows, u.id) ==> untouched_or_shifted(
                rows,
                u,
                #[trigger] nrows[j],
                j,
            )
        &&& row_updated(rows[idx_of(rows, u.id)], nrows[idx_of(rows, u.id)], rows, u, now)
    } else {
        &&& nrows.len() == rows.len() + 1
        &&& forall|j: int|
            0 <= j < rows.len() ==> untouched_or_shifted(rows, u, #[trigger] nrows[j], j)
        &&& row_created(nrows[rows.len() as int], rows, u, now)
    }
}

impl UpdateItem {
    /// Resolve the full materialized path of the row carrying `id`, as one
    /// dot-separated string, against the same unit of work as the caller's
    /// write; fails when no row carries `id`.
    pub fn parent_path(store: &Store, id: u128) -> (r: Result<String, DataError>)
        requires
            store.wf(),
        ensures
            contains_id(store@, id) ==> (r matches Ok(s) && s@ == dotted(path_of_id(store@, id))),
            !contains_id(store@, id) ==> (r matches Err(DataError::NotFoundByUUID(q)) && q == id),
    {
        match find_index(&store.rows, id) {
            Some(k) => {
                proof {
                    lemma_idx_of(store@, id, k as int);
                }
                Ok(path_to_string(&store.rows[k].path))
            },
            None => Err(DataError::NotFoundByUUID(id)),
        }
    }

    /// Look up the sibling rank of the row carrying `id`; fails when no row
    /// carries `id`.
    pub fn get_ranking(store: &Store, id: u128) -> (r: Result<u64, DataError>)
        requires
            store.wf(),
        ensures
            contains_id(store@, id) ==> (r matches Ok(n) && n == rank_of_id(store@, id)),
            !contains_id(store@, id) ==> (r matches Err(DataError::NotFoundByUUID(q)) && q == id),
    {
        match find_index(&store.rows, id) {
            Some(k) => {
                proof {
                    lemma_idx_of(store@, id, k as int);
                }
                Ok(store.rows[k].rank)
            },
            None => Err(DataError::NotFoundByUUID(id)),
        }
    }

    /// Insert or update the row keyed by `self.id` inside one atomic unit of
    /// work: resolve the parent's path, compute the rank after the named
    /// predecessor, push conflicting siblings one rank up, and write the
    /// row. Any failure leaves the store exactly as it was.
    #[verifier::loop_isolation(false)]
    pub fn insert(self, store: &mut Store, now: i64) -> (r: Result<(), DataError>)
        requires
            old(store).wf(),
        ensures
            final(store).wf(),
            r is Err ==> final(store)@ == old(store)@,
            parent_missing(old(store)@, self) ==> (r matches Err(DataError::NotFoundByUUID(p))
                && Some(p) == self.parent),
            !parent_missing(old(store)@, self) && previous_missing(old(store)@, self)
                ==> (r matches Err(DataError::NotFoundByUUID(q)) && Some(q) == self.previous),
            !parent_missing(old(store)@, self) && !previous_missing(old(store)@, self)
                && rank_overflow(old(store)@, self) ==> r matches Err(DataError::Database(_)),
            !parent_missing(old(store)@, self) && !previous_missing(old(store)@, self)
                && !rank_overflow(old(store)@, self) ==> r is Ok && upsert_post(
                old(store)@,
                final(store)@,
                self,
                now,
            ),
    {
        let ghost rows0 = store@;
        // Resolve the parent's materialized path, inside this unit of work.
        let parent_path: Option<Vec<String>> = match self.parent {
            Some(p) => {
                match find_index(&store.rows, p) {
                    Some(k) => {
                        proof {
                            lemma_idx_of(rows0, p, k as int);
                        }
                        Some(clone_strings(&store.rows[k].path))
                    },
                    None => {
                        return Err(DataError::NotFoundByUUID(p));
                    },
                }
            },
            None => None,
        };
        proof {
            assert(parent_path is Some <==> self.parent is Some);
            assert(self.parent is Some ==> parent_path->0.deep_view() == path_of_id(
                rows0,
                self.parent->0,
            ));
        }
        // Compute the new row's rank from the named predecessor.
        let nrank: u64 = match self.previous {
            Some(q) => {
                match find_index(&store.rows, q) {
                    Some(k) => {
                        proof {
                            lemma_idx_of(rows0, q, k as int);
                        }
                        let pr = store.rows[k].rank;
                        if pr == u64::MAX {
                            return Err(DataError::Database("sibling rank out of range".to_owned()));
                        }
                        pr + 1
                    },
                    None => {
                        return Err(DataError::NotFoundByUUID(q));
                    },
                }
            },
            None => 0,
        };
        proof {
            assert(nrank as int == new_item_rank(rows0, self));
        }
        // Make sure no shifted sibling's rank can leave the store's integer
        // domain, so that the write below cannot fail half way.
        if let Some(pp) = &parent_path {
            let mut j: usize = 0;
            while j < store.rows.len()
                invariant
                    store@ == rows0,
                    0 <= j <= rows0.len(),
                    self.parent is Some,
                    pp.deep_view() == path_of_id(rows0, self.parent->0),
                    nrank as int == new_item_rank(rows0, self),
                    forall|i: int|
                        0 <= i < j ==> !(#[trigger] sibling_shifted(rows0, self, i)
                            && rows0[i].rank == u64::MAX),
                decreases rows0.len() - j,
            {
                if is_direct_child(&store.rows[j].path, pp) && store.rows[j].rank == u64::MAX {
                    proof {
                        assert(sibling_shifted(rows0, self, j as int));
                    }
                    return Err(DataError::Database("sibling rank out of range".to_owned()));
                }
                j = j + 1;
            }
        }
        proof {
            assert(!rank_overflow(rows0, self));
        }
        // Build the new row's materialized path.
        let mut npath: Vec<String> = match &parent_path {
            Some(pp) => clone_strings(pp),
            None => Vec::new(),
        };
        npath.push(encode(self.id));
        proof {
            assert(npath.deep_view() =~= new_item_path(rows0, self));
        }
        // Push every conflicting sibling one rank up.
        if let Some(pp) = &parent_path {
            let mut j: usize = 0;
            while j < store.rows.len()
                invariant
                    store@.len() == rows0.len(),
                    0 <= j <= rows0.len(),
                    self.parent is Some,
                    pp.deep_view() == path_of_id(rows0, self.parent->0),
                    nrank as int == new_item_rank(rows0, self),
                    !rank_overflow(rows0, self),
                    forall|i: int|
                        0 <= i < j ==> untouched_or_shifted(rows0, self, #[trigger] store@[i], i),
                    forall|i: int| j <= i < rows0.len() ==> store@[i] == rows0[i],
                decreases rows0.len() - j,
            {
                let is_ch = is_direct_child(&store.rows[j].path, pp);
                let rk = store.rows[j].rank;
                if is_ch && rk >= nrank {
                    proof {
                        assert(sibling_shifted(rows0, self, j as int));
                        assert(rk < u64::MAX);
                    }
                    store.rows[j].rank = rk + 1;
                    proof {
                        assert(untouched_or_shifted(rows0, self, store@[j as int], j as int));
                    }
                }
                j = j + 1;
            }
        }
        proof {
            assert(forall|i: int|
                0 <= i < rows0.len() ==> untouched_or_shifted(rows0, self, #[trigger] store@[i], i));
            assert(forall|i: int| 0 <= i < rows0.len() ==> store@[i].id == rows0[i].id);
        }
        // Write the row itself: overwrite in place, or append a fresh row.
        match find_index(&store.rows, self.id) {
            Some(k) => {
                proof {
                    lemma_idx_of(rows0, self.id, k as int);
                }
                store.rows[k].path = npath;
                store.rows[k].rank = nrank;
                store.rows[k].content = self.content;
                store.rows[k].metadata = self.metadata;
                store.rows[k].expand = self.expand;
                store.rows[k].modified = now;
                proof {
                    assert(contains_id(rows0, self.id));
                    assert(row_updated(rows0[k as int], store@[k as int], rows0, self, now));
                    assert(final(store).wf()) by {
                        assert(forall|i: int|
                            0 <= i < store@.len() ==> #[trigger] store@[i].id == rows0[i].id);
                        assert(forall|i: int|
                            0 <= i < store@.len() && i != k ==> wf_row(#[trigger] store@[i]));
                        assert(wf_row(store@[k as int]));
                    }
                }
                Ok(())
            },
            None => {
                proof {
                    assert(!contains_id(rows0, self.id)) by {
                        if contains_id(rows0, self.id) {
                            let jj = idx_of(rows0, self.id);
                            assert(store@[jj].id == self.id);
                        }
                    }
                }
                store.rows.push(
                    StoredItem {
                        id: self.id,
                        path: npath,
                        rank: nrank,
                        content: self.content,
                        metadata: self.metadata,
                        tags: Vec::new(),
                        expand: self.expand,
                        created: now,
                        modified: now,
                    },
                );
                proof {
                    assert(row_created(store@[rows0.len() as int], rows0, self, now));
                    assert(final(store).wf()) by {
                        assert(forall|i: int|
                            0 <= i < rows0.len() ==> #[trigger] store@[i].id == rows0[i].id);
                        assert(forall|i: int|
                            0 <= i < rows0.len() ==> wf_row(#[trigger] store@[i]));
                        assert(wf_row(store@[rows0.len() as int]));
                    }
                }
                Ok(())
            },
        }
    }
}

/// The value of a byte string read as one big-endian integer.
pub open spec fn be_bytes_val(s: Seq<u8>) -> int
    decreases s.len(),
{
    if s.len() == 0 {
        0
    } else {
        be_bytes_val(s.drop_last()) * 256 + s.last()
    }
}

/// 256 raised to the power `n`.
pub open spec fn pow256(n: nat) -> int
    decreases n,
{
    if n == 0 {
        1
    } else {
        256 * pow256((n - 1) as nat)
    }
}

proof fn lemma_pow256_pos(n: nat)
    ensures
        pow256(n) >= 1,
    decreases n,
{
    if n > 0 {
        lemma_pow256_pos((n - 1) as nat);
    }
}

/// A byte string's big-endian value lies below 256 to the power of its
/// length.
proof fn lemma_be_bytes_val_bound(s: Seq<u8>)
    ensures
        0 <= be_bytes_val(s) < pow256(s.len()),
    decreases s.len(),
{
    if s.len() > 0 {
        lemma_be_bytes_val_bound(s.drop_last());
        assert(be_bytes_val(s.drop_last()) * 256 + s.last() < pow256(s.len())) by (nonlinear_arith)
            requires
                0 <= be_bytes_val(s.drop_last()) < pow256((s.len() - 1) as nat),
                s.last() < 256,
                pow256(s.len()) == 256 * pow256((s.len() - 1) as nat),
        ;
        assert(be_bytes_val(s.drop_last()) * 256 >= 0) by (nonlinear_arith)
            requires
                be_bytes_val(s.drop_last()) >= 0,
        ;
    }
}

/// Read a 128-bit identifier from its sixteen bytes, explicitly and checked,
/// in big-endian order: the first byte is the most significant.
pub fn id_from_bytes(bytes: &[u8; 16]) -> (n: u128)
    ensures
        n as int == be_bytes_val(bytes@),
{
    proof {
        assert(pow256(16) == 0x100000000000000000000000000000000) by {
            assert(pow256(0) == 1);
            assert(pow256(1) == 0x100);
            assert(pow256(2) == 0x10000);
            assert(pow256(3) == 0x1000000);
            assert(pow256(4) == 0x100000000);
            assert(pow256(5) == 0x10000000000);
            assert(pow256(6) == 0x1000000000000);
            assert(pow256(7) == 0x100000000000000);
            assert(pow256(8) == 0x10000000000000000);
            assert(pow256(9) == 0x1000000000000000000);
            assert(pow256(10) == 0x100000000000000000000);
            assert(pow256(11) == 0x10000000000000000000000);
            assert(pow256(12) == 0x1000000000000000000000000);
            assert(pow256(13) == 0x100000000000000000000000000);
            assert(pow256(14) == 0x10000000000000000000000000000);
            assert(pow256(15) == 0x1000000000000000000000000000000);
        }
    }
    let mut acc: u128 = 0;
    let mut i: usize = 0;
    while i < 16
        invariant
            0 <= i <= 16,
            acc as int == be_bytes_val(bytes@.take(i as int)),
            pow256(16) == 0x100000000000000000000000000000000,
        decreases 16 - i,
    {
        proof {
            let t = bytes@.take(i + 1);
            assert(t.drop_last() =~= bytes@.take(i as int));
            assert(t.last() == bytes@[i as int]);
            lemma_be_bytes_val_bound(bytes@.take(i + 1));
            assert(pow256((i + 1) as nat) <= pow256(16)) by {
                lemma_pow256_mono((i + 1) as nat, 16);
            }
        }
        acc = acc * 256 + (bytes[i] as u128);
        i = i + 1;
    }
    proof {
        assert(bytes@.take(16) =~= bytes@);
    }
    acc
}

proof fn lemma_pow256_mono(a: nat, b: nat)
    requires
        a <= b,
    ensures
        pow256(a) <= pow256(b),
    decreases b,
{
    if a < b {
        lemma_pow256_mono(a, (b - 1) as nat);
        lemma_pow256_pos((b - 1) as nat);
    }
}

/// The label a 128-bit identifier's sixteen big-endian bytes stand for.
pub fn uuid_to_label(bytes: &[u8; 16]) -> (r: String)
    ensures
        r@ == encode_spec(be_bytes_val(bytes@) as nat),
{
    encode(id_from_bytes(bytes))
}

/// A materialized path written as one string: its segments joined by a dot.
pub open spec fn dotted(p: Seq<Seq<char>>) -> Seq<char>
    decreases p.len(),
{
    if p.len() == 0 {
        Seq::empty()
    } else if p.len() == 1 {
        p[0]
    } else {
        dotted(p.drop_last()) + seq!['.'] + p.last()
    }
}

/// Extending a non-empty path by one segment appends a dot and the segment
/// to its string form.
pub proof fn lemma_dotted_child(pp: Seq<Seq<char>>, seg: Seq<char>)
    requires
        pp.len() >= 1,
    ensures
        dotted(pp.push(seg)) == dotted(pp) + seq!['.'] + seg,
{
    assert(pp.push(seg).drop_last() =~= pp);
    assert(pp.push(seg).last() == seg);
}

/// Write a materialized path as one dot-separated string.
#[verifier::loop_isolation(false)]
pub fn path_to_string(p: &Vec<String>) -> (r: String)
    ensures
        r@ == dotted(p.deep_view()),
{
    let mut r = String::new();
    let mut i: usize = 0;
    while i < p.len()
        invariant
            0 <= i <= p@.len(),
            r@ == dotted(p.deep_view().take(i as int)),
        decreases p@.len() - i,
    {
        if i > 0 {
            r.append(".");
            proof {
                reveal_strlit(".");
            }
        }
        r.append(p[i].as_str());
        proof {
            let t = p.deep_view().take(i + 1);
            assert(t.drop_last() =~= p.deep_view().take(i as int));
            assert(t.last() == p.deep_view()[i as int]);
            assert(r@ =~= dotted(t));
        }
        i = i + 1;
    }
    proof {
        assert(p.deep_view().take(p@.len() as int) =~= p.deep_view());
    }
    r
}

/// Compose the path string of a child: the parent's path, a dot, and the
/// child's own label.
pub fn compose_child_path(parent_path: &str, id: u128) -> (r: String)
    ensures
        r@ == parent_path@ + seq!['.'] + encode_spec(id as nat),
{
    let mut s = parent_path.to_owned();
    s.append(".");
    proof {
        reveal_strlit(".");
    }
    let label = encode(id);
    s.append(label.as_str());
    proof {
        assert(s@ =~= parent_path@ + seq!['.'] + encode_spec(id as nat));
    }
    s
}

/// The rank an item takes when inserted after an optional predecessor: one
/// past the predecessor's rank, or 0; nothing when the predecessor's rank
/// has no successor in the store's integer domain.
pub fn next_rank(previous_rank: Option<u64>) -> (r: Option<u64>)
    ensures
        match previous_rank {
            Some(p) => if p == u64::MAX {
                r is None
            } else {
                r == Some((p + 1) as u64)
            },
            None => r == Some(0u64),
        },
{
    match previous_rank {
        Some(p) => {
            if p == u64::MAX {
                None
            } else {
                Some(p + 1)
            }
        },
        None => Some(0),
    }
}

/// Lexicographic order on character sequences, by code point; a proper
/// prefix comes first.
pub open spec fn chars_le(a: Seq<char>, b: Seq<char>) -> bool
    decreases a.len(),
{
    if a.len() == 0 {
        true
    } else if b.len() == 0 {
        false
    } else if a[0] != b[0] {
        (a[0] as int) < (b[0] as int)
    } else {
        chars_le(a.drop_first(), b.drop_first())
    }
}

/// Lexicographic order on segment sequences: segment by segment, a proper
/// prefix first, two differing segments ordered by `chars_le`.
pub open spec fn segs_le(a: Seq<Seq<char>>, b: Seq<Seq<char>>) -> bool
    decreases a.len(),
{
    if a.len() == 0 {
        true
    } else if b.len() == 0 {
        false
    } else if a[0] != b[0] {
        chars_le(a[0], b[0])
    } else {
        segs_le(a.drop_first(), b.drop_first())
    }
}

proof fn lemma_chars_le_total(a: Seq<char>, b: Seq<char>)
    ensures
        chars_le(a, b) || chars_le(b, a),
    decreases a.len(),
{
    if a.len() > 0 && b.len() > 0 && a[0] == b[0] {
        lemma_chars_le_total(a.drop_first(), b.drop_first());
    }
}

proof fn lemma_chars_le_antisym(a: Seq<char>, b: Seq<char>)
    requires
        chars_le(a, b),
        chars_le(b, a),
    ensures
        a == b,
    decreases a.len(),
{
    if a.len() == 0 {
        assert(b.len() == 0);
        assert(a =~= b);
    } else {
        assert(b.len() > 0);
        assert(a[0] == b[0]);
        lemma_chars_le_antisym(a.drop_first(), b.drop_first());
        assert(a =~= seq![a[0]] + a.drop_first());
        assert(b =~= seq![b[0]] + b.drop_first());
    }
}

proof fn lemma_chars_le_trans(a: Seq<char>, b: Seq<char>, c: Seq<char>)
    requires
        chars_le(a, b),
        chars_le(b, c),
    ensures
        chars_le(a, c),
    decreases a.len(),
{
    if a.len() > 0 && b.len() > 0 && c.len() > 0 && a[0] == b[0] && b[0] == c[0] {
        lemma_chars_le_trans(a.drop_first(), b.drop_first(), c.drop_first());
    }
}

proof fn lemma_segs_le_total(a: Seq<Seq<char>>, b: Seq<Seq<char>>)
    ensures
        segs_le(a, b) || segs_le(b, a),
    decreases a.len(),
{
    if a.len() > 0 && b.len() > 0 {
        if a[0] == b[0] {
            lemma_segs_le_total(a.drop_first(), b.drop_first());
        } else {
            lemma_chars_le_total(a[0], b[0]);
            if chars_le(a[0], b[0]) && chars_le(b[0], a[0]) {
                lemma_chars_le_antisym(a[0], b[0]);
            }
        }
    }
}

proof fn lemma_segs_le_antisym(a: Seq<Seq<char>>, b: Seq<Seq<char>>)
    requires
        segs_le(a, b),
        segs_le(b, a),
    ensures
        a == b,
    decreases a.len(),
{
    if a.len() == 0 {
        assert(b.len() == 0);
        assert(a =~= b);
    } else {
        assert(b.len() > 0);
        if a[0] != b[0] {
            lemma_chars_le_antisym(a[0], b[0]);
        }
        lemma_segs_le_antisym(a.drop_first(), b.drop_first());
        assert(a =~= seq![a[0]] + a.drop_first());
        assert(b =~= seq![b[0]] + b.drop_first());
    }
}

proof fn lemma_segs_le_trans(a: Seq<Seq<char>>, b: Seq<Seq<char>>, c: Seq<Seq<char>>)
    requires
        segs_le(a, b),
        segs_le(b, c),
    ensures
        segs_le(a, c),
    decreases a.len(),
{
    if a.len() > 0 && b.len() > 0 && c.len() > 0 {
        if a[0] == b[0] && b[0] == c[0] {
            lemma_segs_le_trans(a.drop_first(), b.drop_first(), c.drop_first());
        } else if a[0] == b[0] {
            // a and c differ at the head exactly as b and c do
        } else if b[0] == c[0] {
        } else {
            lemma_chars_le_trans(a[0], b[0], c[0]);
            if a[0] == c[0] {
                lemma_chars_le_antisym(b[0], c[0]);
            }
        }
    }
}

/// The display order of the flat listing, on row indices: parent grouping
/// first (the path less its last segment), materialized path second (the
/// row's own trailing segment), the index itself as the final tie-break.
pub open spec fn listing_le(rows: Seq<StoredItem>, x: int, y: int) -> bool {
    let a = rows[x].path.deep_view();
    let b = rows[y].path.deep_view();
    if a.drop_last() != b.drop_last() {
        segs_le(a.drop_last(), b.drop_last())
    } else if a.last() != b.last() {
        chars_le(a.last(), b.last())
    } else {
        x <= y
    }
}

/// The listing order is a total ordering on row indices.
pub proof fn lemma_listing_le_total_ordering(rows: Seq<StoredItem>)
    ensures
        total_ordering(|x: int, y: int| listing_le(rows, x, y)),
{
    let leq = |x: int, y: int| listing_le(rows, x, y);
    assert forall|x: int| #[trigger] leq(x, x) by {
        assert(listing_le(rows, x, x));
    }
    assert forall|x: int, y: int| #[trigger] leq(x, y) && #[trigger] leq(y, x) implies x == y by {
        let a = rows[x].path.deep_view();
        let b = rows[y].path.deep_view();
        if a.drop_last() != b.drop_last() {
            lemma_segs_le_antisym(a.drop_last(), b.drop_last());
        } else if a.last() != b.last() {
            lemma_chars_le_antisym(a.last(), b.last());
        }
    }
    assert forall|x: int, y: int| #[trigger] leq(x, y) || #[trigger] leq(y, x) by {
        let a = rows[x].path.deep_view();
        let b = rows[y].path.deep_view();
        lemma_segs_le_total(a.drop_last(), b.drop_last());
        lemma_chars_le_total(a.last(), b.last());
    }
    assert forall|x: int, y: int, z: int| #[trigger] leq(x, y) && #[trigger] leq(y, z) implies leq(
        x,
        z,
    ) by {
        lemma_listing_le_trans(rows, x, y, z);
    }
}

proof fn lemma_listing_le_trans(rows: Seq<StoredItem>, x: int, y: int, z: int)
    requires
        listing_le(rows, x, y),
        listing_le(rows, y, z),
    ensures
        listing_le(rows, x, z),
{
    let a = rows[x].path.deep_view();
    let b = rows[y].path.deep_view();
    let c = rows[z].path.deep_view();
    if a.drop_last() != b.drop_last() && b.drop_last() != c.drop_last() {
        lemma_segs_le_trans(a.drop_last(), b.drop_last(), c.drop_last());
        if a.drop_last() == c.drop_last() {
            lemma_segs_le_antisym(b.drop_last(), c.drop_last());
        }
    } else if a.drop_last() == b.drop_last() && b.drop_last() == c.drop_last() {
        if a.last() != b.last() && b.last() != c.last() {
            lemma_chars_le_trans(a.last(), b.last(), c.last());
            if a.last() == c.last() {
                lemma_chars_le_antisym(b.last(), c.last());
            }
        }
    }
}

/// The sequence 0, 1, ..., n-1.
pub open spec fn index_seq(n: int) -> Seq<int> {
    Seq::new(n as nat, |k: int| k)
}

/// The display order of the listing: the row indices 0..n sorted by
/// `listing_le` — parent grouping first, materialized path second.
pub open spec fn listing_order(rows: Seq<StoredItem>) -> Seq<int> {
    index_seq(rows.len() as int).sort_by(|x: int, y: int| listing_le(rows, x, y))
}

/// The listing order is a permutation of the row indices, sorted by
/// `listing_le`.
pub proof fn lemma_listing_order_ensures(rows: Seq<StoredItem>)
    ensures
        listing_order(rows).len() == rows.len(),
        sorted_by(listing_order(rows), |x: int, y: int| listing_le(rows, x, y)),
        listing_order(rows).no_duplicates(),
        forall|j: int| 0 <= j < rows.len() ==> #[trigger] listing_order(rows).contains(j),
        forall|k: int|
            0 <= k < rows.len() ==> 0 <= #[trigger] listing_order(rows)[k] < rows.len(),
        listing_order(rows).to_multiset() == index_seq(rows.len() as int).to_multiset(),
{
    broadcast use vstd::seq_lib::group_to_multiset_ensures;
    broadcast use vstd::multiset::group_multiset_axioms;

    let n = rows.len() as int;
    let leq = |x: int, y: int| listing_le(rows, x, y);
    let base = index_seq(n);
    let ord = listing_order(rows);
    lemma_listing_le_total_ordering(rows);
    base.lemma_sort_by_ensures(leq);
    assert(ord.to_multiset() =~= base.to_multiset());
    assert(ord.len() == ord.to_multiset().len());
    assert(base.len() == base.to_multiset().len());
    assert forall|j: int| 0 <= j < n implies #[trigger] ord.contains(j) by {
        assert(base[j] == j);
        assert(base.contains(j));
        assert(base.to_multiset().count(j) > 0);
    }
    assert(base.no_duplicates());
    base.lemma_multiset_has_no_duplicates();
    ord.lemma_multiset_has_no_duplicates_conv();
    assert forall|k: int| 0 <= k < n implies 0 <= #[trigger] ord[k] < n by {
        assert(ord.to_multiset().count(ord[k]) > 0);
        assert(base.to_multiset().count(ord[k]) > 0);
        assert(base.contains(ord[k]));
        let j = choose|j: int| 0 <= j < base.len() && base[j] == ord[k];
        assert(base[j] == j);
    }
}

/// Inserting an element anywhere in a sequence adds it, and nothing else,
/// to the sequence's multiset.
proof fn lemma_seq_insert_multiset(s: Seq<int>, p: int, x: int)
    requires
        0 <= p <= s.len(),
    ensures
        s.insert(p, x).to_multiset() == s.to_multiset().insert(x),
{
    broadcast use vstd::seq_lib::group_to_multiset_ensures;
    broadcast use vstd::multiset::group_multiset_axioms;

    let t = s.take(p);
    let u = s.skip(p);
    assert(s =~= t + u);
    assert(s.insert(p, x) =~= t + (seq![x] + u));
    assert(seq![x] =~= Seq::<int>::empty().push(x));
    assert(Seq::<int>::empty().to_multiset() =~= Multiset::<int>::empty()) by {
        assert(Seq::<int>::empty().to_multiset().len() == 0);
    }
    assert(seq![x].to_multiset() =~= Multiset::<int>::empty().insert(x));
    lemma_multiset_commutative(t, seq![x] + u);
    lemma_multiset_commutative(seq![x], u);
    lemma_multiset_commutative(t, u);
    assert(s.insert(p, x).to_multiset() =~= s.to_multiset().insert(x));
}

/// Compare two strings in the order `chars_le` gives their characters.
#[verifier::loop_isolation(false)]
fn chars_le_exec(a: &str, b: &str) -> (r: bool)
    ensures
        r == chars_le(a@, b@),
{
    let na = a.unicode_len();
    let nb = b.unicode_len();
    let mut i: usize = 0;
    proof {
        assert(a@.skip(0) =~= a@);
        assert(b@.skip(0) =~= b@);
    }
    while i < na && i < nb
        invariant
            0 <= i <= na,
            0 <= i <= nb,
            chars_le(a@, b@) == chars_le(a@.skip(i as int), b@.skip(i as int)),
        decreases na - i,
    {
        let ca = a.get_char(i);
        let cb = b.get_char(i);
        if ca != cb {
            return (ca as u32) < (cb as u32);
        }
        proof {
            assert(a@.skip(i as int).drop_first() =~= a@.skip(i + 1));
            assert(b@.skip(i as int).drop_first() =~= b@.skip(i + 1));
        }
        i = i + 1;
    }
    proof {
        if i == na {
            assert(a@.skip(i as int) =~= Seq::<char>::empty());
        } else {
            assert(b@.skip(i as int) =~= Seq::<char>::empty());
        }
    }
    i == na
}

/// Whether two paths agree on everything but their last segment.
#[verifier::loop_isolation(false)]
fn parent_eq_exec(a: &Vec<String>, b: &Vec<String>) -> (r: bool)
    requires
        a@.len() >= 1,
        b@.len() >= 1,
    ensures
        r == (a.deep_view().drop_last() == b.deep_view().drop_last()),
{
    if a.len() != b.len() {
        proof {
            assert(a.deep_view().drop_last().len() != b.deep_view().drop_last().len());
        }
        return false;
    }
    let mut i: usize = 0;
    while i < a.len() - 1
        invariant
            0 <= i <= a@.len() - 1,
            a@.len() == b@.len(),
            forall|q: int| 0 <= q < i ==> a.deep_view()[q] == b.deep_view()[q],
        decreases a@.len() - 1 - i,
    {
        if !a[i].eq(&b[i]) {
            proof {
                assert(a.deep_view().drop_last()[i as int] != b.deep_view().drop_last()[i as int]);
            }
            return false;
        }
        i = i + 1;
    }
    proof {
        assert(a.deep_view().drop_last() =~= b.deep_view().drop_last());
    }
    true
}

/// Compare the first `na` segments of one path against the first `nb` of
/// another, in the order `segs_le` gives them.
#[verifier::loop_isolation(false)]
fn segs_prefix_le_exec(a: &Vec<String>, na: usize, b: &Vec<String>, nb: usize) -> (r: bool)
    requires
        na <= a@.len(),
        nb <= b@.len(),
    ensures
        r == segs_le(a.deep_view().take(na as int), b.deep_view().take(nb as int)),
{
    let ghost bigs = a.deep_view().take(na as int);
    let ghost bigt = b.deep_view().take(nb as int);
    let mut i: usize = 0;
    proof {
        assert(bigs.skip(0) =~= bigs);
        assert(bigt.skip(0) =~= bigt);
    }
    while i < na && i < nb
        invariant
            0 <= i <= na,
            0 <= i <= nb,
            bigs == a.deep_view().take(na as int),
            bigt == b.deep_view().take(nb as int),
            segs_le(bigs, bigt) == segs_le(bigs.skip(i as int), bigt.skip(i as int)),
        decreases na - i,
    {
        if !a[i].eq(&b[i]) {
            proof {
                assert(bigs.skip(i as int)[0] == a.deep_view()[i as int]);
                assert(bigt.skip(i as int)[0] == b.deep_view()[i as int]);
            }
            return chars_le_exec(a[i].as_str(), b[i].as_str());
        }
        proof {
            assert(bigs.skip(i as int)[0] == bigt.skip(i as int)[0]);
            assert(bigs.skip(i as int).drop_first() =~= bigs.skip(i + 1));
            assert(bigt.skip(i as int).drop_first() =~= bigt.skip(i + 1));
        }
        i = i + 1;
    }
    proof {
        if i == na {
            assert(bigs.skip(i as int) =~= Seq::<Seq<char>>::empty());
        } else {
            assert(bigt.skip(i as int) =~= Seq::<Seq<char>>::empty());
        }
    }
    i == na
}

/// Compare two rows of the store in the listing's display order.
fn listing_le_exec(rows: &Vec<StoredItem>, x: usize, y: usize) -> (r: bool)
    requires
        wf_rows(rows@),
        x < rows@.len(),
        y < rows@.len(),
    ensures
        r == listing_le(rows@, x as int, y as int),
{
    let a = &rows[x].path;
    let b = &rows[y].path;
    proof {
        assert(wf_row(rows@[x as int]));
        assert(wf_row(rows@[y as int]));
        assert(a.deep_view().drop_last() =~= a.deep_view().take(a@.len() - 1));
        assert(b.deep_view().drop_last() =~= b.deep_view().take(b@.len() - 1));
        assert(a.deep_view().last() == a.deep_view()[a@.len() - 1]);
        assert(b.deep_view().last() == b.deep_view()[b@.len() - 1]);
    }
    if !parent_eq_exec(a, b) {
        segs_prefix_le_exec(a, a.len() - 1, b, b.len() - 1)
    } else if !a[a.len() - 1].eq(&b[b.len() - 1]) {
        chars_le_exec(a[a.len() - 1].as_str(), b[b.len() - 1].as_str())
    } else {
        x <= y
    }
}

/// The insertion point for row `x` in an index list already in display
/// order: past every index whose row does not come after `x`'s.
#[verifier::loop_isolation(false)]
fn find_pos(rows: &Vec<StoredItem>, ord: &Vec<usize>, x: usize) -> (p: usize)
    requires
        wf_rows(rows@),
        x < rows@.len(),
        forall|k: int| 0 <= k < ord@.len() ==> #[trigger] ord@[k] < rows@.len(),
    ensures
        p <= ord@.len(),
        forall|q: int| 0 <= q < p ==> listing_le(rows@, #[trigger] ord@[q] as int, x as int),
        p < ord@.len() ==> !listing_le(rows@, ord@[p as int] as int, x as int),
{
    let mut p: usize = 0;
    while p < ord.len()
        invariant
            0 <= p <= ord@.len(),
            forall|q: int| 0 <= q < p ==> listing_le(rows@, #[trigger] ord@[q] as int, x as int),
        decreases ord@.len() - p,
    {
        if !listing_le_exec(rows, ord[p], x) {
            return p;
        }
        p = p + 1;
    }
    p
}

/// Compute the display order of the rows: their indices, sorted by
/// `listing_le` with an insertion sort.
#[verifier::loop_isolation(false)]
fn display_order(rows: &Vec<StoredItem>) -> (ord: Vec<usize>)
    requires
        wf_rows(rows@),
    ensures
        ord@.len() == rows@.len(),
        forall|k: int| 0 <= k < ord@.len() ==> #[trigger] ord@[k] < rows@.len(),
        ord@.map_values(|v: usize| v as int) == listing_order(rows@),
{
    let ghost leq = |x: int, y: int| listing_le(rows@, x, y);
    proof {
        lemma_listing_le_total_ordering(rows@);
        assert(Seq::<usize>::empty().map_values(|v: usize| v as int) =~= Seq::<int>::empty());
        assert(index_seq(0) =~= Seq::<int>::empty());
    }
    let mut ord: Vec<usize> = Vec::new();
    let mut i: usize = 0;
    while i < rows.len()
        invariant
            0 <= i <= rows@.len(),
            ord@.len() == i,
            forall|k: int| 0 <= k < ord@.len() ==> #[trigger] ord@[k] < i,
            sorted_by(ord@.map_values(|v: usize| v as int), leq),
            ord@.map_values(|v: usize| v as int).to_multiset() == index_seq(
                i as int,
            ).to_multiset(),
        decreases rows@.len() - i,
    {
        let ghost o0 = ord@;
        let ghost m0 = o0.map_values(|v: usize| v as int);
        let p = find_pos(rows, &ord, i);
        ord.insert(p, i);
        proof {
            broadcast use vstd::seq_lib::group_to_multiset_ensures;

            let xi = i as int;
            let m1 = ord@.map_values(|v: usize| v as int);
            assert(ord@ =~= o0.take(p as int) + seq![i] + o0.skip(p as int));
            assert(m1 =~= m0.insert(p as int, xi)) by {
                assert(m0.insert(p as int, xi) =~= m0.take(p as int) + seq![xi] + m0.skip(
                    p as int,
                ));
            }
            assert forall|k1: int, k2: int| 0 <= k1 < k2 < m1.len() implies #[trigger] leq(
                m1[k1],
                m1[k2],
            ) by {
                if k2 < p {
                    assert(leq(m0[k1], m0[k2]));
                } else if k1 < p && k2 == p {
                    assert(listing_le(rows@, o0[k1] as int, xi));
                } else if k1 < p && k2 > p {
                    assert(leq(m0[k1], m0[k2 - 1]));
                } else if k1 == p {
                    assert(p < m0.len());
                    assert(!leq(m0[p as int], xi));
                    assert(leq(m0[p as int], xi) || leq(xi, m0[p as int]));
                    if k2 - 1 > p {
                        assert(leq(m0[p as int], m0[k2 - 1]));
                        assert(leq(xi, m0[p as int]) && leq(m0[p as int], m0[k2 - 1]) ==> leq(
                            xi,
                            m0[k2 - 1],
                        ));
                    }
                } else {
                    assert(leq(m0[k1 - 1], m0[k2 - 1]));
                }
            }
            lemma_seq_insert_multiset(m0, p as int, xi);
            assert(index_seq(xi + 1) =~= index_seq(xi).push(xi));
            assert(index_seq(xi).push(xi).to_multiset() =~= index_seq(xi).to_multiset().insert(
                xi,
            ));
        }
        i = i + 1;
    }
    proof {
        let m = ord@.map_values(|v: usize| v as int);
        lemma_listing_order_ensures(rows@);
        lemma_sorted_unique(m, listing_order(rows@), leq);
        assert(m =~= listing_order(rows@));
    }
    ord
}

/// Whether the row at `k` is the direct parent of the row at `j`: its full
/// path equals the child's path less the last segment.
pub open spec fn is_parent_row(rows: Seq<StoredItem>, k: int, j: int) -> bool {
    0 <= k < rows.len() && rows[k].path.deep_view() == rows[j].path.deep_view().drop_last()
}

/// The identifier of the direct parent of the row at `j`, or nothing when no
/// row's path matches.
pub open spec fn parent_entry(rows: Seq<StoredItem>, j: int) -> Option<u128> {
    if exists|k: int| #[trigger] is_parent_row(rows, k, j) {
        Some(rows[choose|k: int| is_parent_row(rows, k, j)].id)
    } else {
        None
    }
}

/// The label codec never gives two values the same label.
pub proof fn lemma_encode_injective(x: u128, y: u128)
    requires
        encode_spec(x as nat) == encode_spec(y as nat),
    ensures
        x == y,
{
    crate::base62::lemma_encode_decode(x);
    crate::base62::lemma_encode_decode(y);
}

/// In a well-formed store, at most one row's path matches a child's path
/// less its last segment: equal paths end in equal labels, equal labels name
/// equal identifiers, and identifiers are unique.
pub proof fn lemma_parent_unique(rows: Seq<StoredItem>, k1: int, k2: int, j: int)
    requires
        wf_rows(rows),
        0 <= j < rows.len(),
        is_parent_row(rows, k1, j),
        is_parent_row(rows, k2, j),
    ensures
        k1 == k2,
{
    assert(rows[k1].path.deep_view().last() == encode_spec(rows[k1].id as nat));
    assert(rows[k2].path.deep_view().last() == encode_spec(rows[k2].id as nat));
    lemma_encode_injective(rows[k1].id, rows[k2].id);
    if k1 < k2 {
        assert(rows[k1].id != rows[k2].id);
    } else if k2 < k1 {
        assert(rows[k2].id != rows[k1].id);
    }
}

/// Ancestry law: a stored row with a direct parent has exactly the parent's
/// path with one extra trailing segment, that row's own label.
pub proof fn lemma_child_path_extends_parent(rows: Seq<StoredItem>, j: int)
    requires
        wf_rows(rows),
        0 <= j < rows.len(),
        parent_entry(rows, j) is Some,
    ensures
        contains_id(rows, parent_entry(rows, j)->0),
        rows[j].path.deep_view() == path_of_id(rows, parent_entry(rows, j)->0).push(
            encode_spec(rows[j].id as nat),
        ),
{
    let k = choose|k: int| is_parent_row(rows, k, j);
    lemma_idx_of(rows, rows[k].id, k);
    assert(rows[j].path.deep_view() =~= rows[j].path.deep_view().drop_last().push(
        rows[j].path.deep_view().last(),
    ));
}

/// `it` is the listing entry for the row at `j`: the row's own payload plus
/// the identifier of its direct parent.
pub open spec fn item_matches(it: Item, rows: Seq<StoredItem>, j: int) -> bool {
    &&& it.id == rows[j].id
    &&& it.content == rows[j].content
    &&& it.parent == parent_entry(rows, j)
    &&& it.expand == rows[j].expand
    &&& it.metadata == rows[j].metadata
    &&& it.tags@ == rows[j].tags@
    &&& it.created == rows[j].created
    &&& it.modified == rows[j].modified
}

/// Find the identifier of the direct parent of the row at `j`.
#[verifier::loop_isolation(false)]
fn find_parent(rows: &Vec<StoredItem>, j: usize) -> (p: Option<u128>)
    requires
        wf_rows(rows@),
        j < rows@.len(),
    ensures
        p == parent_entry(rows@, j as int),
{
    let mut k: usize = 0;
    while k < rows.len()
        invariant
            0 <= k <= rows@.len(),
            forall|i: int| 0 <= i < k ==> !is_parent_row(rows@, i, j as int),
        decreases rows@.len() - k,
    {
        if is_direct_child(&rows[j].path, &rows[k].path) {
            proof {
                assert(is_parent_row(rows@, k as int, j as int));
                let c = choose|i: int| is_parent_row(rows@, i, j as int);
                lemma_parent_unique(rows@, c, k as int, j as int);
            }
            return Some(rows[k].id);
        }
        k = k + 1;
    }
    proof {
        assert(forall|i: int| !is_parent_row(rows@, i, j as int));
    }
    None
}

/// List every row together with the identifier of its direct parent,
/// recovered by matching each row's path, less its last segment, against
/// every other row's full path. Entries come out in display order: grouped
/// by parent first, ordered by materialized path second. Sibling rank is a
/// different key, deliberately not followed here; it stays the caller's to
/// apply.
#[verifier::loop_isolation(false)]
pub fn get_item_list(store: &Store) -> (r: Vec<Item>)
    requires
        store.wf(),
    ensures
        r@.len() == store@.len(),
        listing_order(store@).len() == store@.len(),
        sorted_by(listing_order(store@), |x: int, y: int| listing_le(store@, x, y)),
        listing_order(store@).no_duplicates(),
        forall|j: int| 0 <= j < store@.len() ==> #[trigger] listing_order(store@).contains(j),
        forall|k: int|
            0 <= k < store@.len() ==> 0 <= #[trigger] listing_order(store@)[k] < store@.len()
                && item_matches(r@[k], store@, listing_order(store@)[k]),
{
    proof {
        lemma_listing_order_ensures(store@);
    }
    let rows = &store.rows;
    let ord = display_order(rows);
    let mut out: Vec<Item> = Vec::new();
    let mut k: usize = 0;
    while k < ord.len()
        invariant
            0 <= k <= ord@.len(),
            out@.len() == k,
            ord@.len() == rows@.len(),
            forall|q: int| 0 <= q < ord@.len() ==> #[trigger] ord@[q] < rows@.len(),
            ord@.map_values(|v: usize| v as int) == listing_order(store@),
            forall|q: int|
                0 <= q < k ==> item_matches(#[trigger] out@[q], store@, ord@[q] as int),
        decreases ord@.len() - k,
    {
        let j = ord[k];
        let parent = find_parent(rows, j);
        out.push(
            Item {
                id: rows[j].id,
                content: rows[j].content.clone(),
                parent,
                expand: rows[j].expand,
                metadata: rows[j].metadata.clone(),
                tags: clone_strings(&rows[j].tags),
                created: rows[j].created,
                modified: rows[j].modified,
            },
        );
        k = k + 1;
    }
    proof {
        assert(forall|q: int|
            0 <= q < rows@.len() ==> #[trigger] listing_order(store@)[q] == ord@[q] as int);
    }
    out
}

/// Remove the row carrying `id` outright; removing an absent identifier
/// leaves the store unchanged. The operation is not path-aware: descendants
/// of a removed row keep their paths.
#[verifier::loop_isolation(false)]
pub fn delete_item(store: &mut Store, id: u128) -> (r: Result<(), DataError>)
    requires
        old(store).wf(),
    ensures
        final(store).wf(),
        r is Ok,
        !contains_id(old(store)@, id) ==> final(store)@ == old(store)@,
        contains_id(old(store)@, id) ==> final(store)@ == old(store)@.remove(
            idx_of(old(store)@, id),
        ),
{
    let ghost rows0 = store@;
    match find_index(&store.rows, id) {
        Some(k) => {
            proof {
                lemma_idx_of(rows0, id, k as int);
            }
            store.rows.remove(k);
            proof {
                assert(forall|i: int|
                    0 <= i < store@.len() ==> #[trigger] store@[i] == if i < k {
                        rows0[i]
                    } else {
                        rows0[i + 1]
                    });
            }
            Ok(())
        },
        None => Ok(()),
    }
}

impl Store {
    /// Whether the store is well formed: identifiers unique, every path
    /// ending with its row's own label.
    pub open spec fn wf(&self) -> bool {
        wf_rows(self@)
    }

    /// An empty store.
    pub fn new() -> (s: Store)
        ensures
            s@ == Seq::<StoredItem>::empty(),
            s.wf(),
    {
        Store { rows: Vec::new() }
    }

    /// The number of persisted rows.
    pub fn len(&self) -> (n: usize)
        ensures
            n == self@.len(),
    {
        self.rows.len()
    }
}

} // verus!
