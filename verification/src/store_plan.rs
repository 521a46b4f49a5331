//! The subscription store's key layout and the writes of its transactions.
//!
//! A subscription is stored under `sub:{bark_id}`, and once more in the
//! bucket of every GeoHash cell it watches, under
//! `geo_sub:{geohash}:{bark_id}`, so that the subscriptions of a cell are
//! one prefix scan. Older stores kept a list of keys per cell under
//! `geo:{geohash}`; writes remove a subscription from those lists too.
//!
//! The store runs a plan of writes as one transaction. Here the plans are
//! made, and their effect is stated on a model of the store: a map from
//! key to entry.
use vstd::prelude::*;
use vstd::string::*;
use crate::geohash::{char_digit, is_geohash};
use crate::text::{same_text, texts_of};

verus! {

// ------------------------------------------------------------------
// Keys
// ------------------------------------------------------------------

/// `sub:{bark_id}`.
pub open spec fn subscription_key_of(bark_id: Seq<char>) -> Seq<char> {
    "sub:"@ + bark_id
}

/// `geo:{geohash}`: the legacy list of the cell.
pub open spec fn index_key_of(geohash: Seq<char>) -> Seq<char> {
    "geo:"@ + geohash
}

/// `geo_sub:{geohash}:`: the prefix of the cell's bucket.
pub open spec fn bucket_prefix_of(geohash: Seq<char>) -> Seq<char> {
    "geo_sub:"@ + geohash + ":"@
}

/// `geo_sub:{geohash}:{bark_id}`: the subscription's entry in the cell's bucket.
pub open spec fn bucket_key_of(geohash: Seq<char>, bark_id: Seq<char>) -> Seq<char> {
    bucket_prefix_of(geohash) + bark_id
}

/// The key of a subscription (see `subscription_key_of`).
pub fn subscription_key(bark_id: &str) -> (r: String)
    ensures
        r@ == subscription_key_of(bark_id@),
{
    let mut k = String::from_str("sub:");
    k.append(bark_id);
    k
}

/// The key of a cell's legacy list (see `index_key_of`).
pub fn geohash_index_key(geohash: &str) -> (r: String)
    ensures
        r@ == index_key_of(geohash@),
{
    let mut k = String::from_str("geo:");
    k.append(geohash);
    k
}

/// The prefix of a cell's bucket (see `bucket_prefix_of`).
pub fn geohash_bucket_prefix(geohash: &str) -> (r: String)
    ensures
        r@ == bucket_prefix_of(geohash@),
{
    let mut k = String::from_str("geo_sub:");
    k.append(geohash);
    k.append(":");
    k
}

/// The key of a subscription in a cell's bucket (see `bucket_key_of`).
pub fn geohash_subscription_key(geohash: &str, bark_id: &str) -> (r: String)
    ensures
        r@ == bucket_key_of(geohash@, bark_id@),
{
    let mut k = geohash_bucket_prefix(geohash);
    k.append(bark_id);
    k
}

// ------------------------------------------------------------------
// Plans
// ------------------------------------------------------------------

/// One write of a transaction.
#[derive(Debug)]
pub enum StoreOp {
    /// Drop the subscription from the legacy list under this key; drop the
    /// key when the list empties.
    RemoveFromIndex(String),
    /// Remove this key.
    Remove(String),
    /// Store the subscription's value under this key.
    PutSubscription(String),
}

/// A write as plain values.
pub enum OpView {
    RemoveFromIndex(Seq<char>),
    Remove(Seq<char>),
    Put(Seq<char>),
}

impl View for StoreOp {
    type V = OpView;

    open spec fn view(&self) -> OpView {
        match self {
            StoreOp::RemoveFromIndex(k) => OpView::RemoveFromIndex(k@),
            StoreOp::Remove(k) => OpView::Remove(k@),
            StoreOp::PutSubscription(k) => OpView::Put(k@),
        }
    }
}

/// The key a write touches.
pub open spec fn op_key(op: OpView) -> Seq<char> {
    match op {
        OpView::RemoveFromIndex(k) => k,
        OpView::Remove(k) => k,
        OpView::Put(k) => k,
    }
}

/// Views of a list of writes.
pub open spec fn op_views(v: Seq<StoreOp>) -> Seq<OpView> {
    Seq::new(v.len(), |i: int| v[i]@)
}

/// The cells of `old` that are not in `new`, in order.
pub open spec fn cells_left(old: Seq<Seq<char>>, new: Seq<Seq<char>>) -> Seq<Seq<char>>
    decreases old.len(),
{
    if old.len() == 0 {
        Seq::empty()
    } else if new.contains(old.last()) {
        cells_left(old.drop_last(), new)
    } else {
        cells_left(old.drop_last(), new).push(old.last())
    }
}

/// The writes that store subscription `id`, which watched the cells `old`
/// and now watches the cells `new`: it leaves the legacy lists of `old`,
/// its bucket entries of the cells it no longer watches are removed, and
/// its value is stored under its key and in the bucket of every cell of
/// `new`.
pub open spec fn upsert_ops(id: Seq<char>, old: Seq<Seq<char>>, new: Seq<Seq<char>>) -> Seq<OpView> {
    let left = cells_left(old, new);
    Seq::new(old.len(), |i: int| OpView::RemoveFromIndex(index_key_of(old[i]))) + Seq::new(
        left.len(),
        |i: int| OpView::Remove(bucket_key_of(left[i], id)),
    ) + seq![OpView::Put(subscription_key_of(id))] + Seq::new(
        new.len(),
        |i: int| OpView::Put(bucket_key_of(new[i], id)),
    )
}

/// The writes that delete subscription `id`, which watches the cells
/// `cells`: for every cell it leaves the legacy list and its bucket entry is
/// removed; then its key is removed.
pub open spec fn delete_ops(id: Seq<char>, cells: Seq<Seq<char>>) -> Seq<OpView>
    decreases cells.len(),
{
    delete_cell_ops(id, cells).push(OpView::Remove(subscription_key_of(id)))
}

/// The per-cell writes of a delete.
pub open spec fn delete_cell_ops(id: Seq<char>, cells: Seq<Seq<char>>) -> Seq<OpView>
    decreases cells.len(),
{
    if cells.len() == 0 {
        Seq::empty()
    } else {
        delete_cell_ops(id, cells.drop_last()).push(
            OpView::RemoveFromIndex(index_key_of(cells.last())),
        ).push(OpView::Remove(bucket_key_of(cells.last(), id)))
    }
}

/// The writes that store a subscription (see `upsert_ops`).
pub fn plan_upsert(bark_id: &str, old_geohashes: &Vec<String>, new_geohashes: &Vec<String>) -> (ops:
    Vec<StoreOp>)
    ensures
        op_views(ops@) == upsert_ops(bark_id@, texts_of(old_geohashes@), texts_of(new_geohashes@)),
{
    let ghost old = texts_of(old_geohashes@);
    let ghost new = texts_of(new_geohashes@);
    let mut ops: Vec<StoreOp> = Vec::new();
    let mut i: usize = 0;
    while i < old_geohashes.len()
        invariant
            old == texts_of(old_geohashes@),
            i <= old.len(),
            op_views(ops@) =~= Seq::new(
                i as nat,
                |j: int| OpView::RemoveFromIndex(index_key_of(old[j])),
            ),
        decreases old.len() - i,
    {
        let ghost before = ops@;
        ops.push(StoreOp::RemoveFromIndex(geohash_index_key(old_geohashes[i].as_str())));
        assert(old[i as int] == old_geohashes@[i as int]@);
        assert(op_views(ops@) =~= op_views(before).push(
            OpView::RemoveFromIndex(index_key_of(old[i as int])),
        ));
        i = i + 1;
    }
    let ghost first = op_views(ops@);
    let mut left: Vec<String> = Vec::new();
    let mut i: usize = 0;
    while i < old_geohashes.len()
        invariant
            old == texts_of(old_geohashes@),
            new == texts_of(new_geohashes@),
            i <= old.len(),
            texts_of(left@) =~= cells_left(old.take(i as int), new),
        decreases old.len() - i,
    {
        assert(old.take(i + 1).drop_last() =~= old.take(i as int));
        assert(old.take(i + 1).last() == old_geohashes@[i as int]@);
        if !list_holds(new_geohashes, old_geohashes[i].as_str()) {
            left.push(old_geohashes[i].clone());
        }
        i = i + 1;
    }
    assert(old.take(old.len() as int) =~= old);
    let ghost left_view = texts_of(left@);
    let mut i: usize = 0;
    while i < left.len()
        invariant
            left_view == texts_of(left@),
            i <= left_view.len(),
            op_views(ops@) =~= first + Seq::new(
                i as nat,
                |j: int| OpView::Remove(bucket_key_of(left_view[j], bark_id@)),
            ),
        decreases left_view.len() - i,
    {
        let ghost before = ops@;
        ops.push(StoreOp::Remove(geohash_subscription_key(left[i].as_str(), bark_id)));
        assert(left_view[i as int] == left@[i as int]@);
        assert(op_views(ops@) =~= op_views(before).push(
            OpView::Remove(bucket_key_of(left_view[i as int], bark_id@)),
        ));
        i = i + 1;
    }
    let ghost second = op_views(ops@);
    ops.push(StoreOp::PutSubscription(subscription_key(bark_id)));
    let ghost third = op_views(ops@);
    assert(third =~= second + seq![OpView::Put(subscription_key_of(bark_id@))]);
    let mut i: usize = 0;
    while i < new_geohashes.len()
        invariant
            new == texts_of(new_geohashes@),
            i <= new.len(),
            op_views(ops@) =~= third + Seq::new(
                i as nat,
                |j: int| OpView::Put(bucket_key_of(new[j], bark_id@)),
            ),
        decreases new.len() - i,
    {
        let ghost before = ops@;
        ops.push(StoreOp::PutSubscription(geohash_subscription_key(new_geohashes[i].as_str(), bark_id)));
        assert(new[i as int] == new_geohashes@[i as int]@);
        assert(op_views(ops@) =~= op_views(before).push(
            OpView::Put(bucket_key_of(new[i as int], bark_id@)),
        ));
        i = i + 1;
    }
    ops
}

/// The writes that delete a subscription (see `delete_ops`).
pub fn plan_delete(bark_id: &str, geohashes: &Vec<String>) -> (ops: Vec<StoreOp>)
    ensures
        op_views(ops@) == delete_ops(bark_id@, texts_of(geohashes@)),
{
    let ghost cells = texts_of(geohashes@);
    let mut ops: Vec<StoreOp> = Vec::new();
    let mut i: usize = 0;
    while i < geohashes.len()
        invariant
            cells == texts_of(geohashes@),
            i <= cells.len(),
            op_views(ops@) =~= delete_cell_ops(bark_id@, cells.take(i as int)),
        decreases cells.len() - i,
    {
        assert(cells.take(i + 1).drop_last() =~= cells.take(i as int));
        ops.push(StoreOp::RemoveFromIndex(geohash_index_key(geohashes[i].as_str())));
        ops.push(StoreOp::Remove(geohash_subscription_key(geohashes[i].as_str(), bark_id)));
        i = i + 1;
    }
    assert(cells.take(cells.len() as int) =~= cells);
    ops.push(StoreOp::Remove(subscription_key(bark_id)));
    ops
}

/// Whether a list of strings holds `s`.
pub fn list_holds(v: &Vec<String>, s: &str) -> (r: bool)
    ensures
        r == texts_of(v@).contains(s@),
{
    let mut i: usize = 0;
    while i < v.len()
        invariant
            i <= v@.len(),
            forall|j: int| 0 <= j < i ==> v@[j]@ != s@,
        decreases v@.len() - i,
    {
        if same_text(v[i].as_str(), s) {
            assert(texts_of(v@)[i as int] == s@);
            return true;
        }
        i = i + 1;
    }
    assert forall|j: int| 0 <= j < texts_of(v@).len() implies texts_of(v@)[j] != s@ by {
        assert(texts_of(v@)[j] == v@[j]@);
    }
    false
}

// ------------------------------------------------------------------
// Legacy lists
// ------------------------------------------------------------------

/// What becomes of a legacy list when a subscription leaves it.
#[derive(Debug)]
pub enum IndexUpdate {
    /// The list is empty now: its key is removed.
    Delete,
    /// The list without the subscription, to be written back.
    Write(Vec<String>),
}

/// The list without `id`.
pub open spec fn without_id(ids: Seq<Seq<char>>, id: Seq<char>) -> Seq<Seq<char>>
    decreases ids.len(),
{
    if ids.len() == 0 {
        Seq::empty()
    } else if ids.last() == id {
        without_id(ids.drop_last(), id)
    } else {
        without_id(ids.drop_last(), id).push(ids.last())
    }
}

/// A legacy list after `bark_id` leaves it: removed when nothing is left,
/// written back without it otherwise.
pub fn remove_from_index(ids: &Vec<String>, bark_id: &str) -> (r: IndexUpdate)
    ensures
        match r {
            IndexUpdate::Delete => without_id(texts_of(ids@), bark_id@).len() == 0,
            IndexUpdate::Write(rest) => without_id(texts_of(ids@), bark_id@).len() > 0
                && texts_of(rest@) == without_id(texts_of(ids@), bark_id@),
        },
{
    let ghost all = texts_of(ids@);
    let mut rest: Vec<String> = Vec::new();
    let mut i: usize = 0;
    while i < ids.len()
        invariant
            all == texts_of(ids@),
            i <= all.len(),
            texts_of(rest@) =~= without_id(all.take(i as int), bark_id@),
        decreases all.len() - i,
    {
        assert(all.take(i + 1).drop_last() =~= all.take(i as int));
        assert(all.take(i + 1).last() == ids@[i as int]@);
        if !same_text(ids[i].as_str(), bark_id) {
            rest.push(ids[i].clone());
        }
        i = i + 1;
    }
    assert(all.take(all.len() as int) =~= all);
    if rest.len() == 0 {
        IndexUpdate::Delete
    } else {
        IndexUpdate::Write(rest)
    }
}

// ------------------------------------------------------------------
// The store model and the laws of the plans
// ------------------------------------------------------------------

/// An entry of the store: a subscription's value, or a legacy list.
pub enum Entry {
    Record(Seq<u8>),
    Index(Seq<Seq<char>>),
}

/// One write applied to the store, for subscription `id` with value
/// `value`. (A legacy key that holds no list makes the store abort the
/// transaction; the model leaves such a key as it is.)
pub open spec fn apply_op(
    m: Map<Seq<char>, Entry>,
    op: OpView,
    id: Seq<char>,
    value: Seq<u8>,
) -> Map<Seq<char>, Entry> {
    match op {
        OpView::Put(k) => m.insert(k, Entry::Record(value)),
        OpView::Remove(k) => m.remove(k),
        OpView::RemoveFromIndex(k) => if m.contains_key(k) && m[k] is Index {
            let rest = without_id(m[k]->Index_0, id);
            if rest.len() == 0 {
                m.remove(k)
            } else {
                m.insert(k, Entry::Index(rest))
            }
        } else {
            m
        },
    }
}

/// A plan applied to the store, write after write.
pub open spec fn apply_ops(
    m: Map<Seq<char>, Entry>,
    ops: Seq<OpView>,
    id: Seq<char>,
    value: Seq<u8>,
) -> Map<Seq<char>, Entry>
    decreases ops.len(),
{
    if ops.len() == 0 {
        m
    } else {
        apply_op(apply_ops(m, ops.drop_last(), id, value), ops.last(), id, value)
    }
}

/// A write leaves every other key as it was.
proof fn lemma_op_frame(m: Map<Seq<char>, Entry>, op: OpView, id: Seq<char>, value: Seq<u8>, k: Seq<char>)
    requires
        op_key(op) != k,
    ensures
        apply_op(m, op, id, value).contains_key(k) == m.contains_key(k),
        m.contains_key(k) ==> apply_op(m, op, id, value)[k] == m[k],
{
}

/// A key that no write of the plan touches keeps its entry.
pub proof fn lemma_untouched(
    m: Map<Seq<char>, Entry>,
    ops: Seq<OpView>,
    id: Seq<char>,
    value: Seq<u8>,
    k: Seq<char>,
)
    requires
        forall|i: int| 0 <= i < ops.len() ==> op_key(#[trigger] ops[i]) != k,
    ensures
        apply_ops(m, ops, id, value).contains_key(k) == m.contains_key(k),
        m.contains_key(k) ==> apply_ops(m, ops, id, value)[k] == m[k],
    decreases ops.len(),
{
    if ops.len() > 0 {
        assert(op_key(ops[ops.len() - 1]) != k);
        lemma_untouched(m, ops.drop_last(), id, value, k);
        lemma_op_frame(apply_ops(m, ops.drop_last(), id, value), ops.last(), id, value, k);
    }
}

/// A key that the plan writes, always with the subscription's value, holds
/// the value.
proof fn lemma_only_puts(
    m: Map<Seq<char>, Entry>,
    ops: Seq<OpView>,
    id: Seq<char>,
    value: Seq<u8>,
    k: Seq<char>,
)
    requires
        exists|i: int| 0 <= i < ops.len() && op_key(#[trigger] ops[i]) == k,
        forall|i: int| 0 <= i < ops.len() && op_key(#[trigger] ops[i]) == k ==> ops[i] == OpView::Put(k),
    ensures
        apply_ops(m, ops, id, value).contains_key(k),
        apply_ops(m, ops, id, value)[k] == Entry::Record(value),
    decreases ops.len(),
{
    let n = ops.len();
    if op_key(ops[n - 1]) == k {
    } else {
        let i = choose|i: int| 0 <= i < ops.len() && op_key(#[trigger] ops[i]) == k;
        let p = ops.drop_last();
        assert(p[i] == ops[i]);
        assert forall|j: int| 0 <= j < p.len() && op_key(#[trigger] p[j]) == k implies p[j] == OpView::Put(k) by {
            assert(p[j] == ops[j]);
        }
        lemma_only_puts(m, p, id, value, k);
        lemma_op_frame(apply_ops(m, p, id, value), ops.last(), id, value, k);
    }
}

/// A key that the plan only removes is gone.
proof fn lemma_only_removes(
    m: Map<Seq<char>, Entry>,
    ops: Seq<OpView>,
    id: Seq<char>,
    value: Seq<u8>,
    k: Seq<char>,
)
    requires
        exists|i: int| 0 <= i < ops.len() && op_key(#[trigger] ops[i]) == k,
        forall|i: int| 0 <= i < ops.len() && op_key(#[trigger] ops[i]) == k ==> ops[i] == OpView::Remove(k),
    ensures
        !apply_ops(m, ops, id, value).contains_key(k),
    decreases ops.len(),
{
    let n = ops.len();
    if op_key(ops[n - 1]) == k {
    } else {
        let i = choose|i: int| 0 <= i < ops.len() && op_key(#[trigger] ops[i]) == k;
        let p = ops.drop_last();
        assert(p[i] == ops[i]);
        assert forall|j: int| 0 <= j < p.len() && op_key(#[trigger] p[j]) == k implies p[j] == OpView::Remove(k) by {
            assert(p[j] == ops[j]);
        }
        lemma_only_removes(m, p, id, value, k);
        lemma_op_frame(apply_ops(m, p, id, value), ops.last(), id, value, k);
    }
}

/// A list without `id` holds no `id`.
proof fn lemma_without_id(ids: Seq<Seq<char>>, id: Seq<char>)
    ensures
        !without_id(ids, id).contains(id),
    decreases ids.len(),
{
    if ids.len() > 0 {
        let p = ids.drop_last();
        lemma_without_id(p, id);
        let w = without_id(ids, id);
        let wp = without_id(p, id);
        if ids.last() != id {
            assert forall|i: int| 0 <= i < w.len() implies w[i] != id by {
                if i < wp.len() {
                    assert(w[i] == wp[i]);
                    assert(wp.contains(wp[i]));
                }
            }
        }
    }
}

/// Whether the entry under `k` is a legacy list that holds `id`.
pub open spec fn lists_id(m: Map<Seq<char>, Entry>, k: Seq<char>, id: Seq<char>) -> bool {
    &&& m.contains_key(k)
    &&& m[k] is Index
    &&& m[k]->Index_0.contains(id)
}

/// The entry under `k` is the same in both stores (or absent from both).
pub open spec fn same_at(m: Map<Seq<char>, Entry>, m2: Map<Seq<char>, Entry>, k: Seq<char>) -> bool {
    &&& m2.contains_key(k) == m.contains_key(k)
    &&& m.contains_key(k) ==> m2[k] == m[k]
}

/// A key that the plan only takes `id` out of holds no list with `id`.
proof fn lemma_only_index_removes(
    m: Map<Seq<char>, Entry>,
    ops: Seq<OpView>,
    id: Seq<char>,
    value: Seq<u8>,
    k: Seq<char>,
)
    requires
        exists|i: int| 0 <= i < ops.len() && op_key(#[trigger] ops[i]) == k,
        forall|i: int|
            0 <= i < ops.len() && op_key(#[trigger] ops[i]) == k ==> ops[i] == OpView::RemoveFromIndex(k),
    ensures
        !lists_id(apply_ops(m, ops, id, value), k, id),
    decreases ops.len(),
{
    let n = ops.len();
    let p = ops.drop_last();
    if op_key(ops[n - 1]) == k {
        let before = apply_ops(m, p, id, value);
        if before.contains_key(k) && before[k] is Index {
            lemma_without_id(before[k]->Index_0, id);
        }
    } else {
        let i = choose|i: int| 0 <= i < ops.len() && op_key(#[trigger] ops[i]) == k;
        assert(p[i] == ops[i]);
        assert forall|j: int| 0 <= j < p.len() && op_key(#[trigger] p[j]) == k implies p[j]
            == OpView::RemoveFromIndex(k) by {
            assert(p[j] == ops[j]);
        }
        lemma_only_index_removes(m, p, id, value, k);
        lemma_op_frame(apply_ops(m, p, id, value), ops.last(), id, value, k);
    }
}

/// A text without a colon.
pub open spec fn colon_free(s: Seq<char>) -> bool {
    forall|i: int| 0 <= i < s.len() ==> s[i] != ':'
}

/// A GeoHash has no colon.
pub proof fn lemma_geohash_colon_free(g: Seq<char>)
    requires
        is_geohash(g),
    ensures
        colon_free(g),
{
    assert forall|i: int| 0 <= i < g.len() implies g[i] != ':' by {
        assert(char_digit(g[i]) is Some);
    }
}

/// Bucket prefixes of colon-free cells: the prefix of `g2` begins the
/// bucket key of `g1` exactly when the cells are one; so a prefix scan of a
/// cell reads that cell's bucket and no other.
pub proof fn lemma_bucket_prefix(g1: Seq<char>, g2: Seq<char>, id: Seq<char>)
    requires
        colon_free(g1),
        colon_free(g2),
    ensures
        (bucket_key_of(g1, id).len() >= bucket_prefix_of(g2).len() && bucket_key_of(g1, id).take(
            bucket_prefix_of(g2).len() as int,
        ) == bucket_prefix_of(g2)) <==> g1 == g2,
{
    reveal_strlit(":");
    let p = "geo_sub:"@;
    let b = bucket_key_of(g1, id);
    let q = bucket_prefix_of(g2);
    assert(b =~= p + g1 + seq![':'] + id);
    assert(q =~= p + g2 + seq![':']);
    if g1 == g2 {
        assert(b.take(q.len() as int) =~= q);
    } else if b.len() >= q.len() && b.take(q.len() as int) == q {
        if g1.len() < g2.len() {
            assert(b[(p.len() + g1.len()) as int] == ':');
            assert(q[(p.len() + g1.len()) as int] == g2[g1.len() as int]);
            assert(b.take(q.len() as int)[(p.len() + g1.len()) as int] == b[(p.len() + g1.len()) as int]);
        } else if g1.len() > g2.len() {
            assert(q[(p.len() + g2.len()) as int] == ':');
            assert(b[(p.len() + g2.len()) as int] == g1[g2.len() as int]);
            assert(b.take(q.len() as int)[(p.len() + g2.len()) as int] == b[(p.len() + g2.len()) as int]);
        } else {
            assert forall|i: int| 0 <= i < g1.len() implies g1[i] == g2[i] by {
                assert(b[p.len() as int + i] == g1[i]);
                assert(q[p.len() as int + i] == g2[i]);
                assert(b.take(q.len() as int)[p.len() as int + i] == b[p.len() as int + i]);
            }
            assert(g1 =~= g2);
        }
    }
}

/// Bucket keys in colon-free cells are one key only for one cell and one
/// subscription.
proof fn lemma_bucket_keys_distinct(g1: Seq<char>, id1: Seq<char>, g2: Seq<char>, id2: Seq<char>)
    requires
        colon_free(g1),
        colon_free(g2),
        bucket_key_of(g1, id1) == bucket_key_of(g2, id2),
    ensures
        g1 == g2,
        id1 == id2,
{
    lemma_bucket_prefix(g1, g2, id1);
    let b = bucket_key_of(g1, id1);
    let q = bucket_prefix_of(g2);
    assert(b =~= q + id2);
    assert(b.take(q.len() as int) =~= q);
    assert(id1 =~= b.skip(bucket_prefix_of(g1).len() as int));
    assert(id2 =~= b.skip(q.len() as int));
}

/// Subscription keys of two subscriptions are one key only for one
/// subscription.
proof fn lemma_subscription_keys_distinct(id1: Seq<char>, id2: Seq<char>)
    requires
        subscription_key_of(id1) == subscription_key_of(id2),
    ensures
        id1 == id2,
{
    let n = "sub:"@.len() as int;
    assert(id1 =~= subscription_key_of(id1).skip(n));
    assert(id2 =~= subscription_key_of(id2).skip(n));
}

/// The three kinds of key never meet: a subscription key, a legacy list
/// key and a bucket key are different keys.
proof fn lemma_key_kinds(id: Seq<char>, g: Seq<char>, h: Seq<char>, id2: Seq<char>)
    ensures
        subscription_key_of(id) != index_key_of(g),
        subscription_key_of(id) != bucket_key_of(h, id2),
        index_key_of(g) != bucket_key_of(h, id2),
{
    reveal_strlit("sub:");
    reveal_strlit("geo:");
    reveal_strlit("geo_sub:");
    assert(subscription_key_of(id)[0] == 's');
    assert(index_key_of(g)[0] == 'g');
    assert(bucket_key_of(h, id2)[0] == 'g');
    assert(index_key_of(g)[3] == ':');
    assert(bucket_key_of(h, id2)[3] == '_');
}

/// After the writes that store subscription `id` (old cells `old`, new
/// cells `new`, all GeoHashes): its key holds its value; the bucket of every
/// new cell holds its value; the buckets of the old cells it left hold no
/// entry of it; and no legacy list of an old cell holds it.
pub proof fn lemma_upsert_effect(
    m: Map<Seq<char>, Entry>,
    id: Seq<char>,
    old: Seq<Seq<char>>,
    new: Seq<Seq<char>>,
    value: Seq<u8>,
)
    requires
        forall|i: int| 0 <= i < old.len() ==> is_geohash(#[trigger] old[i]),
        forall|i: int| 0 <= i < new.len() ==> is_geohash(#[trigger] new[i]),
    ensures
        ({
            let m2 = apply_ops(m, upsert_ops(id, old, new), id, value);
            &&& m2.contains_key(subscription_key_of(id))
            &&& m2[subscription_key_of(id)] == Entry::Record(value)
            &&& forall|g: Seq<char>| #[trigger] new.contains(g) ==> m2.contains_key(bucket_key_of(g, id))
                && m2[bucket_key_of(g, id)] == Entry::Record(value)
            &&& forall|g: Seq<char>|
                #[trigger] old.contains(g) && !new.contains(g) ==> !m2.contains_key(bucket_key_of(g, id))
            &&& forall|g: Seq<char>| #[trigger] old.contains(g) ==> !lists_id(m2, index_key_of(g), id)
        }),
{
    let ops = upsert_ops(id, old, new);
    let left = cells_left(old, new);
    lemma_cells_left(old, new);
    let a = old.len() as int;
    let b = a + left.len();
    let sk = subscription_key_of(id);
    assert forall|i: int| 0 <= i < ops.len() && op_key(#[trigger] ops[i]) == sk implies ops[i] == OpView::Put(sk) by {
        if i < a {
            lemma_key_kinds(id, old[i], old[i], id);
        } else if i < b {
            lemma_key_kinds(id, left[i - a], left[i - a], id);
        } else if i > b {
            lemma_key_kinds(id, new[i - b - 1], new[i - b - 1], id);
        }
    }
    assert(op_key(ops[b]) == sk);
    lemma_only_puts(m, ops, id, value, sk);
    assert forall|g: Seq<char>| #[trigger] new.contains(g) implies apply_ops(m, ops, id, value).contains_key(
        bucket_key_of(g, id),
    ) && apply_ops(m, ops, id, value)[bucket_key_of(g, id)] == Entry::Record(value) by {
        let k = bucket_key_of(g, id);
        let j = choose|j: int| 0 <= j < new.len() && new[j] == g;
        lemma_geohash_colon_free(g);
        assert forall|i: int| 0 <= i < ops.len() && op_key(#[trigger] ops[i]) == k implies ops[i] == OpView::Put(k) by {
            if i < a {
                lemma_key_kinds(id, old[i], g, id);
            } else if i < b {
                let c = left[i - a];
                lemma_geohash_colon_free(c);
                lemma_bucket_keys_distinct(c, id, g, id);
            } else if i == b {
                lemma_key_kinds(id, g, g, id);
            }
        }
        assert(op_key(ops[b + 1 + j]) == k);
        lemma_only_puts(m, ops, id, value, k);
    }
    assert forall|g: Seq<char>| #[trigger] old.contains(g) && !new.contains(g) implies !apply_ops(
        m,
        ops,
        id,
        value,
    ).contains_key(bucket_key_of(g, id)) by {
        let k = bucket_key_of(g, id);
        lemma_geohash_colon_free(g);
        let j = choose|j: int| 0 <= j < left.len() && left[j] == g;
        assert forall|i: int| 0 <= i < ops.len() && op_key(#[trigger] ops[i]) == k implies ops[i] == OpView::Remove(k) by {
            if i < a {
                lemma_key_kinds(id, old[i], g, id);
            } else if i < b {
                let c = left[i - a];
                lemma_geohash_colon_free(c);
                lemma_bucket_keys_distinct(c, id, g, id);
            } else if i == b {
                lemma_key_kinds(id, g, g, id);
            } else {
                let c = new[i - b - 1];
                lemma_geohash_colon_free(c);
                lemma_bucket_keys_distinct(c, id, g, id);
                assert(new.contains(c));
            }
        }
        assert(op_key(ops[a + j]) == k);
        lemma_only_removes(m, ops, id, value, k);
    }
    assert forall|g: Seq<char>| #[trigger] old.contains(g) implies !lists_id(
        apply_ops(m, ops, id, value),
        index_key_of(g),
        id,
    ) by {
        let k = index_key_of(g);
        let j = choose|j: int| 0 <= j < old.len() && old[j] == g;
        assert forall|i: int| 0 <= i < ops.len() && op_key(#[trigger] ops[i]) == k implies ops[i]
            == OpView::RemoveFromIndex(k) by {
            if a <= i < b {
                lemma_key_kinds(id, g, left[i - a], id);
            } else if i == b {
                lemma_key_kinds(id, g, g, id);
            } else if i > b {
                lemma_key_kinds(id, g, new[i - b - 1], id);
            }
        }
        assert(op_key(ops[j]) == k);
        lemma_only_index_removes(m, ops, id, value, k);
    }
}

/// The cells left are the old cells that are not new, and GeoHashes.
proof fn lemma_cells_left(old: Seq<Seq<char>>, new: Seq<Seq<char>>)
    ensures
        forall|i: int| 0 <= i < cells_left(old, new).len() ==> old.contains(#[trigger] cells_left(old, new)[i])
            && !new.contains(cells_left(old, new)[i]),
        forall|g: Seq<char>| #[trigger] old.contains(g) && !new.contains(g) ==> cells_left(old, new).contains(g),
    decreases old.len(),
{
    if old.len() > 0 {
        let p = old.drop_last();
        lemma_cells_left(p, new);
        let l = cells_left(old, new);
        let lp = cells_left(p, new);
        assert forall|i: int| 0 <= i < l.len() implies old.contains(#[trigger] l[i]) && !new.contains(l[i]) by {
            if i < lp.len() {
                assert(l[i] == lp[i]);
                let j = choose|j: int| 0 <= j < p.len() && p[j] == lp[i];
                assert(old[j] == p[j]);
            } else {
                assert(l[i] == old.last());
                assert(old[old.len() - 1] == old.last());
            }
        }
        assert forall|g: Seq<char>| #[trigger] old.contains(g) && !new.contains(g) implies l.contains(g) by {
            let j = choose|j: int| 0 <= j < old.len() && old[j] == g;
            if j < p.len() {
                assert(p[j] == old[j]);
                assert(p.contains(g));
                let q = choose|q: int| 0 <= q < lp.len() && lp[q] == g;
                assert(l[q] == lp[q]);
            } else {
                assert(l[l.len() - 1] == g);
            }
        }
    }
}

/// After the writes that delete subscription `id` (watching the GeoHashes
/// `cells`): its key and its entries in the buckets of its cells are gone,
/// and no legacy list of its cells holds it.
pub proof fn lemma_delete_effect(
    m: Map<Seq<char>, Entry>,
    id: Seq<char>,
    cells: Seq<Seq<char>>,
    value: Seq<u8>,
)
    requires
        forall|i: int| 0 <= i < cells.len() ==> is_geohash(#[trigger] cells[i]),
    ensures
        ({
            let m2 = apply_ops(m, delete_ops(id, cells), id, value);
            &&& !m2.contains_key(subscription_key_of(id))
            &&& forall|g: Seq<char>| #[trigger] cells.contains(g) ==> !m2.contains_key(bucket_key_of(g, id))
            &&& forall|g: Seq<char>| #[trigger] cells.contains(g) ==> !lists_id(m2, index_key_of(g), id)
        }),
{
    let ops = delete_ops(id, cells);
    lemma_delete_cell_ops(id, cells);
    let n = cells.len() as int;
    let sk = subscription_key_of(id);
    assert forall|i: int| 0 <= i < ops.len() && op_key(#[trigger] ops[i]) == sk implies ops[i] == OpView::Remove(sk) by {
        if i < 2 * n {
            let c = cells[i / 2];
            lemma_key_kinds(id, c, c, id);
        }
    }
    assert(op_key(ops[2 * n]) == sk);
    lemma_only_removes(m, ops, id, value, sk);
    assert forall|g: Seq<char>| #[trigger] cells.contains(g) implies !apply_ops(m, ops, id, value).contains_key(
        bucket_key_of(g, id),
    ) by {
        let k = bucket_key_of(g, id);
        let j = choose|j: int| 0 <= j < cells.len() && cells[j] == g;
        lemma_geohash_colon_free(g);
        assert forall|i: int| 0 <= i < ops.len() && op_key(#[trigger] ops[i]) == k implies ops[i] == OpView::Remove(k) by {
            if i < 2 * n {
                let c = cells[i / 2];
                lemma_geohash_colon_free(c);
                if i % 2 == 0 {
                    lemma_key_kinds(id, c, g, id);
                } else {
                    lemma_bucket_keys_distinct(c, id, g, id);
                }
            } else {
                lemma_key_kinds(id, g, g, id);
            }
        }
        assert(op_key(ops[2 * j + 1]) == k);
        lemma_only_removes(m, ops, id, value, k);
    }
    assert forall|g: Seq<char>| #[trigger] cells.contains(g) implies !lists_id(
        apply_ops(m, ops, id, value),
        index_key_of(g),
        id,
    ) by {
        let k = index_key_of(g);
        let j = choose|j: int| 0 <= j < cells.len() && cells[j] == g;
        assert forall|i: int| 0 <= i < ops.len() && op_key(#[trigger] ops[i]) == k implies ops[i]
            == OpView::RemoveFromIndex(k) by {
            if i < 2 * n {
                let c = cells[i / 2];
                if i % 2 == 1 {
                    lemma_key_kinds(id, g, c, id);
                }
            } else {
                lemma_key_kinds(id, g, g, id);
            }
        }
        assert(op_key(ops[2 * j]) == k);
        lemma_only_index_removes(m, ops, id, value, k);
    }
}

/// A key of subscription `other` in the model: its own key, or its entry
/// in the bucket of a GeoHash cell.
pub open spec fn key_of_other(k: Seq<char>, other: Seq<char>) -> bool {
    ||| k == subscription_key_of(other)
    ||| exists|g: Seq<char>| is_geohash(g) && k == #[trigger] bucket_key_of(g, other)
}

/// The key of an upsert or delete write of `id`: a legacy list key, a
/// bucket key of `id` in a colon-free cell, or the key of `id`.
spec fn own_write(op: OpView, id: Seq<char>) -> bool {
    ||| exists|g: Seq<char>| op_key(op) == #[trigger] index_key_of(g)
    ||| exists|c: Seq<char>| colon_free(c) && op_key(op) == #[trigger] bucket_key_of(c, id)
    ||| op_key(op) == subscription_key_of(id)
}

/// A write of `id` never touches a key of another subscription.
proof fn lemma_own_write_misses_other(op: OpView, id: Seq<char>, other: Seq<char>, k: Seq<char>)
    requires
        own_write(op, id),
        key_of_other(k, other),
        other != id,
    ensures
        op_key(op) != k,
{
    if op_key(op) == k {
        if k == subscription_key_of(other) {
            if exists|g: Seq<char>| op_key(op) == #[trigger] index_key_of(g) {
                let g = choose|g: Seq<char>| op_key(op) == #[trigger] index_key_of(g);
                lemma_key_kinds(other, g, g, other);
            } else if exists|c: Seq<char>| colon_free(c) && op_key(op) == #[trigger] bucket_key_of(c, id) {
                let c = choose|c: Seq<char>| colon_free(c) && op_key(op) == #[trigger] bucket_key_of(c, id);
                lemma_key_kinds(other, c, c, id);
            } else {
                lemma_subscription_keys_distinct(id, other);
            }
        } else {
            let h = choose|g: Seq<char>| is_geohash(g) && k == #[trigger] bucket_key_of(g, other);
            lemma_geohash_colon_free(h);
            if exists|g: Seq<char>| op_key(op) == #[trigger] index_key_of(g) {
                let g = choose|g: Seq<char>| op_key(op) == #[trigger] index_key_of(g);
                lemma_key_kinds(other, g, h, other);
            } else if exists|c: Seq<char>| colon_free(c) && op_key(op) == #[trigger] bucket_key_of(c, id) {
                let c = choose|c: Seq<char>| colon_free(c) && op_key(op) == #[trigger] bucket_key_of(c, id);
                lemma_bucket_keys_distinct(c, id, h, other);
            } else {
                lemma_key_kinds(id, h, h, other);
            }
        }
    }
}

/// Storing subscription `id` leaves every key of every other subscription
/// as it was: its own key and its entries in the buckets of all cells.
pub proof fn lemma_upsert_isolation(
    m: Map<Seq<char>, Entry>,
    id: Seq<char>,
    old: Seq<Seq<char>>,
    new: Seq<Seq<char>>,
    value: Seq<u8>,
    other: Seq<char>,
    k: Seq<char>,
)
    requires
        forall|i: int| 0 <= i < old.len() ==> is_geohash(#[trigger] old[i]),
        forall|i: int| 0 <= i < new.len() ==> is_geohash(#[trigger] new[i]),
        other != id,
        key_of_other(k, other),
    ensures
        same_at(m, apply_ops(m, upsert_ops(id, old, new), id, value), k),
{
    let ops = upsert_ops(id, old, new);
    let left = cells_left(old, new);
    lemma_cells_left(old, new);
    let a = old.len() as int;
    let b = a + left.len();
    assert forall|i: int| 0 <= i < ops.len() implies op_key(#[trigger] ops[i]) != k by {
        if i < a {
            assert(op_key(ops[i]) == index_key_of(old[i]));
        } else if i < b {
            let c = left[i - a];
            assert(old.contains(c));
            let j = choose|j: int| 0 <= j < old.len() && old[j] == c;
            lemma_geohash_colon_free(c);
            assert(op_key(ops[i]) == bucket_key_of(c, id));
        } else if i > b {
            let c = new[i - b - 1];
            lemma_geohash_colon_free(c);
            assert(op_key(ops[i]) == bucket_key_of(c, id));
        }
        lemma_own_write_misses_other(ops[i], id, other, k);
    }
    lemma_untouched(m, ops, id, value, k);
}

/// Deleting subscription `id` leaves every key of every other subscription
/// as it was.
pub proof fn lemma_delete_isolation(
    m: Map<Seq<char>, Entry>,
    id: Seq<char>,
    cells: Seq<Seq<char>>,
    value: Seq<u8>,
    other: Seq<char>,
    k: Seq<char>,
)
    requires
        forall|i: int| 0 <= i < cells.len() ==> is_geohash(#[trigger] cells[i]),
        other != id,
        key_of_other(k, other),
    ensures
        same_at(m, apply_ops(m, delete_ops(id, cells), id, value), k),
{
    let ops = delete_ops(id, cells);
    lemma_delete_cell_ops(id, cells);
    let n = cells.len() as int;
    assert forall|i: int| 0 <= i < ops.len() implies op_key(#[trigger] ops[i]) != k by {
        if i < 2 * n {
            let c = cells[i / 2];
            lemma_geohash_colon_free(c);
            if i % 2 == 0 {
                assert(op_key(ops[i]) == index_key_of(c));
            } else {
                assert(op_key(ops[i]) == bucket_key_of(c, id));
            }
        }
        lemma_own_write_misses_other(ops[i], id, other, k);
    }
    lemma_untouched(m, ops, id, value, k);
}

/// The per-cell writes of a delete, by place: two per cell.
proof fn lemma_delete_cell_ops(id: Seq<char>, cells: Seq<Seq<char>>)
    ensures
        delete_cell_ops(id, cells).len() == 2 * cells.len(),
        forall|i: int|
            0 <= i < cells.len() ==> delete_cell_ops(id, cells)[2 * i] == OpView::RemoveFromIndex(
                index_key_of(#[trigger] cells[i]),
            ) && delete_cell_ops(id, cells)[2 * i + 1] == OpView::Remove(bucket_key_of(cells[i], id)),
    decreases cells.len(),
{
    if cells.len() > 0 {
        let p = cells.drop_last();
        lemma_delete_cell_ops(id, p);
        assert forall|i: int| 0 <= i < cells.len() implies delete_cell_ops(id, cells)[2 * i]
            == OpView::RemoveFromIndex(index_key_of(#[trigger] cells[i])) && delete_cell_ops(id, cells)[2
            * i + 1] == OpView::Remove(bucket_key_of(cells[i], id)) by {
            if i < p.len() {
                assert(cells[i] == p[i]);
            }
        }
    }
}

} // verus!
