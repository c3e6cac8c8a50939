use vstd::prelude::*;
use vstd::string::StringExecFns;
use crate::aggregate::{child_filter, items_where};
use crate::attr::{item_sk, item_tag, FlatItem, FlatItemView};
use crate::clock::mint_timestamp;
use crate::error::CoreError;
use crate::fanout::{plan_document_write, spec_doc_raw_id, spec_group_item, spec_group_blocks, spec_nested_note_item, spec_plan_items};
use crate::keys::{document_sort_key, group_sort_key};
use crate::notes::{
    build_note_item, opt_item_view, resolve_note_parent, spec_note_write_item,
    spec_resolve_note_parent,
};
use crate::requests::{DocumentReq, GroupReq, NoteReq};

verus! {

broadcast use vstd::seq::group_seq_axioms;

// A verified in-memory model of the storage gateway contract the
// projection engine is written against: full-table scan, point read,
// query by partition with an exact-match parent filter, single-item
// upsert, and an all-or-nothing multi-item write. The write-side laws
// and the tests run against this model; production code runs the same
// core against a remote store satisfying the same contract.

/// The key locating an item in the table, when the item carries one.
pub open spec fn item_key(i: FlatItemView) -> Option<(Seq<char>, Seq<char>)> {
    match (item_tag(i), item_sk(i)) {
        (Some(t), Some(s)) => Some((t, s)),
        _ => None,
    }
}

/// One upsert: the first row with the item's key is replaced; with no
/// such row the item is appended.
pub open spec fn spec_put(rows: Seq<FlatItemView>, item: FlatItemView) -> Seq<FlatItemView>
    decreases rows.len(),
{
    if rows.len() == 0 {
        seq![item]
    } else if item_key(rows[0]) == item_key(item) {
        seq![item] + rows.drop_first()
    } else {
        seq![rows[0]] + spec_put(rows.drop_first(), item)
    }
}

/// A point read: the first row keyed `(tag, sk)`, if any.
pub open spec fn spec_get(rows: Seq<FlatItemView>, tag: Seq<char>, sk: Seq<char>) -> Option<
    FlatItemView,
>
    decreases rows.len(),
{
    if rows.len() == 0 {
        None
    } else if item_key(rows[0]) == Some((tag, sk)) {
        Some(rows[0])
    } else {
        spec_get(rows.drop_first(), tag, sk)
    }
}

/// The first `n` items upserted in order.
pub open spec fn spec_put_all(
    rows: Seq<FlatItemView>,
    items: Seq<FlatItemView>,
    n: int,
) -> Seq<FlatItemView>
    decreases n,
{
    if n <= 0 {
        rows
    } else {
        spec_put(spec_put_all(rows, items, n - 1), items[n - 1])
    }
}

proof fn lemma_spec_put_update(rows: Seq<FlatItemView>, item: FlatItemView, m: int)
    requires
        0 <= m < rows.len(),
        item_key(rows[m]) == item_key(item),
        forall|j: int| 0 <= j < m ==> item_key(#[trigger] rows[j]) != item_key(item),
    ensures
        spec_put(rows, item) == rows.update(m, item),
    decreases m,
{
    if m == 0 {
        assert(seq![item] + rows.drop_first() =~= rows.update(0, item));
    } else {
        assert(rows.drop_first()[m - 1] == rows[m]);
        assert forall|j: int| 0 <= j < m - 1 implies item_key(#[trigger] rows.drop_first()[j])
            != item_key(item) by {
            assert(rows.drop_first()[j] == rows[j + 1]);
        }
        lemma_spec_put_update(rows.drop_first(), item, m - 1);
        assert(seq![rows[0]] + rows.drop_first().update(m - 1, item) =~= rows.update(m, item));
    }
}

/// Upserting an item whose key no row carries appends it.
pub proof fn lemma_put_fresh_key_appends(rows: Seq<FlatItemView>, item: FlatItemView)
    requires
        forall|j: int| 0 <= j < rows.len() ==> item_key(#[trigger] rows[j]) != item_key(item),
    ensures
        spec_put(rows, item) == rows.push(item),
    decreases rows.len(),
{
    if rows.len() == 0 {
        assert(seq![item] =~= rows.push(item));
    } else {
        assert forall|j: int| 0 <= j < rows.drop_first().len() implies item_key(
            #[trigger] rows.drop_first()[j],
        ) != item_key(item) by {
            assert(rows.drop_first()[j] == rows[j + 1]);
        }
        lemma_put_fresh_key_appends(rows.drop_first(), item);
        assert(seq![rows[0]] + rows.drop_first().push(item) =~= rows.push(item));
    }
}

proof fn lemma_spec_get_found(rows: Seq<FlatItemView>, tag: Seq<char>, sk: Seq<char>, m: int)
    requires
        0 <= m < rows.len(),
        item_key(rows[m]) == Some((tag, sk)),
        forall|j: int| 0 <= j < m ==> item_key(#[trigger] rows[j]) != Some((tag, sk)),
    ensures
        spec_get(rows, tag, sk) == Some(rows[m]),
    decreases m,
{
    if m > 0 {
        assert(rows.drop_first()[m - 1] == rows[m]);
        assert forall|j: int| 0 <= j < m - 1 implies item_key(#[trigger] rows.drop_first()[j])
            != Some((tag, sk)) by {
            assert(rows.drop_first()[j] == rows[j + 1]);
        }
        lemma_spec_get_found(rows.drop_first(), tag, sk, m - 1);
    }
}

pub proof fn lemma_spec_get_missing(rows: Seq<FlatItemView>, tag: Seq<char>, sk: Seq<char>)
    requires
        forall|j: int| 0 <= j < rows.len() ==> item_key(#[trigger] rows[j]) != Some((tag, sk)),
    ensures
        spec_get(rows, tag, sk) is None,
    decreases rows.len(),
{
    if rows.len() > 0 {
        assert forall|j: int| 0 <= j < rows.drop_first().len() implies item_key(
            #[trigger] rows.drop_first()[j],
        ) != Some((tag, sk)) by {
            assert(rows.drop_first()[j] == rows[j + 1]);
        }
        lemma_spec_get_missing(rows.drop_first(), tag, sk);
    }
}

fn has_key(row: &FlatItem, tag: &String, sk: &String) -> (r: bool)
    ensures
        r == (item_key(row@) == Some((tag@, sk@))),
{
    match (row.pk_str(), row.sk_str()) {
        (Some(p), Some(s)) => *p == *tag && *s == *sk,
        _ => false,
    }
}

fn same_key(row: &FlatItem, item: &FlatItem) -> (r: bool)
    requires
        item_key(item@) is Some,
    ensures
        r == (item_key(row@) == item_key(item@)),
{
    match (item.pk_str(), item.sk_str()) {
        (Some(ip), Some(is)) => match (row.pk_str(), row.sk_str()) {
            (Some(rp), Some(rs)) => *rp == *ip && *rs == *is,
            _ => false,
        },
        _ => {
            proof {
                assert(false);
            }
            false
        },
    }
}

/// The in-memory table: an unordered collection of flat items, observed
/// through scan, point reads and partition queries.
pub struct Table {
    pub rows: Vec<FlatItem>,
}

impl Table {
    /// An empty table.
    pub fn new() -> (r: Table)
        ensures
            r.rows.deep_view() == Seq::<FlatItemView>::empty(),
    {
        let rows: Vec<FlatItem> = Vec::new();
        proof {
            assert(rows.deep_view() =~= Seq::<FlatItemView>::empty());
        }
        Table { rows }
    }

    /// The full-table scan: every row, in insertion order.
    pub fn scan(&self) -> (r: &Vec<FlatItem>)
        ensures
            r == &self.rows,
    {
        &self.rows
    }

    /// The single-item upsert: the row keyed as `item` is replaced, or
    /// the item is appended when its key is new.
    pub fn put_item(&mut self, item: FlatItem)
        requires
            item_key(item@) is Some,
        ensures
            final(self).rows.deep_view() == spec_put(old(self).rows.deep_view(), item@),
    {
        let ghost rv = self.rows.deep_view();
        let mut m: usize = 0;
        while m < self.rows.len()
            invariant
                0 <= m <= self.rows@.len(),
                self == old(self),
                rv == self.rows.deep_view(),
                rv.len() == self.rows@.len(),
                item_key(item@) is Some,
                forall|j: int| 0 <= j < m ==> item_key(#[trigger] rv[j]) != item_key(item@),
            decreases self.rows@.len() - m,
        {
            let hit = same_key(&self.rows[m], &item);
            proof {
                assert(self.rows@[m as int]@ == rv[m as int]);
            }
            if hit {
                let ghost iv = item@;
                proof {
                    lemma_spec_put_update(rv, iv, m as int);
                }
                self.rows.set(m, item);
                proof {
                    assert(self.rows.deep_view() =~= rv.update(m as int, iv));
                }
                return;
            }
            m += 1;
        }
        let ghost iv = item@;
        proof {
            lemma_put_fresh_key_appends(rv, iv);
        }
        self.rows.push(item);
        proof {
            assert(self.rows.deep_view() =~= rv.push(iv));
        }
    }

    /// The point read: the row keyed `(tag, sk)`, if any.
    pub fn get_item(&self, tag: &String, sk: &String) -> (r: Option<&FlatItem>)
        ensures
            match r {
                Some(x) => spec_get(self.rows.deep_view(), tag@, sk@) == Some(x@),
                None => spec_get(self.rows.deep_view(), tag@, sk@) is None,
            },
    {
        let ghost rv = self.rows.deep_view();
        let mut m: usize = 0;
        while m < self.rows.len()
            invariant
                0 <= m <= self.rows@.len(),
                rv == self.rows.deep_view(),
                rv.len() == self.rows@.len(),
                forall|j: int| 0 <= j < m ==> item_key(#[trigger] rv[j]) != Some((tag@, sk@)),
            decreases self.rows@.len() - m,
        {
            let hit = has_key(&self.rows[m], tag, sk);
            proof {
                assert(self.rows@[m as int]@ == rv[m as int]);
            }
            if hit {
                proof {
                    lemma_spec_get_found(rv, tag@, sk@, m as int);
                }
                return Some(&self.rows[m]);
            }
            m += 1;
        }
        proof {
            lemma_spec_get_missing(rv, tag@, sk@);
        }
        None
    }

    /// The partition query with an exact-match parent filter: every row
    /// of the partition `tag` whose parent pointer equals `parent`, in
    /// insertion order.
    pub fn query(&self, tag: &String, parent: &String) -> (r: Vec<FlatItem>)
        ensures
            r.deep_view() == items_where(self.rows.deep_view(), child_filter(tag@, parent@)),
    {
        let ghost rv = self.rows.deep_view();
        let ghost f = child_filter(tag@, parent@);
        let mut out: Vec<FlatItem> = Vec::new();
        let mut m: usize = 0;
        proof {
            assert(out.deep_view() =~= items_where(rv.take(0), f));
        }
        while m < self.rows.len()
            invariant
                0 <= m <= self.rows@.len(),
                rv == self.rows.deep_view(),
                rv.len() == self.rows@.len(),
                f == child_filter(tag@, parent@),
                out.deep_view() == items_where(rv.take(m as int), f),
            decreases self.rows@.len() - m,
        {
            let row = &self.rows[m];
            proof {
                assert(row@ == rv[m as int]);
                assert(rv.take(m as int + 1).drop_last() =~= rv.take(m as int));
                assert(rv.take(m as int + 1).last() == rv[m as int]);
            }
            let ghost before = out.deep_view();
            let tag_hit = match row.pk_str() {
                Some(p) => *p == *tag,
                None => false,
            };
            let par_hit = match row.parent_str() {
                Some(p) => *p == *parent,
                None => false,
            };
            if tag_hit && par_hit {
                out.push(row.duplicate());
                proof {
                    assert(f(rv[m as int]));
                    assert(out.deep_view() =~= before.push(rv[m as int]));
                }
            } else {
                proof {
                    assert(!f(rv[m as int]));
                }
            }
            m += 1;
        }
        proof {
            assert(rv.take(rv.len() as int) =~= rv);
        }
        out
    }

    /// The all-or-nothing multi-item write. `commit` stands for the
    /// store's acceptance of the transaction: when it is withheld (a
    /// rejected or interrupted transaction), the table is left exactly
    /// as it was and `Transaction` is returned; when given, every item
    /// is upserted, in order.
    pub fn transact_put(&mut self, items: &Vec<FlatItem>, commit: bool) -> (r: Result<
        (),
        CoreError,
    >)
        requires
            forall|k: int|
                0 <= k < items.deep_view().len() ==> item_key(
                    #[trigger] items.deep_view()[k],
                ) is Some,
        ensures
            commit ==> r is Ok && final(self).rows.deep_view() == spec_put_all(
                old(self).rows.deep_view(),
                items.deep_view(),
                items.deep_view().len() as int,
            ),
            !commit ==> r == Err::<(), CoreError>(CoreError::Transaction) && *final(self) == *old(
                self,
            ),
    {
        if !commit {
            return Err(CoreError::Transaction);
        }
        let ghost rows0 = self.rows.deep_view();
        let ghost itv = items.deep_view();
        let mut k: usize = 0;
        while k < items.len()
            invariant
                0 <= k <= items@.len(),
                itv == items.deep_view(),
                itv.len() == items@.len(),
                forall|j: int| 0 <= j < itv.len() ==> item_key(#[trigger] itv[j]) is Some,
                self.rows.deep_view() == spec_put_all(rows0, itv, k as int),
            decreases items@.len() - k,
        {
            let item = items[k].duplicate();
            proof {
                assert(items@[k as int]@ == itv[k as int]);
            }
            self.put_item(item);
            k += 1;
        }
        Ok(())
    }
}

proof fn lemma_group_blocks_keyed(gs: Seq<GroupReq>, t: i64, n: int)
    ensures
        forall|m: int|
            0 <= m < spec_group_blocks(gs, t, n).len() ==> item_key(
                #[trigger] spec_group_blocks(gs, t, n)[m],
            ) is Some,
    decreases n,
{
    if n > 0 {
        lemma_group_blocks_keyed(gs, t, n - 1);
        let pre = spec_group_blocks(gs, t, n - 1);
        let blk = crate::fanout::spec_group_block(gs[n - 1], t, n - 1);
        assert forall|m: int| 0 <= m < spec_group_blocks(gs, t, n).len() implies item_key(
            #[trigger] spec_group_blocks(gs, t, n)[m],
        ) is Some by {
            if m < pre.len() {
                assert(spec_group_blocks(gs, t, n)[m] == pre[m]);
            } else {
                assert(spec_group_blocks(gs, t, n)[m] == blk[m - pre.len()]);
                if m - pre.len() == 0 {
                    assert(blk[0] == spec_group_item(gs[n - 1], t, n - 1));
                } else {
                    let k = m - pre.len() - 1;
                    assert(blk[k + 1] == spec_nested_note_item(
                        gs[n - 1].notes@[k],
                        t,
                        n - 1,
                        k,
                    ));
                }
            }
        }
    }
}

/// Every item of a document write plan carries a key.
pub proof fn lemma_plan_items_keyed(req: DocumentReq, t: i64)
    ensures
        forall|m: int|
            0 <= m < spec_plan_items(req, t).len() ==> item_key(
                #[trigger] spec_plan_items(req, t)[m],
            ) is Some,
{
    let n = req.groups@.len() as int;
    lemma_group_blocks_keyed(req.groups@, t, n);
    assert forall|m: int| 0 <= m < spec_plan_items(req, t).len() implies item_key(
        #[trigger] spec_plan_items(req, t)[m],
    ) is Some by {
        if m == 0 {
            assert(spec_plan_items(req, t)[0] == crate::fanout::spec_document_item(req, t));
        } else {
            assert(spec_plan_items(req, t)[m] == spec_group_blocks(req.groups@, t, n)[m - 1]);
        }
    }
}

/// Persists one document request into the table: mints a creation
/// timestamp, fans the request out into its flat items and submits them
/// as one atomic write. Returns the minted document identity. The
/// document and its groups and notes become observable together or not
/// at all.
pub fn persist_document(table: &mut Table, req: &DocumentReq) -> (r: Result<String, CoreError>)
    ensures
        match r {
            Ok(id) => exists|t: i64|
                final(table).rows.deep_view() == spec_put_all(
                    old(table).rows.deep_view(),
                    spec_plan_items(*req, t),
                    spec_plan_items(*req, t).len() as int,
                ) && id@ == #[trigger] spec_doc_raw_id(t),
            Err(_) => false,
        },
{
    let t = mint_timestamp();
    let (items, id) = plan_document_write(req, t);
    proof {
        lemma_plan_items_keyed(*req, t);
    }
    let ghost rows0 = table.rows.deep_view();
    match table.transact_put(&items, true) {
        Ok(_) => {
            proof {
                assert(table.rows.deep_view() == spec_put_all(
                    rows0,
                    spec_plan_items(*req, t),
                    spec_plan_items(*req, t).len() as int,
                ));
                assert(id@ == spec_doc_raw_id(t));
            }
            Ok(id)
        },
        Err(e) => {
            proof {
                assert(false);
            }
            Err(e)
        },
    }
}

/// The outcome of the referential check of a note write against the
/// table: the targeted document and group are fetched by their keys and
/// held to [`spec_resolve_note_parent`].
pub open spec fn spec_note_target(
    rows: Seq<FlatItemView>,
    doc_id: Seq<char>,
    group_id: Seq<char>,
) -> Result<Seq<char>, CoreError> {
    spec_resolve_note_parent(
        spec_get(rows, crate::aggregate::document_tag(), crate::keys::spec_document_prefix() + doc_id),
        spec_get(rows, crate::aggregate::group_tag(), crate::keys::spec_group_prefix() + group_id),
    )
}

/// Persists one note under an existing document and group: fetches both
/// by identity, verifies that the group belongs to the document, then
/// writes the note item, its parent pointer naming the group. Fails with
/// `NotFound` when either target is absent, `Integrity` when the group
/// belongs to another document, `MalformedItem` when a fetched item is
/// unreadable; the table is then left unchanged. The read-then-write
/// sequence carries no optimistic lock: a concurrent writer may change
/// the targets between the checks and the write, a documented limit of
/// the design.
pub fn persist_note(table: &mut Table, doc_id: &str, group_id: &str, req: &NoteReq) -> (r: Result<
    (),
    CoreError,
>)
    ensures
        (spec_note_target(old(table).rows.deep_view(), doc_id@, group_id@) matches Err(e) ==> r
            == Err::<(), CoreError>(e) && *final(table) == *old(table)),
        (spec_note_target(old(table).rows.deep_view(), doc_id@, group_id@) matches Ok(parent)
            ==> r is Ok && exists|t: i64|
            final(table).rows.deep_view() =~= spec_put(
                old(table).rows.deep_view(),
                #[trigger] spec_note_write_item(*req, parent, t),
            )),
{
    let ghost rows0 = table.rows.deep_view();
    let ghost fd = spec_get(
        rows0,
        crate::aggregate::document_tag(),
        crate::keys::spec_document_prefix() + doc_id@,
    );
    let ghost fg = spec_get(
        rows0,
        crate::aggregate::group_tag(),
        crate::keys::spec_group_prefix() + group_id@,
    );
    let doc_tag_s = String::from_str("document");
    let group_tag_s = String::from_str("group");
    let dsk = document_sort_key(doc_id);
    let gsk = group_sort_key(group_id);
    let found_doc = table.get_item(&doc_tag_s, &dsk);
    let found_group = table.get_item(&group_tag_s, &gsk);
    proof {
        assert(opt_item_view(found_doc) == fd);
        assert(opt_item_view(found_group) == fg);
    }
    let parent = match resolve_note_parent(found_doc, found_group) {
        Ok(p) => p,
        Err(e) => {
            proof {
                assert(spec_note_target(rows0, doc_id@, group_id@) == Err::<Seq<char>, CoreError>(
                    e,
                ));
            }
            return Err(e);
        },
    };
    let ghost pv = parent@;
    proof {
        assert(spec_note_target(rows0, doc_id@, group_id@) == Ok::<Seq<char>, CoreError>(pv));
    }
    let t = mint_timestamp();
    let item = build_note_item(req, &parent, t);
    proof {
        assert(item_key(item@) is Some);
    }
    table.put_item(item);
    proof {
        assert(rows0 == old(table).rows.deep_view());
        assert(table.rows.deep_view() == spec_put(rows0, spec_note_write_item(*req, pv, t)));
        let parent2 = spec_note_target(rows0, doc_id@, group_id@)->Ok_0;
        assert(parent2 == pv);
        assert(exists|t2: i64|
            table.rows.deep_view() =~= spec_put(
                rows0,
                #[trigger] spec_note_write_item(*req, parent2, t2),
            )) by {
            assert(table.rows.deep_view() =~= spec_put(rows0, spec_note_write_item(*req, parent2, t)));
        }
    }
    Ok(())
}

} // verus!
