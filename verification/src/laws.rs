use vstd::prelude::*;
use crate::aggregate::{
    child_filter, doc_filter, doc_items, document_tag, group_children, group_tag, is_document_item,
    is_group_item, item_ok, items_where, lemma_tags_distinct, note_children, note_tag,
    spec_aggregate, spec_aggregate_one, spec_assemble_document, spec_assemble_documents,
    spec_assemble_group, spec_assemble_groups, spec_decode_notes, tags_ok,
};
use crate::attr::{item_parent, item_sk, FlatItemView};
use crate::entities::{
    spec_decode_document, spec_decode_group, spec_decode_note, DocumentView, GroupView, NoteView,
};
use crate::error::CoreError;
use crate::fanout::{
    spec_doc_sk, spec_document_item, spec_group_block, spec_group_blocks, spec_group_item,
    spec_group_raw_id, spec_group_sk, spec_nested_note_item, spec_note_items, spec_plan_items,
};
use crate::fanout::{spec_note_raw_id, spec_note_sk};
use crate::keys::{lemma_append_cancel, lemma_udec_injective, spec_idec, spec_udec};
use crate::store::{item_key, spec_put_all};
use crate::requests::{DocumentReq, GroupReq, NoteReq};

verus! {

broadcast use vstd::seq::group_seq_axioms;

// The laws tying the write-side fan-out to the read-side aggregator.
// Each is stated over the same spec functions that the executable
// functions' contracts use, so what is proved here holds of the code.

proof fn lemma_items_where_add(a: Seq<FlatItemView>, b: Seq<FlatItemView>, f: spec_fn(FlatItemView) -> bool)
    ensures
        items_where(a + b, f) == items_where(a, f) + items_where(b, f),
    decreases b.len(),
{
    if b.len() == 0 {
        assert(a + b =~= a);
        assert(items_where(a, f) + items_where(b, f) =~= items_where(a, f));
    } else {
        lemma_items_where_add(a, b.drop_last(), f);
        assert((a + b).drop_last() =~= a + b.drop_last());
        assert((a + b).last() == b.last());
        if f(b.last()) {
            assert(items_where(a, f) + items_where(b.drop_last(), f).push(b.last()) =~= (
            items_where(a, f) + items_where(b.drop_last(), f)).push(b.last()));
        }
    }
}

proof fn lemma_items_where_none(s: Seq<FlatItemView>, f: spec_fn(FlatItemView) -> bool)
    requires
        forall|j: int| 0 <= j < s.len() ==> !f(#[trigger] s[j]),
    ensures
        items_where(s, f) == Seq::<FlatItemView>::empty(),
    decreases s.len(),
{
    if s.len() > 0 {
        assert forall|j: int| 0 <= j < s.drop_last().len() implies !f(
            #[trigger] s.drop_last()[j],
        ) by {
            assert(s.drop_last()[j] == s[j]);
        }
        lemma_items_where_none(s.drop_last(), f);
        assert(!f(s.last()));
    }
}

proof fn lemma_items_where_all(s: Seq<FlatItemView>, f: spec_fn(FlatItemView) -> bool)
    requires
        forall|j: int| 0 <= j < s.len() ==> f(#[trigger] s[j]),
    ensures
        items_where(s, f) == s,
    decreases s.len(),
{
    if s.len() > 0 {
        assert forall|j: int| 0 <= j < s.drop_last().len() implies f(
            #[trigger] s.drop_last()[j],
        ) by {
            assert(s.drop_last()[j] == s[j]);
        }
        lemma_items_where_all(s.drop_last(), f);
        assert(f(s.last()));
        assert(s.drop_last().push(s.last()) =~= s);
    }
}

proof fn lemma_items_where_single(x: FlatItemView, f: spec_fn(FlatItemView) -> bool)
    ensures
        f(x) ==> items_where(seq![x], f) == seq![x],
        !f(x) ==> items_where(seq![x], f) == Seq::<FlatItemView>::empty(),
{
    assert(seq![x].drop_last() =~= Seq::<FlatItemView>::empty());
    assert(seq![x].last() == x);
    assert(items_where(Seq::<FlatItemView>::empty(), f) == Seq::<FlatItemView>::empty());
    assert(items_where(seq![x].drop_last(), f) == Seq::<FlatItemView>::empty());
    if f(x) {
        assert(items_where(seq![x], f) == items_where(seq![x].drop_last(), f).push(x));
        assert(Seq::<FlatItemView>::empty().push(x) =~= seq![x]);
    } else {
        assert(items_where(seq![x], f) == items_where(seq![x].drop_last(), f));
    }
}

/// Two distinct group positions of one write get distinct sort keys.
pub proof fn lemma_group_sk_injective(t: i64, i: int, j: int)
    requires
        0 <= i,
        0 <= j,
        i != j,
    ensures
        spec_group_sk(t, i) != spec_group_sk(t, j),
{
    if spec_group_sk(t, i) == spec_group_sk(t, j) {
        lemma_append_cancel(
            crate::keys::spec_group_prefix(),
            spec_group_raw_id(t, i),
            spec_group_raw_id(t, j),
        );
        lemma_append_cancel(
            spec_idec(t as int) + seq!['-'],
            spec_udec(i as nat),
            spec_udec(j as nat),
        );
        lemma_udec_injective(i as nat, j as nat);
    }
}

proof fn lemma_blocks_tags(gs: Seq<GroupReq>, t: i64, n: int)
    ensures
        forall|m: int|
            0 <= m < spec_group_blocks(gs, t, n).len() ==> item_ok(
                #[trigger] spec_group_blocks(gs, t, n)[m],
            ) && !is_document_item(spec_group_blocks(gs, t, n)[m]),
    decreases n,
{
    lemma_tags_distinct();
    if n > 0 {
        lemma_blocks_tags(gs, t, n - 1);
        let pre = spec_group_blocks(gs, t, n - 1);
        let blk = spec_group_block(gs[n - 1], t, n - 1);
        assert forall|m: int| 0 <= m < spec_group_blocks(gs, t, n).len() implies item_ok(
            #[trigger] spec_group_blocks(gs, t, n)[m],
        ) && !is_document_item(spec_group_blocks(gs, t, n)[m]) by {
            if m < pre.len() {
                assert(spec_group_blocks(gs, t, n)[m] == pre[m]);
            } else {
                assert(spec_group_blocks(gs, t, n)[m] == blk[m - pre.len()]);
                if m - pre.len() == 0 {
                    assert(blk[0] == spec_group_item(gs[n - 1], t, n - 1));
                } else {
                    let k = m - pre.len() - 1;
                    assert(blk[k + 1] == spec_nested_note_item(gs[n - 1].notes@[k], t, n - 1, k));
                }
            }
        }
    }
}

/// The group items of the first `n` groups, in order.
pub open spec fn group_items_upto(gs: Seq<GroupReq>, t: i64, n: int) -> Seq<FlatItemView>
    decreases n,
{
    if n <= 0 {
        Seq::empty()
    } else {
        group_items_upto(gs, t, n - 1).push(spec_group_item(gs[n - 1], t, n - 1))
    }
}

proof fn lemma_blocks_group_children(gs: Seq<GroupReq>, t: i64, n: int)
    ensures
        items_where(spec_group_blocks(gs, t, n), child_filter(group_tag(), spec_doc_sk(t)))
            == group_items_upto(gs, t, n),
    decreases n,
{
    lemma_tags_distinct();
    let f = child_filter(group_tag(), spec_doc_sk(t));
    if n <= 0 {
        assert(items_where(spec_group_blocks(gs, t, n), f) =~= group_items_upto(gs, t, n));
    } else {
        lemma_blocks_group_children(gs, t, n - 1);
        let pre = spec_group_blocks(gs, t, n - 1);
        let g = gs[n - 1];
        let gi = spec_group_item(g, t, n - 1);
        let notes = spec_note_items(g, t, n - 1);
        lemma_items_where_add(pre, spec_group_block(g, t, n - 1), f);
        lemma_items_where_add(seq![gi], notes, f);
        lemma_items_where_single(gi, f);
        assert(f(gi));
        assert forall|j: int| 0 <= j < notes.len() implies !f(#[trigger] notes[j]) by {
            assert(notes[j] == spec_nested_note_item(g.notes@[j], t, n - 1, j));
        }
        lemma_items_where_none(notes, f);
        assert(items_where(spec_group_block(g, t, n - 1), f) =~= seq![gi]);
        assert(group_items_upto(gs, t, n - 1) + seq![gi] =~= group_items_upto(gs, t, n));
    }
}

proof fn lemma_blocks_note_children(gs: Seq<GroupReq>, t: i64, n: int, i: int)
    requires
        0 <= i,
    ensures
        items_where(spec_group_blocks(gs, t, n), child_filter(note_tag(), spec_group_sk(t, i)))
            == if i < n {
            spec_note_items(gs[i], t, i)
        } else {
            Seq::<FlatItemView>::empty()
        },
    decreases n,
{
    lemma_tags_distinct();
    let f = child_filter(note_tag(), spec_group_sk(t, i));
    if n <= 0 {
        assert(items_where(spec_group_blocks(gs, t, n), f) =~= Seq::<FlatItemView>::empty());
    } else {
        lemma_blocks_note_children(gs, t, n - 1, i);
        let pre = spec_group_blocks(gs, t, n - 1);
        let g = gs[n - 1];
        let gi = spec_group_item(g, t, n - 1);
        let notes = spec_note_items(g, t, n - 1);
        lemma_items_where_add(pre, spec_group_block(g, t, n - 1), f);
        lemma_items_where_add(seq![gi], notes, f);
        lemma_items_where_single(gi, f);
        assert(!f(gi));
        if i == n - 1 {
            assert forall|j: int| 0 <= j < notes.len() implies f(#[trigger] notes[j]) by {
                assert(notes[j] == spec_nested_note_item(g.notes@[j], t, n - 1, j));
            }
            lemma_items_where_all(notes, f);
            assert(items_where(spec_group_block(g, t, n - 1), f) =~= notes);
            assert(Seq::<FlatItemView>::empty() + notes =~= notes);
        } else {
            lemma_group_sk_injective(t, i, n - 1);
            assert forall|j: int| 0 <= j < notes.len() implies !f(#[trigger] notes[j]) by {
                assert(notes[j] == spec_nested_note_item(g.notes@[j], t, n - 1, j));
                assert(item_parent(notes[j]) == Some(spec_group_sk(t, n - 1)));
            }
            lemma_items_where_none(notes, f);
            if i < n - 1 {
                assert(spec_note_items(gs[i], t, i) + Seq::<FlatItemView>::empty()
                    =~= spec_note_items(gs[i], t, i));
            } else {
                assert(Seq::<FlatItemView>::empty() + Seq::<FlatItemView>::empty() =~= Seq::<
                    FlatItemView,
                >::empty());
            }
        }
    }
}

/// The note a round trip reproduces from one note request.
pub open spec fn spec_round_trip_note(n: NoteReq) -> NoteView {
    NoteView { title: n.title@, description: n.description@, created: n.created as int }
}

/// The group a round trip reproduces from one group request: its minted
/// sort key, the request's fields, and its notes in request order.
pub open spec fn spec_round_trip_group(g: GroupReq, t: i64, i: int) -> GroupView {
    GroupView {
        sk: spec_group_sk(t, i),
        title: g.title@,
        description: g.description@,
        created: g.created as int,
        notes: Seq::new(g.notes@.len(), |k: int| spec_round_trip_note(g.notes@[k])),
    }
}

/// The document a round trip reproduces from one document request: its
/// minted keys, the request's fields, and its groups in request order.
pub open spec fn spec_round_trip_document(req: DocumentReq, t: i64) -> DocumentView {
    DocumentView {
        pk: document_tag(),
        sk: spec_doc_sk(t),
        title: req.title@,
        description: req.description@,
        created: t as int,
        updated_by: req.updated_by@,
        groups: Seq::new(req.groups@.len(), |i: int| spec_round_trip_group(req.groups@[i], t, i)),
    }
}

proof fn lemma_decode_plan_notes(g: GroupReq, t: i64, i: int, m: int)
    requires
        0 <= m <= g.notes@.len(),
    ensures
        spec_decode_notes(spec_note_items(g, t, i).take(m)) == Some(
            Seq::new(g.notes@.len(), |k: int| spec_round_trip_note(g.notes@[k])).take(m),
        ),
    decreases m,
{
    let notes = spec_note_items(g, t, i);
    let expected = Seq::new(g.notes@.len(), |k: int| spec_round_trip_note(g.notes@[k]));
    if m == 0 {
        assert(notes.take(0) =~= Seq::<FlatItemView>::empty());
        assert(expected.take(0) =~= Seq::<NoteView>::empty());
    } else {
        lemma_decode_plan_notes(g, t, i, m - 1);
        assert(notes.take(m).drop_last() =~= notes.take(m - 1));
        assert(notes.take(m).last() == spec_nested_note_item(g.notes@[m - 1], t, i, m - 1));
        assert(spec_decode_note(notes.take(m).last()) == Some(spec_round_trip_note(
            g.notes@[m - 1],
        )));
        assert(expected.take(m - 1).push(expected[m - 1]) =~= expected.take(m));
    }
}

proof fn lemma_assemble_plan_group(req: DocumentReq, t: i64, i: int)
    requires
        0 <= i < req.groups@.len(),
    ensures
        spec_assemble_group(spec_plan_items(req, t), spec_group_item(req.groups@[i], t, i))
            == Some(spec_round_trip_group(req.groups@[i], t, i)),
{
    let plan = spec_plan_items(req, t);
    let gs = req.groups@;
    let g = gs[i];
    let gi = spec_group_item(g, t, i);
    let gv = spec_decode_group(gi)->0;
    lemma_tags_distinct();
    assert(spec_decode_group(gi) is Some);
    assert(gv.sk == spec_group_sk(t, i));
    let f = child_filter(note_tag(), spec_group_sk(t, i));
    lemma_items_where_add(seq![spec_document_item(req, t)], spec_group_blocks(gs, t, gs.len() as int), f);
    lemma_items_where_single(spec_document_item(req, t), f);
    assert(!f(spec_document_item(req, t)));
    lemma_blocks_note_children(gs, t, gs.len() as int, i);
    assert(note_children(plan, gv.sk) =~= spec_note_items(g, t, i));
    let notes = spec_note_items(g, t, i);
    lemma_decode_plan_notes(g, t, i, notes.len() as int);
    assert(notes.take(notes.len() as int) =~= notes);
    let expected = Seq::new(g.notes@.len(), |k: int| spec_round_trip_note(g.notes@[k]));
    assert(expected.take(expected.len() as int) =~= expected);
    assert(spec_decode_notes(notes) == Some(expected));
    assert(spec_assemble_group(plan, gi) == Some(GroupView { notes: expected, ..gv }));
    assert(GroupView { notes: expected, ..gv } == spec_round_trip_group(g, t, i));
}

proof fn lemma_assemble_plan_groups(req: DocumentReq, t: i64, m: int)
    requires
        0 <= m <= req.groups@.len(),
    ensures
        spec_assemble_groups(spec_plan_items(req, t), group_items_upto(req.groups@, t, m)) == Some(
            Seq::new(
                req.groups@.len(),
                |i: int| spec_round_trip_group(req.groups@[i], t, i),
            ).take(m),
        ),
    decreases m,
{
    let plan = spec_plan_items(req, t);
    let gs = req.groups@;
    let expected = Seq::new(gs.len(), |i: int| spec_round_trip_group(gs[i], t, i));
    if m == 0 {
        assert(group_items_upto(gs, t, 0) =~= Seq::<FlatItemView>::empty());
        assert(expected.take(0) =~= Seq::<GroupView>::empty());
    } else {
        lemma_assemble_plan_groups(req, t, m - 1);
        let upto = group_items_upto(gs, t, m);
        assert(upto == group_items_upto(gs, t, m - 1).push(spec_group_item(gs[m - 1], t, m - 1)));
        crate::aggregate::lemma_assemble_groups_push(
            plan,
            group_items_upto(gs, t, m - 1),
            spec_group_item(gs[m - 1], t, m - 1),
        );
        lemma_assemble_plan_group(req, t, m - 1);
        assert(expected.take(m - 1).push(expected[m - 1]) =~= expected.take(m));
    }
}

/// The round-trip law: aggregating exactly the flat items that one
/// document write plans reproduces the request — the document's title,
/// description and actor, its groups in request order with their titles
/// and descriptions, and each group's notes in request order. This holds
/// for every request and every timestamp.
pub proof fn lemma_write_read_round_trip(req: DocumentReq, t: i64)
    ensures
        spec_aggregate_one(spec_plan_items(req, t)) == Ok::<DocumentView, CoreError>(
            spec_round_trip_document(req, t),
        ),
{
    let plan = spec_plan_items(req, t);
    let gs = req.groups@;
    let n = gs.len() as int;
    let blocks = spec_group_blocks(gs, t, n);
    let di = spec_document_item(req, t);
    lemma_tags_distinct();
    lemma_blocks_tags(gs, t, n);
    assert(tags_ok(plan)) by {
        assert forall|m: int| 0 <= m < plan.len() implies item_ok(#[trigger] plan[m]) by {
            if m == 0 {
                assert(plan[0] == di);
            } else {
                assert(plan[m] == blocks[m - 1]);
            }
        }
    }
    // The only document item is the planned one.
    lemma_items_where_add(seq![di], blocks, doc_filter());
    lemma_items_where_single(di, doc_filter());
    assert(doc_filter()(di));
    assert forall|m: int| 0 <= m < blocks.len() implies !doc_filter()(#[trigger] blocks[m]) by {}
    lemma_items_where_none(blocks, doc_filter());
    assert(doc_items(plan) =~= seq![di]);
    // Its decoded form.
    let dv = spec_decode_document(di)->0;
    assert(spec_decode_document(di) is Some);
    assert(dv.sk == spec_doc_sk(t));
    // Its group children are the planned group items, in order.
    let fg = child_filter(group_tag(), spec_doc_sk(t));
    lemma_items_where_add(seq![di], blocks, fg);
    lemma_items_where_single(di, fg);
    assert(!fg(di));
    lemma_blocks_group_children(gs, t, n);
    assert(group_children(plan, dv.sk) =~= group_items_upto(gs, t, n));
    // Assembling those children reproduces the requested groups.
    lemma_assemble_plan_groups(req, t, n);
    let expected_groups = Seq::new(gs.len(), |i: int| spec_round_trip_group(gs[i], t, i));
    assert(expected_groups.take(n) =~= expected_groups);
    assert(spec_assemble_document(plan, di) == Some(
        DocumentView { groups: expected_groups, ..dv },
    ));
    assert(DocumentView { groups: expected_groups, ..dv } == spec_round_trip_document(req, t));
    // One document item assembles to one document.
    assert(seq![di].drop_last() =~= Seq::<FlatItemView>::empty());
    assert(seq![di].last() == di);
    assert(spec_assemble_documents(plan, Seq::<FlatItemView>::empty()) == Some(
        Seq::<DocumentView>::empty(),
    ));
    assert(spec_assemble_documents(plan, seq![di].drop_last()) == Some(
        Seq::<DocumentView>::empty(),
    ));
    assert(spec_assemble_documents(plan, seq![di]) == Some(
        Seq::<DocumentView>::empty().push(spec_round_trip_document(req, t)),
    ));
    let ds = spec_aggregate(plan)->0;
    assert(ds.len() == 1);
    assert(ds[0] == spec_round_trip_document(req, t));
}

proof fn lemma_assemble_documents_parts(
    items: Seq<FlatItemView>,
    ds: Seq<FlatItemView>,
    k: int,
)
    requires
        spec_assemble_documents(items, ds) is Some,
        0 <= k < ds.len(),
    ensures
        spec_assemble_documents(items, ds)->0.len() == ds.len(),
        spec_assemble_document(items, ds[k]) is Some,
        spec_assemble_documents(items, ds)->0[k] == spec_assemble_document(items, ds[k])->0,
    decreases ds.len(),
{
    if k == ds.len() - 1 {
        if ds.drop_last().len() > 0 {
            lemma_assemble_documents_parts(items, ds.drop_last(), 0);
        }
    } else {
        assert(ds.drop_last()[k] == ds[k]);
        lemma_assemble_documents_parts(items, ds.drop_last(), k);
    }
}

proof fn lemma_items_where_elem(s: Seq<FlatItemView>, f: spec_fn(FlatItemView) -> bool, k: int)
    requires
        0 <= k < items_where(s, f).len(),
    ensures
        f(items_where(s, f)[k]),
        exists|j: int| 0 <= j < s.len() && #[trigger] s[j] == items_where(s, f)[k],
    decreases s.len(),
{
    if s.len() > 0 {
        let pre = items_where(s.drop_last(), f);
        if f(s.last()) {
            if k < pre.len() {
                lemma_items_where_elem(s.drop_last(), f, k);
                let j = choose|j: int| 0 <= j < s.drop_last().len() && s.drop_last()[j] == pre[k];
                assert(s[j] == items_where(s, f)[k]);
            } else {
                assert(items_where(s, f)[k] == s.last());
                assert(s[s.len() - 1] == items_where(s, f)[k]);
            }
        } else {
            lemma_items_where_elem(s.drop_last(), f, k);
            let j = choose|j: int| 0 <= j < s.drop_last().len() && s.drop_last()[j] == pre[k];
            assert(s[j] == items_where(s, f)[k]);
        }
    }
}

/// The atomicity law: the document transaction is all or nothing, so a
/// write that the store rejects or that is interrupted leaves the table
/// exactly as it was (the contract of the transactional write). This
/// lemma states the observable half: while no stored item carries the
/// planned document's sort key, that document can be seen neither by a
/// point read nor in any aggregation of a scan.
pub proof fn lemma_unwritten_document_unobservable(
    rows: Seq<FlatItemView>,
    req: DocumentReq,
    t: i64,
)
    requires
        forall|j: int| 0 <= j < rows.len() ==> item_sk(#[trigger] rows[j]) != Some(spec_doc_sk(t)),
    ensures
        crate::store::spec_get(rows, document_tag(), spec_doc_sk(t)) is None,
        spec_aggregate(rows) matches Some(ds) ==> forall|i: int|
            0 <= i < ds.len() ==> (#[trigger] ds[i]).sk != spec_doc_sk(t),
{
    assert forall|j: int| 0 <= j < rows.len() implies crate::store::item_key(#[trigger] rows[j])
        != Some((document_tag(), spec_doc_sk(t))) by {
        assert(item_sk(rows[j]) != Some(spec_doc_sk(t)));
    }
    crate::store::lemma_spec_get_missing(rows, document_tag(), spec_doc_sk(t));
    if spec_aggregate(rows) is Some {
        let ds = spec_aggregate(rows)->0;
        let docs = doc_items(rows);
        if docs.len() > 0 {
            lemma_assemble_documents_parts(rows, docs, 0);
        } else {
            assert(ds.len() == 0);
        }
        assert forall|i: int| 0 <= i < ds.len() implies (#[trigger] ds[i]).sk != spec_doc_sk(
            t,
        ) by {
            lemma_assemble_documents_parts(rows, docs, i);
            lemma_items_where_elem(rows, doc_filter(), i);
            let d = docs[i];
            let j = choose|j: int| 0 <= j < rows.len() && rows[j] == d;
            assert(item_sk(rows[j]) != Some(spec_doc_sk(t)));
            assert(spec_decode_document(d) is Some);
            assert(ds[i].sk == spec_decode_document(d)->0.sk);
            assert(item_sk(d) == Some(spec_decode_document(d)->0.sk));
        }
    }
}

proof fn lemma_items_where_remove(s: Seq<FlatItemView>, f: spec_fn(FlatItemView) -> bool, k: int)
    requires
        0 <= k < s.len(),
        !f(s[k]),
    ensures
        items_where(s.remove(k), f) == items_where(s, f),
    decreases s.len(),
{
    if k == s.len() - 1 {
        assert(s.remove(k) =~= s.drop_last());
    } else {
        assert(s.remove(k).drop_last() =~= s.drop_last().remove(k));
        assert(s.remove(k).last() == s.last());
        assert(s.drop_last()[k] == s[k]);
        lemma_items_where_remove(s.drop_last(), f, k);
        assert(s.remove(k).len() > 0);
        if f(s.last()) {
            assert(items_where(s.remove(k), f) == items_where(s.remove(k).drop_last(), f).push(
                s.remove(k).last(),
            ));
        }
    }
}

proof fn lemma_assemble_groups_same(
    items1: Seq<FlatItemView>,
    items2: Seq<FlatItemView>,
    gs: Seq<FlatItemView>,
)
    requires
        forall|x: int|
            0 <= x < gs.len() ==> spec_assemble_group(items1, #[trigger] gs[x])
                == spec_assemble_group(items2, gs[x]),
    ensures
        spec_assemble_groups(items1, gs) == spec_assemble_groups(items2, gs),
    decreases gs.len(),
{
    if gs.len() > 0 {
        assert forall|x: int| 0 <= x < gs.drop_last().len() implies spec_assemble_group(
            items1,
            #[trigger] gs.drop_last()[x],
        ) == spec_assemble_group(items2, gs.drop_last()[x]) by {
            assert(gs.drop_last()[x] == gs[x]);
        }
        lemma_assemble_groups_same(items1, items2, gs.drop_last());
        assert(gs[gs.len() - 1] == gs.last());
    }
}

proof fn lemma_assemble_documents_same(
    items1: Seq<FlatItemView>,
    items2: Seq<FlatItemView>,
    ds: Seq<FlatItemView>,
)
    requires
        forall|x: int|
            0 <= x < ds.len() ==> spec_assemble_document(items1, #[trigger] ds[x])
                == spec_assemble_document(items2, ds[x]),
    ensures
        spec_assemble_documents(items1, ds) == spec_assemble_documents(items2, ds),
    decreases ds.len(),
{
    if ds.len() > 0 {
        assert forall|x: int| 0 <= x < ds.drop_last().len() implies spec_assemble_document(
            items1,
            #[trigger] ds.drop_last()[x],
        ) == spec_assemble_document(items2, ds.drop_last()[x]) by {
            assert(ds.drop_last()[x] == ds[x]);
        }
        lemma_assemble_documents_same(items1, items2, ds.drop_last());
        assert(ds[ds.len() - 1] == ds.last());
    }
}

/// The orphan-tolerance law: a group item whose parent pointer names no
/// document's sort key takes part in no reconstruction — aggregating
/// with the orphan present gives exactly what aggregating without it
/// gives, and in particular no error arises on its account.
pub proof fn lemma_orphan_group_dropped(items: Seq<FlatItemView>, k: int)
    requires
        0 <= k < items.len(),
        is_group_item(items[k]),
        item_parent(items[k]) is Some,
        forall|j: int|
            0 <= j < items.len() && is_document_item(#[trigger] items[j]) ==> item_sk(items[j])
                != item_parent(items[k]),
    ensures
        spec_aggregate(items.remove(k)) == spec_aggregate(items),
{
    lemma_tags_distinct();
    let rest = items.remove(k);
    let orphan = items[k];
    if tags_ok(items) {
        assert(tags_ok(rest)) by {
            assert forall|j: int| 0 <= j < rest.len() implies item_ok(#[trigger] rest[j]) by {
                if j < k {
                    assert(rest[j] == items[j]);
                } else {
                    assert(rest[j] == items[j + 1]);
                }
            }
        }
    } else {
        assert(!tags_ok(rest)) by {
            let j = choose|j: int| 0 <= j < items.len() && !item_ok(#[trigger] items[j]);
            assert(j != k);
            if j < k {
                assert(rest[j] == items[j]);
            } else {
                assert(rest[j - 1] == items[j]);
            }
        }
    }
    if tags_ok(items) {
        assert(!doc_filter()(orphan));
        lemma_items_where_remove(items, doc_filter(), k);
        let docs = doc_items(items);
        assert(doc_items(rest) == docs);
        assert forall|x: int| 0 <= x < docs.len() implies spec_assemble_document(
            rest,
            #[trigger] docs[x],
        ) == spec_assemble_document(items, docs[x]) by {
            let d = docs[x];
            lemma_items_where_elem(items, doc_filter(), x);
            if spec_decode_document(d) is Some {
                let dv = spec_decode_document(d)->0;
                let j = choose|j: int| 0 <= j < items.len() && items[j] == d;
                assert(is_document_item(items[j]));
                assert(item_sk(items[j]) != item_parent(orphan));
                assert(item_sk(d) == Some(dv.sk));
                assert(!child_filter(group_tag(), dv.sk)(orphan));
                lemma_items_where_remove(items, child_filter(group_tag(), dv.sk), k);
                let gc = group_children(items, dv.sk);
                assert(group_children(rest, dv.sk) == gc);
                assert forall|y: int| 0 <= y < gc.len() implies spec_assemble_group(
                    rest,
                    #[trigger] gc[y],
                ) == spec_assemble_group(items, gc[y]) by {
                    let g = gc[y];
                    if spec_decode_group(g) is Some {
                        let gv = spec_decode_group(g)->0;
                        assert(!child_filter(note_tag(), gv.sk)(orphan));
                        lemma_items_where_remove(items, child_filter(note_tag(), gv.sk), k);
                        assert(note_children(rest, gv.sk) == note_children(items, gv.sk));
                    }
                }
                lemma_assemble_groups_same(rest, items, gc);
            }
        }
        lemma_assemble_documents_same(rest, items, docs);
    }
}

proof fn lemma_udec_no_dash(n: nat)
    ensures
        forall|x: int| 0 <= x < spec_udec(n).len() ==> spec_udec(n)[x] != '-',
    decreases n,
{
    if n >= 10 {
        lemma_udec_no_dash(n / 10);
        assert forall|x: int| 0 <= x < spec_udec(n).len() implies spec_udec(n)[x] != '-' by {
            assert(spec_udec(n) == spec_udec(n / 10) + seq![
                crate::keys::spec_digit_char((n % 10) as int),
            ]);
            if x < spec_udec(n / 10).len() {
                assert(spec_udec(n)[x] == spec_udec(n / 10)[x]);
            }
        }
    }
}

proof fn lemma_dash_split(a: Seq<char>, b: Seq<char>, c: Seq<char>, d: Seq<char>)
    requires
        a + seq!['-'] + b == c + seq!['-'] + d,
        forall|x: int| 0 <= x < a.len() ==> a[x] != '-',
        forall|x: int| 0 <= x < c.len() ==> c[x] != '-',
    ensures
        a == c,
        b == d,
{
    let s1 = a + seq!['-'] + b;
    let s2 = c + seq!['-'] + d;
    assert((a + seq!['-']).add(b).len() == (a + seq!['-']).len() + b.len());
    assert(a.add(seq!['-']).len() == a.len() + 1);
    assert((c + seq!['-']).add(d).len() == (c + seq!['-']).len() + d.len());
    assert(c.add(seq!['-']).len() == c.len() + 1);
    assert(s1[a.len() as int] == '-');
    assert(s2[c.len() as int] == '-');
    if a.len() < c.len() {
        assert(s2[a.len() as int] == c[a.len() as int]);
        assert(false);
    }
    if c.len() < a.len() {
        assert(s1[c.len() as int] == a[c.len() as int]);
        assert(false);
    }
    assert(a =~= c) by {
        assert forall|x: int| 0 <= x < a.len() implies a[x] == c[x] by {
            assert(s1[x] == a[x]);
            assert(s2[x] == c[x]);
        }
    }
    assert(b =~= d) by {
        assert forall|x: int| 0 <= x < b.len() implies b[x] == d[x] by {
            assert(s1[a.len() + 1 + x] == b[x]);
            assert(s2[c.len() + 1 + x] == d[x]);
        }
    }
}

/// Two distinct positions of one write get distinct note sort keys.
pub proof fn lemma_note_sk_injective(t: i64, i: int, k: int, j: int, l: int)
    requires
        0 <= i,
        0 <= k,
        0 <= j,
        0 <= l,
        i != j || k != l,
    ensures
        spec_note_sk(t, i, k) != spec_note_sk(t, j, l),
{
    if spec_note_sk(t, i, k) == spec_note_sk(t, j, l) {
        lemma_append_cancel(
            crate::keys::spec_note_prefix(),
            spec_note_raw_id(t, i, k),
            spec_note_raw_id(t, j, l),
        );
        let p = spec_idec(t as int) + seq!['-'];
        assert(spec_note_raw_id(t, i, k) =~= p + (spec_udec(i as nat) + seq!['-'] + spec_udec(
            k as nat,
        )));
        assert(spec_note_raw_id(t, j, l) =~= p + (spec_udec(j as nat) + seq!['-'] + spec_udec(
            l as nat,
        )));
        lemma_append_cancel(
            p,
            spec_udec(i as nat) + seq!['-'] + spec_udec(k as nat),
            spec_udec(j as nat) + seq!['-'] + spec_udec(l as nat),
        );
        lemma_udec_no_dash(i as nat);
        lemma_udec_no_dash(j as nat);
        lemma_dash_split(spec_udec(i as nat), spec_udec(k as nat), spec_udec(j as nat), spec_udec(
            l as nat,
        ));
        lemma_udec_injective(i as nat, j as nat);
        lemma_udec_injective(k as nat, l as nat);
    }
}

/// The key of `x` is a child key of the write at `t` with a group
/// counter below `n`.
pub open spec fn child_key_below(x: FlatItemView, t: i64, n: int) -> bool {
    ||| (exists|i: int|
        0 <= i < n && item_key(x) == Some((group_tag(), #[trigger] spec_group_sk(t, i))))
    ||| (exists|i: int, k: int|
        0 <= i < n && 0 <= k && item_key(x) == Some((note_tag(), #[trigger] spec_note_sk(t, i, k))))
}

proof fn lemma_blocks_keys_distinct(gs: Seq<GroupReq>, t: i64, n: int)
    ensures
        forall|m: int|
            0 <= m < spec_group_blocks(gs, t, n).len() ==> child_key_below(
                #[trigger] spec_group_blocks(gs, t, n)[m],
                t,
                n,
            ),
        forall|m1: int, m2: int|
            0 <= m1 < m2 < spec_group_blocks(gs, t, n).len() ==> item_key(
                #[trigger] spec_group_blocks(gs, t, n)[m1],
            ) != item_key(#[trigger] spec_group_blocks(gs, t, n)[m2]),
    decreases n,
{
    lemma_tags_distinct();
    if n > 0 {
        lemma_blocks_keys_distinct(gs, t, n - 1);
        let cur = spec_group_blocks(gs, t, n);
        let pre = spec_group_blocks(gs, t, n - 1);
        let blk = spec_group_block(gs[n - 1], t, n - 1);
        assert forall|m: int| 0 <= m < cur.len() implies child_key_below(
            #[trigger] cur[m],
            t,
            n,
        ) by {
            if m < pre.len() {
                assert(cur[m] == pre[m]);
                assert(child_key_below(pre[m], t, n - 1));
                if exists|i: int|
                    0 <= i < n - 1 && item_key(pre[m]) == Some(
                        (group_tag(), #[trigger] spec_group_sk(t, i)),
                    ) {
                    let i = choose|i: int|
                        0 <= i < n - 1 && item_key(pre[m]) == Some(
                            (group_tag(), #[trigger] spec_group_sk(t, i)),
                        );
                    assert(0 <= i < n && item_key(cur[m]) == Some(
                        (group_tag(), spec_group_sk(t, i)),
                    ));
                } else {
                    let (i, k) = choose|i: int, k: int|
                        0 <= i < n - 1 && 0 <= k && item_key(pre[m]) == Some(
                            (note_tag(), #[trigger] spec_note_sk(t, i, k)),
                        );
                    assert(0 <= i < n && 0 <= k && item_key(cur[m]) == Some(
                        (note_tag(), spec_note_sk(t, i, k)),
                    ));
                }
            } else {
                assert(cur[m] == blk[m - pre.len()]);
                if m - pre.len() == 0 {
                    assert(blk[0] == spec_group_item(gs[n - 1], t, n - 1));
                    assert(item_key(cur[m]) == Some((group_tag(), spec_group_sk(t, n - 1))));
                    assert(0 <= n - 1 < n);
                } else {
                    let k = m - pre.len() - 1;
                    assert(blk[k + 1] == spec_nested_note_item(gs[n - 1].notes@[k], t, n - 1, k));
                    assert(item_key(cur[m]) == Some((note_tag(), spec_note_sk(t, n - 1, k))));
                    assert(0 <= n - 1 < n && 0 <= k);
                }
            }
        }
        assert forall|m1: int, m2: int| 0 <= m1 < m2 < cur.len() implies item_key(
            #[trigger] cur[m1],
        ) != item_key(#[trigger] cur[m2]) by {
            if m2 < pre.len() {
                assert(cur[m1] == pre[m1]);
                assert(cur[m2] == pre[m2]);
            } else if m1 >= pre.len() {
                // Both lie in the newest block.
                let o1 = m1 - pre.len();
                let o2 = m2 - pre.len();
                if o1 == 0 {
                    assert(cur[m1] == spec_group_item(gs[n - 1], t, n - 1));
                    assert(cur[m2] == spec_nested_note_item(
                        gs[n - 1].notes@[o2 - 1],
                        t,
                        n - 1,
                        o2 - 1,
                    ));
                } else {
                    assert(cur[m1] == spec_nested_note_item(
                        gs[n - 1].notes@[o1 - 1],
                        t,
                        n - 1,
                        o1 - 1,
                    ));
                    assert(cur[m2] == spec_nested_note_item(
                        gs[n - 1].notes@[o2 - 1],
                        t,
                        n - 1,
                        o2 - 1,
                    ));
                    lemma_note_sk_injective(t, n - 1, o1 - 1, n - 1, o2 - 1);
                }
            } else {
                // One old item, one item of the newest block: the old
                // key carries a counter below the new one.
                assert(cur[m1] == pre[m1]);
                assert(child_key_below(pre[m1], t, n - 1));
                let o2 = m2 - pre.len();
                if exists|i: int|
                    0 <= i < n - 1 && item_key(pre[m1]) == Some(
                        (group_tag(), #[trigger] spec_group_sk(t, i)),
                    ) {
                    let i = choose|i: int|
                        0 <= i < n - 1 && item_key(pre[m1]) == Some(
                            (group_tag(), #[trigger] spec_group_sk(t, i)),
                        );
                    if o2 == 0 {
                        assert(cur[m2] == spec_group_item(gs[n - 1], t, n - 1));
                        lemma_group_sk_injective(t, i, n - 1);
                    } else {
                        assert(cur[m2] == spec_nested_note_item(
                            gs[n - 1].notes@[o2 - 1],
                            t,
                            n - 1,
                            o2 - 1,
                        ));
                    }
                } else {
                    let (i, k) = choose|i: int, k: int|
                        0 <= i < n - 1 && 0 <= k && item_key(pre[m1]) == Some(
                            (note_tag(), #[trigger] spec_note_sk(t, i, k)),
                        );
                    if o2 == 0 {
                        assert(cur[m2] == spec_group_item(gs[n - 1], t, n - 1));
                    } else {
                        assert(cur[m2] == spec_nested_note_item(
                            gs[n - 1].notes@[o2 - 1],
                            t,
                            n - 1,
                            o2 - 1,
                        ));
                        lemma_note_sk_injective(t, i, k, n - 1, o2 - 1);
                    }
                }
            }
        }
    }
}

/// No two items of one document write plan share a key.
pub proof fn lemma_plan_keys_distinct(req: DocumentReq, t: i64)
    ensures
        forall|m1: int, m2: int|
            0 <= m1 < m2 < spec_plan_items(req, t).len() ==> item_key(
                #[trigger] spec_plan_items(req, t)[m1],
            ) != item_key(#[trigger] spec_plan_items(req, t)[m2]),
{
    lemma_tags_distinct();
    let plan = spec_plan_items(req, t);
    let gs = req.groups@;
    let n = gs.len() as int;
    let blocks = spec_group_blocks(gs, t, n);
    lemma_blocks_keys_distinct(gs, t, n);
    assert forall|m1: int, m2: int| 0 <= m1 < m2 < plan.len() implies item_key(
        #[trigger] plan[m1],
    ) != item_key(#[trigger] plan[m2]) by {
        assert(plan[m2] == blocks[m2 - 1]);
        assert(child_key_below(blocks[m2 - 1], t, n));
        if m1 == 0 {
            assert(plan[0] == spec_document_item(req, t));
            assert(item_key(plan[0]) == Some((document_tag(), spec_doc_sk(t))));
            if exists|i: int|
                0 <= i < n && item_key(blocks[m2 - 1]) == Some(
                    (group_tag(), #[trigger] spec_group_sk(t, i)),
                ) {
            } else {
            }
        } else {
            assert(plan[m1] == blocks[m1 - 1]);
        }
    }
}

proof fn lemma_put_all_fresh(rows: Seq<FlatItemView>, items: Seq<FlatItemView>, n: int)
    requires
        0 <= n <= items.len(),
        forall|j: int, m: int|
            0 <= j < rows.len() && 0 <= m < items.len() ==> item_key(#[trigger] rows[j])
                != item_key(#[trigger] items[m]),
        forall|m1: int, m2: int|
            0 <= m1 < m2 < items.len() ==> item_key(#[trigger] items[m1]) != item_key(
                #[trigger] items[m2],
            ),
    ensures
        spec_put_all(rows, items, n) == rows + items.take(n),
    decreases n,
{
    if n == 0 {
        assert(rows + items.take(0) =~= rows);
    } else {
        lemma_put_all_fresh(rows, items, n - 1);
        let base = rows + items.take(n - 1);
        assert(rows.add(items.take(n - 1)).len() == rows.len() + n - 1);
        assert forall|j: int| 0 <= j < base.len() implies item_key(#[trigger] base[j])
            != item_key(items[n - 1]) by {
            if j < rows.len() {
                assert(base[j] == rows[j]);
            } else {
                assert(base[j] == items[j - rows.len()]);
            }
        }
        crate::store::lemma_put_fresh_key_appends(base, items[n - 1]);
        assert(base.push(items[n - 1]) =~= rows + items.take(n));
    }
}

/// The persistence round trip: fanning one document request out at `t`
/// and upserting the whole plan into a table that holds nothing yields
/// exactly the planned items, and aggregating that table reproduces the
/// request. Together with the round-trip law this ties the write path,
/// the store contract and the read path end to end.
pub proof fn lemma_persisted_document_reads_back(req: DocumentReq, t: i64)
    ensures
        spec_put_all(
            Seq::<FlatItemView>::empty(),
            spec_plan_items(req, t),
            spec_plan_items(req, t).len() as int,
        ) == spec_plan_items(req, t),
        spec_aggregate_one(
            spec_put_all(
                Seq::<FlatItemView>::empty(),
                spec_plan_items(req, t),
                spec_plan_items(req, t).len() as int,
            ),
        ) == Ok::<DocumentView, CoreError>(spec_round_trip_document(req, t)),
{
    let plan = spec_plan_items(req, t);
    lemma_plan_keys_distinct(req, t);
    lemma_put_all_fresh(Seq::<FlatItemView>::empty(), plan, plan.len() as int);
    assert(Seq::<FlatItemView>::empty() + plan.take(plan.len() as int) =~= plan);
    lemma_write_read_round_trip(req, t);
}

} // verus!
