use vstd::prelude::*;
use vstd::string::{StrSliceExecFns, StringExecFns};
use crate::aggregate::{document_tag, group_tag, note_tag};
use crate::attr::{AttrValue, AttrView, FlatItem, FlatItemView};
use crate::keys::{
    document_sort_key, group_sort_key, i64_to_dec, note_sort_key, spec_document_prefix,
    spec_group_prefix, spec_idec, spec_note_prefix, spec_udec, u64_to_dec,
};
use crate::requests::{DocumentReq, GroupReq, NoteReq};

verus! {

broadcast use vstd::seq::group_seq_axioms;

// The write-side fan-out. One hierarchical document request becomes the
// ordered flat items of a single atomic multi-item write: the document
// item first, then, for each nested group, its group item followed by
// its note items. Identities are derived from the creation timestamp
// with a per-entity counter suffix, so that the entities of one write
// never collide with one another; two writes within the same clock tick
// can still collide, a known weakness of timestamp-derived identities.

/// The raw identity of the document created at `t`.
pub open spec fn spec_doc_raw_id(t: i64) -> Seq<char> {
    spec_idec(t as int)
}

/// The sort key of the document created at `t`.
pub open spec fn spec_doc_sk(t: i64) -> Seq<char> {
    spec_document_prefix() + spec_doc_raw_id(t)
}

/// The raw identity of the `i`-th nested group of the write at `t`.
pub open spec fn spec_group_raw_id(t: i64, i: int) -> Seq<char> {
    spec_idec(t as int) + seq!['-'] + spec_udec(i as nat)
}

/// The sort key of the `i`-th nested group of the write at `t`.
pub open spec fn spec_group_sk(t: i64, i: int) -> Seq<char> {
    spec_group_prefix() + spec_group_raw_id(t, i)
}

/// The raw identity of the `k`-th note of the `i`-th group.
pub open spec fn spec_note_raw_id(t: i64, i: int, k: int) -> Seq<char> {
    spec_group_raw_id(t, i) + seq!['-'] + spec_udec(k as nat)
}

/// The sort key of the `k`-th note of the `i`-th group.
pub open spec fn spec_note_sk(t: i64, i: int, k: int) -> Seq<char> {
    spec_note_prefix() + spec_note_raw_id(t, i, k)
}

/// The flat item persisting the document of the request at `t`.
pub open spec fn spec_document_item(req: DocumentReq, t: i64) -> FlatItemView {
    FlatItemView {
        pk: Some(AttrView::S(document_tag())),
        sk: Some(AttrView::S(spec_doc_sk(t))),
        title: Some(AttrView::S(req.title@)),
        description: Some(AttrView::S(req.description@)),
        created: Some(AttrView::N(t as int)),
        last_updated: Some(AttrView::N(t as int)),
        updated_by: Some(AttrView::S(req.updated_by@)),
        parent: None,
    }
}

/// The flat item persisting the `i`-th nested group, its parent pointer
/// naming the document's sort key.
pub open spec fn spec_group_item(g: GroupReq, t: i64, i: int) -> FlatItemView {
    FlatItemView {
        pk: Some(AttrView::S(group_tag())),
        sk: Some(AttrView::S(spec_group_sk(t, i))),
        title: Some(AttrView::S(g.title@)),
        description: Some(AttrView::S(g.description@)),
        created: Some(AttrView::N(g.created as int)),
        last_updated: Some(AttrView::N(g.created as int)),
        updated_by: Some(AttrView::S(g.updated_by@)),
        parent: Some(AttrView::S(spec_doc_sk(t))),
    }
}

/// The flat item persisting the `k`-th note of the `i`-th group, its
/// parent pointer naming that group's sort key.
pub open spec fn spec_nested_note_item(n: NoteReq, t: i64, i: int, k: int) -> FlatItemView {
    FlatItemView {
        pk: Some(AttrView::S(note_tag())),
        sk: Some(AttrView::S(spec_note_sk(t, i, k))),
        title: Some(AttrView::S(n.title@)),
        description: Some(AttrView::S(n.description@)),
        created: Some(AttrView::N(n.created as int)),
        last_updated: Some(AttrView::N(n.created as int)),
        updated_by: Some(AttrView::S(n.updated_by@)),
        parent: Some(AttrView::S(spec_group_sk(t, i))),
    }
}

/// The note items of the `i`-th group, in request order.
pub open spec fn spec_note_items(g: GroupReq, t: i64, i: int) -> Seq<FlatItemView> {
    Seq::new(g.notes@.len(), |k: int| spec_nested_note_item(g.notes@[k], t, i, k))
}

/// One group's contribution to the plan: its group item followed by its
/// note items.
pub open spec fn spec_group_block(g: GroupReq, t: i64, i: int) -> Seq<FlatItemView> {
    seq![spec_group_item(g, t, i)] + spec_note_items(g, t, i)
}

/// The contributions of the first `n` groups, in request order.
pub open spec fn spec_group_blocks(gs: Seq<GroupReq>, t: i64, n: int) -> Seq<FlatItemView>
    decreases n,
{
    if n <= 0 {
        Seq::empty()
    } else {
        spec_group_blocks(gs, t, n - 1) + spec_group_block(gs[n - 1], t, n - 1)
    }
}

/// The full write plan of a document request at `t`: the document item,
/// then each group's block, in request order.
pub open spec fn spec_plan_items(req: DocumentReq, t: i64) -> Seq<FlatItemView> {
    seq![spec_document_item(req, t)] + spec_group_blocks(req.groups@, t, req.groups@.len() as int)
}

fn string_attr(s: &String) -> (r: Option<AttrValue>)
    ensures
        r == Some(AttrValue::S(*s)),
{
    Some(AttrValue::S(s.clone()))
}

fn join_counter(prefix: &String, c: u64) -> (r: String)
    ensures
        r@ == prefix@ + seq!['-'] + spec_udec(c as nat),
{
    let mut s = prefix.clone();
    proof {
        reveal_strlit("-");
        assert("-"@ =~= seq!['-']);
    }
    s.append("-");
    let d = u64_to_dec(c);
    s.append(d.as_str());
    s
}

/// Builds the flat items persisting one document request at timestamp
/// `t`, and the minted document identity. The items are intended for a
/// single atomic write: the document first, then each group's item
/// followed by its notes, parent pointers linking child to owner.
pub fn plan_document_write(req: &DocumentReq, t: i64) -> (r: (Vec<FlatItem>, String))
    ensures
        r.0.deep_view() == spec_plan_items(*req, t),
        r.1@ == spec_doc_raw_id(t),
{
    let raw_id = i64_to_dec(t);
    let doc_sk = document_sort_key(raw_id.as_str());
    let mut out: Vec<FlatItem> = Vec::new();
    let doc_item = FlatItem {
        pk: string_attr(&String::from_str("document")),
        sk: string_attr(&doc_sk),
        title: string_attr(&req.title),
        description: string_attr(&req.description),
        created: Some(AttrValue::N(t)),
        last_updated: Some(AttrValue::N(t)),
        updated_by: string_attr(&req.updated_by),
        parent: None,
    };
    proof {
        assert(doc_item@ == spec_document_item(*req, t));
    }
    out.push(doc_item);
    proof {
        assert(out.deep_view() =~= seq![spec_document_item(*req, t)] + spec_group_blocks(
            req.groups@,
            t,
            0,
        ));
    }
    let mut i: usize = 0;
    while i < req.groups.len()
        invariant
            0 <= i <= req.groups@.len(),
            raw_id@ == spec_doc_raw_id(t),
            doc_sk@ == spec_doc_sk(t),
            out.deep_view() == seq![spec_document_item(*req, t)] + spec_group_blocks(
                req.groups@,
                t,
                i as int,
            ),
        decreases req.groups@.len() - i,
    {
        let g = &req.groups[i];
        let gid = join_counter(&raw_id, i as u64);
        let gsk = group_sort_key(gid.as_str());
        proof {
            assert(gid@ == spec_group_raw_id(t, i as int));
            assert(gsk@ == spec_group_sk(t, i as int));
        }
        let ghost before_group = out.deep_view();
        let group_item = FlatItem {
            pk: string_attr(&String::from_str("group")),
            sk: string_attr(&gsk),
            title: string_attr(&g.title),
            description: string_attr(&g.description),
            created: Some(AttrValue::N(g.created)),
            last_updated: Some(AttrValue::N(g.created)),
            updated_by: string_attr(&g.updated_by),
            parent: string_attr(&doc_sk),
        };
        proof {
            assert(group_item@ == spec_group_item(req.groups@[i as int], t, i as int));
        }
        out.push(group_item);
        proof {
            assert(out.deep_view() =~= before_group.push(
                spec_group_item(req.groups@[i as int], t, i as int),
            ));
        }
        let ghost after_group = out.deep_view();
        let mut k: usize = 0;
        while k < g.notes.len()
            invariant
                0 <= k <= g.notes@.len(),
                g == req.groups@[i as int],
                0 <= i < req.groups@.len(),
                gid@ == spec_group_raw_id(t, i as int),
                gsk@ == spec_group_sk(t, i as int),
                after_group == before_group.push(
                    spec_group_item(req.groups@[i as int], t, i as int),
                ),
                out.deep_view() == after_group + spec_note_items(
                    req.groups@[i as int],
                    t,
                    i as int,
                ).take(k as int),
            decreases g.notes@.len() - k,
        {
            let n = &g.notes[k];
            let nid = join_counter(&gid, k as u64);
            let nsk = note_sort_key(nid.as_str());
            proof {
                assert(nid@ == spec_note_raw_id(t, i as int, k as int));
                assert(nsk@ == spec_note_sk(t, i as int, k as int));
            }
            let ghost before_note = out.deep_view();
            let note_item = FlatItem {
                pk: string_attr(&String::from_str("note")),
                sk: string_attr(&nsk),
                title: string_attr(&n.title),
                description: string_attr(&n.description),
                created: Some(AttrValue::N(n.created)),
                last_updated: Some(AttrValue::N(n.created)),
                updated_by: string_attr(&n.updated_by),
                parent: string_attr(&gsk),
            };
            proof {
                assert(note_item@ == spec_nested_note_item(
                    req.groups@[i as int].notes@[k as int],
                    t,
                    i as int,
                    k as int,
                ));
            }
            out.push(note_item);
            proof {
                let notes_seq = spec_note_items(req.groups@[i as int], t, i as int);
                assert(out.deep_view() =~= before_note.push(notes_seq[k as int]));
                assert(notes_seq.take(k as int + 1) =~= notes_seq.take(k as int).push(
                    notes_seq[k as int],
                ));
                assert(out.deep_view() =~= after_group + notes_seq.take(k as int + 1));
            }
            k += 1;
        }
        proof {
            let notes_seq = spec_note_items(req.groups@[i as int], t, i as int);
            assert(notes_seq.take(notes_seq.len() as int) =~= notes_seq);
            assert(out.deep_view() =~= seq![spec_document_item(*req, t)] + spec_group_blocks(
                req.groups@,
                t,
                i as int + 1,
            )) by {
                assert(spec_group_blocks(req.groups@, t, i as int + 1) == spec_group_blocks(
                    req.groups@,
                    t,
                    i as int,
                ) + spec_group_block(req.groups@[i as int], t, i as int));
            }
        }
        i += 1;
    }
    (out, raw_id)
}

} // verus!
