use vstd::prelude::*;
use vstd::string::StringExecFns;
use crate::attr::{item_parent, item_tag, FlatItem, FlatItemView};
use crate::entities::{
    decode_document, decode_group, decode_note, spec_decode_document, spec_decode_group,
    spec_decode_note, Document, DocumentView, Documents, Group, GroupView, Note, NoteView,
};
use crate::error::CoreError;
use crate::index::{mm_entries, mm_get, mm_insert, mm_new};

verus! {

broadcast use {vstd::map::group_map_axioms, vstd::seq::group_seq_axioms};

// The read-side aggregator. It consumes the unordered flat items of one
// scan or query and rebuilds the document hierarchy by parent-pointer
// joins: group items attach to the document whose sort key their parent
// pointer names, note items to the group likewise. A child whose parent
// pointer matches nothing is silently dropped; a malformed item that
// takes part in the join is a hard failure.

/// The partition tag of document items.
pub open spec fn document_tag() -> Seq<char> {
    "document"@
}

/// The partition tag of group items.
pub open spec fn group_tag() -> Seq<char> {
    "group"@
}

/// The partition tag of note items.
pub open spec fn note_tag() -> Seq<char> {
    "note"@
}

/// The three partition tags differ from one another.
pub proof fn lemma_tags_distinct()
    ensures
        document_tag() != group_tag(),
        document_tag() != note_tag(),
        group_tag() != note_tag(),
{
    reveal_strlit("document");
    reveal_strlit("group");
    reveal_strlit("note");
    assert(document_tag().len() == 8);
    assert(group_tag().len() == 5);
    assert(note_tag().len() == 4);
}

/// The item carries the document tag.
pub open spec fn is_document_item(i: FlatItemView) -> bool {
    item_tag(i) == Some(document_tag())
}

/// The item carries the group tag.
pub open spec fn is_group_item(i: FlatItemView) -> bool {
    item_tag(i) == Some(group_tag())
}

/// The item carries the note tag.
pub open spec fn is_note_item(i: FlatItemView) -> bool {
    item_tag(i) == Some(note_tag())
}

/// The item is recognizable to the aggregator: it carries one of the
/// three tags, and a parent pointer when it is a child item.
pub open spec fn item_ok(i: FlatItemView) -> bool {
    ||| is_document_item(i)
    ||| (is_group_item(i) && item_parent(i) is Some)
    ||| (is_note_item(i) && item_parent(i) is Some)
}

/// Every item of the input is recognizable.
pub open spec fn tags_ok(items: Seq<FlatItemView>) -> bool {
    forall|j: int| 0 <= j < items.len() ==> item_ok(#[trigger] items[j])
}

/// The subsequence of `items` whose members satisfy `f`, in input order.
pub open spec fn items_where(items: Seq<FlatItemView>, f: spec_fn(FlatItemView) -> bool) -> Seq<
    FlatItemView,
>
    decreases items.len(),
{
    if items.len() == 0 {
        Seq::empty()
    } else if f(items.last()) {
        items_where(items.drop_last(), f).push(items.last())
    } else {
        items_where(items.drop_last(), f)
    }
}

/// The positions below `n` whose items satisfy `f`, ascending.
pub open spec fn indices_where(
    items: Seq<FlatItemView>,
    f: spec_fn(FlatItemView) -> bool,
    n: int,
) -> Seq<usize>
    decreases n,
{
    if n <= 0 {
        Seq::empty()
    } else {
        let pre = indices_where(items, f, n - 1);
        if f(items[n - 1]) {
            pre.push((n - 1) as usize)
        } else {
            pre
        }
    }
}

/// The items standing at the given positions.
pub open spec fn idx_items(items: Seq<FlatItemView>, idxs: Seq<usize>) -> Seq<FlatItemView> {
    idxs.map_values(|j: usize| items[j as int])
}

/// Every position listed by `indices_where` lies below `n`.
pub proof fn lemma_indices_where_bounds(items: Seq<FlatItemView>, f: spec_fn(FlatItemView) -> bool, n: int)
    requires
        n <= usize::MAX,
    ensures
        forall|k: int|
            0 <= k < indices_where(items, f, n).len() ==> (#[trigger] indices_where(
                items,
                f,
                n,
            )[k]) < n,
    decreases n,
{
    if n > 0 {
        lemma_indices_where_bounds(items, f, n - 1);
        let pre = indices_where(items, f, n - 1);
        let cur = indices_where(items, f, n);
        assert forall|k: int| 0 <= k < cur.len() implies (#[trigger] cur[k]) < n by {
            if f(items[n - 1]) {
                assert(cur == pre.push((n - 1) as usize));
                if k < pre.len() {
                    assert(cur[k] == pre[k]);
                } else {
                    assert(cur[k] == (n - 1) as usize);
                }
            } else {
                assert(cur == pre);
            }
        }
    }
}

/// Reading the items at the positions `indices_where` lists yields the
/// filtered subsequence of the first `n` items.
pub proof fn lemma_indices_where_items(
    items: Seq<FlatItemView>,
    f: spec_fn(FlatItemView) -> bool,
    n: int,
)
    requires
        0 <= n <= items.len(),
        n <= usize::MAX,
    ensures
        idx_items(items, indices_where(items, f, n)) == items_where(items.take(n), f),
    decreases n,
{
    if n == 0 {
        assert(idx_items(items, indices_where(items, f, 0)) =~= items_where(items.take(0), f));
    } else {
        lemma_indices_where_items(items, f, n - 1);
        assert(items.take(n).drop_last() =~= items.take(n - 1));
        assert(items.take(n).last() == items[n - 1]);
        let pre = indices_where(items, f, n - 1);
        if f(items[n - 1]) {
            let cur = pre.push((n - 1) as usize);
            assert(indices_where(items, f, n) == cur);
            assert(idx_items(items, cur) =~= idx_items(items, pre).push(items[n - 1])) by {
                assert forall|k: int| 0 <= k < cur.len() implies idx_items(items, cur)[k]
                    == idx_items(items, pre).push(items[n - 1])[k] by {
                    if k < pre.len() {
                        assert(cur[k] == pre[k]);
                        assert(idx_items(items, cur)[k] == items[cur[k] as int]);
                        assert(idx_items(items, pre)[k] == items[pre[k] as int]);
                    } else {
                        assert(cur[k] == (n - 1) as usize);
                        assert(idx_items(items, cur)[k] == items[n - 1]);
                    }
                }
            }
        } else {
            assert(indices_where(items, f, n) == pre);
        }
    }
}

/// The predicate tying a child item of the given tag to the parent whose
/// sort key is `p`.
pub open spec fn child_filter(tag: Seq<char>, p: Seq<char>) -> spec_fn(FlatItemView) -> bool {
    |i: FlatItemView| item_tag(i) == Some(tag) && item_parent(i) == Some(p)
}

/// The predicate recognizing document items.
pub open spec fn doc_filter() -> spec_fn(FlatItemView) -> bool {
    |i: FlatItemView| is_document_item(i)
}

/// The document items of the input, in input order.
pub open spec fn doc_items(items: Seq<FlatItemView>) -> Seq<FlatItemView> {
    items_where(items, doc_filter())
}

/// The group items whose parent pointer names the document sort key `p`,
/// in input order.
pub open spec fn group_children(items: Seq<FlatItemView>, p: Seq<char>) -> Seq<FlatItemView> {
    items_where(items, child_filter(group_tag(), p))
}

/// The note items whose parent pointer names the group sort key `p`, in
/// input order.
pub open spec fn note_children(items: Seq<FlatItemView>, p: Seq<char>) -> Seq<FlatItemView> {
    items_where(items, child_filter(note_tag(), p))
}

/// Decodes a list of note items; fails as soon as one is malformed.
pub open spec fn spec_decode_notes(ns: Seq<FlatItemView>) -> Option<Seq<NoteView>>
    decreases ns.len(),
{
    if ns.len() == 0 {
        Some(Seq::empty())
    } else {
        match (spec_decode_notes(ns.drop_last()), spec_decode_note(ns.last())) {
            (Some(s), Some(n)) => Some(s.push(n)),
            _ => None,
        }
    }
}

/// Assembles one group item: decodes it and attaches its decoded note
/// children, looked up by the group's own sort key.
pub open spec fn spec_assemble_group(items: Seq<FlatItemView>, g: FlatItemView) -> Option<
    GroupView,
> {
    match spec_decode_group(g) {
        Some(gv) => match spec_decode_notes(note_children(items, gv.sk)) {
            Some(ns) => Some(GroupView { notes: ns, ..gv }),
            None => None,
        },
        None => None,
    }
}

/// Assembles a list of group items; fails as soon as one fails.
pub open spec fn spec_assemble_groups(items: Seq<FlatItemView>, gs: Seq<FlatItemView>) -> Option<
    Seq<GroupView>,
>
    decreases gs.len(),
{
    if gs.len() == 0 {
        Some(Seq::empty())
    } else {
        match (spec_assemble_groups(items, gs.drop_last()), spec_assemble_group(items, gs.last())) {
            (Some(s), Some(g)) => Some(s.push(g)),
            _ => None,
        }
    }
}

/// Assembles one document item: decodes it and attaches its assembled
/// group children, looked up by the document's own sort key.
pub open spec fn spec_assemble_document(items: Seq<FlatItemView>, d: FlatItemView) -> Option<
    DocumentView,
> {
    match spec_decode_document(d) {
        Some(dv) => match spec_assemble_groups(items, group_children(items, dv.sk)) {
            Some(gs) => Some(DocumentView { groups: gs, ..dv }),
            None => None,
        },
        None => None,
    }
}

/// Assembles a list of document items; fails as soon as one fails.
pub open spec fn spec_assemble_documents(
    items: Seq<FlatItemView>,
    ds: Seq<FlatItemView>,
) -> Option<Seq<DocumentView>>
    decreases ds.len(),
{
    if ds.len() == 0 {
        Some(Seq::empty())
    } else {
        match (
            spec_assemble_documents(items, ds.drop_last()),
            spec_assemble_document(items, ds.last()),
        ) {
            (Some(s), Some(d)) => Some(s.push(d)),
            _ => None,
        }
    }
}

/// The read-side aggregation: `None` stands for a malformed input (an
/// item without a recognizable tag, a child without a parent pointer, or
/// a joined item that fails to decode); otherwise the reconstructed
/// documents, in input order, each carrying its group children in input
/// order, each group carrying its note children in input order. A child
/// whose parent pointer matches no document (or group) appears nowhere.
pub open spec fn spec_aggregate(items: Seq<FlatItemView>) -> Option<Seq<DocumentView>> {
    if tags_ok(items) {
        spec_assemble_documents(items, doc_items(items))
    } else {
        None
    }
}

/// The single-document aggregation: `MalformedItem` on a malformed
/// input, `NotFound` when no document item exists, else the first
/// reconstructed document.
pub open spec fn spec_aggregate_one(items: Seq<FlatItemView>) -> Result<DocumentView, CoreError> {
    match spec_aggregate(items) {
        None => Err(CoreError::MalformedItem),
        Some(ds) => if ds.len() == 0 {
            Err(CoreError::NotFound)
        } else {
            Ok(ds[0])
        },
    }
}

proof fn lemma_decode_notes_none(ns: Seq<FlatItemView>, k: int)
    requires
        0 <= k < ns.len(),
        spec_decode_note(ns[k]) is None,
    ensures
        spec_decode_notes(ns) is None,
    decreases ns.len(),
{
    if k < ns.len() - 1 {
        lemma_decode_notes_none(ns.drop_last(), k);
    }
}

proof fn lemma_assemble_groups_none(items: Seq<FlatItemView>, gs: Seq<FlatItemView>, k: int)
    requires
        0 <= k < gs.len(),
        spec_assemble_group(items, gs[k]) is None,
    ensures
        spec_assemble_groups(items, gs) is None,
    decreases gs.len(),
{
    if k < gs.len() - 1 {
        lemma_assemble_groups_none(items, gs.drop_last(), k);
    }
}

proof fn lemma_assemble_documents_none(items: Seq<FlatItemView>, ds: Seq<FlatItemView>, k: int)
    requires
        0 <= k < ds.len(),
        spec_assemble_document(items, ds[k]) is None,
    ensures
        spec_assemble_documents(items, ds) is None,
    decreases ds.len(),
{
    if k < ds.len() - 1 {
        lemma_assemble_documents_none(items, ds.drop_last(), k);
    }
}

pub proof fn lemma_decode_notes_push(ns: Seq<FlatItemView>, n: FlatItemView)
    ensures
        spec_decode_notes(ns.push(n)) == (match (spec_decode_notes(ns), spec_decode_note(n)) {
            (Some(s), Some(nv)) => Some(s.push(nv)),
            _ => None,
        }),
{
    assert(ns.push(n).drop_last() =~= ns);
    assert(ns.push(n).last() == n);
}

pub proof fn lemma_assemble_groups_push(items: Seq<FlatItemView>, gs: Seq<FlatItemView>, g: FlatItemView)
    ensures
        spec_assemble_groups(items, gs.push(g)) == (match (
            spec_assemble_groups(items, gs),
            spec_assemble_group(items, g),
        ) {
            (Some(s), Some(gv)) => Some(s.push(gv)),
            _ => None,
        }),
{
    assert(gs.push(g).drop_last() =~= gs);
    assert(gs.push(g).last() == g);
}

pub proof fn lemma_assemble_documents_push(
    items: Seq<FlatItemView>,
    ds: Seq<FlatItemView>,
    d: FlatItemView,
)
    ensures
        spec_assemble_documents(items, ds.push(d)) == (match (
            spec_assemble_documents(items, ds),
            spec_assemble_document(items, d),
        ) {
            (Some(s), Some(dv)) => Some(s.push(dv)),
            _ => None,
        }),
{
    assert(ds.push(d).drop_last() =~= ds);
    assert(ds.push(d).last() == d);
}

proof fn lemma_idx_items_take_step(items: Seq<FlatItemView>, idxs: Seq<usize>, k: int)
    requires
        0 <= k < idxs.len(),
    ensures
        idx_items(items, idxs.take(k + 1)) == idx_items(items, idxs.take(k)).push(
            items[idxs[k] as int],
        ),
{
    let a = idx_items(items, idxs.take(k + 1));
    let b = idx_items(items, idxs.take(k)).push(items[idxs[k] as int]);
    assert(a =~= b) by {
        assert forall|i: int| 0 <= i < a.len() implies a[i] == b[i] by {
            assert(idxs.take(k + 1)[i] == idxs[i]);
            if i < k {
                assert(idxs.take(k)[i] == idxs[i]);
            }
        }
    }
}

/// The parent index `mme` models exactly the child items of the given
/// tag among the first `n` input items: each key present holds the
/// ascending positions of its children and at least one of them, and a
/// key absent has no child.
pub open spec fn mm_covers(
    mme: Map<Seq<char>, Seq<usize>>,
    items: Seq<FlatItemView>,
    tag: Seq<char>,
    n: int,
) -> bool {
    &&& (forall|p: Seq<char>| #[trigger]
        mme.contains_key(p) ==> mme[p] == indices_where(items, child_filter(tag, p), n)
            && mme[p].len() > 0)
    &&& (forall|p: Seq<char>|
        !(#[trigger] mme.contains_key(p)) ==> indices_where(items, child_filter(tag, p), n).len()
            == 0)
}

proof fn lemma_mm_covers_skip(
    mme: Map<Seq<char>, Seq<usize>>,
    items: Seq<FlatItemView>,
    tag: Seq<char>,
    n: int,
)
    requires
        mm_covers(mme, items, tag, n),
        0 <= n < items.len(),
        item_tag(items[n]) != Some(tag),
    ensures
        mm_covers(mme, items, tag, n + 1),
{
    assert forall|p: Seq<char>|
        indices_where(items, child_filter(tag, p), n + 1) == #[trigger] indices_where(
            items,
            child_filter(tag, p),
            n,
        ) by {
        assert(!child_filter(tag, p)(items[n]));
    }
}

proof fn lemma_mm_covers_insert(
    mme_old: Map<Seq<char>, Seq<usize>>,
    mme_new: Map<Seq<char>, Seq<usize>>,
    items: Seq<FlatItemView>,
    tag: Seq<char>,
    n: int,
    par: Seq<char>,
)
    requires
        mm_covers(mme_old, items, tag, n),
        0 <= n < items.len(),
        n < usize::MAX,
        item_tag(items[n]) == Some(tag),
        item_parent(items[n]) == Some(par),
        mme_new == mme_old.insert(
            par,
            if mme_old.contains_key(par) {
                mme_old[par].push(n as usize)
            } else {
                seq![n as usize]
            },
        ),
    ensures
        mm_covers(mme_new, items, tag, n + 1),
{
    assert(child_filter(tag, par)(items[n]));
    assert(indices_where(items, child_filter(tag, par), n + 1) == indices_where(
        items,
        child_filter(tag, par),
        n,
    ).push(n as usize));
    if !mme_old.contains_key(par) {
        assert(indices_where(items, child_filter(tag, par), n) =~= Seq::<usize>::empty());
        assert(seq![n as usize] =~= Seq::<usize>::empty().push(n as usize));
    }
    assert forall|p: Seq<char>| #[trigger]
        mme_new.contains_key(p) implies mme_new[p] == indices_where(
        items,
        child_filter(tag, p),
        n + 1,
    ) && mme_new[p].len() > 0 by {
        if p != par {
            assert(mme_old.contains_key(p));
            assert(mme_new[p] == mme_old[p]);
            assert(!child_filter(tag, p)(items[n]));
            assert(indices_where(items, child_filter(tag, p), n + 1) == indices_where(
                items,
                child_filter(tag, p),
                n,
            ));
        }
    }
    assert forall|p: Seq<char>| !(#[trigger] mme_new.contains_key(p)) implies indices_where(
        items,
        child_filter(tag, p),
        n + 1,
    ).len() == 0 by {
        assert(p != par);
        assert(!mme_old.contains_key(p));
        assert(!child_filter(tag, p)(items[n]));
        assert(indices_where(items, child_filter(tag, p), n + 1) == indices_where(
            items,
            child_filter(tag, p),
            n,
        ));
    }
}

fn decode_note_list(items: &Vec<FlatItem>, idxs: &Vec<usize>) -> (r: Result<Vec<Note>, CoreError>)
    requires
        forall|k: int| 0 <= k < idxs@.len() ==> (#[trigger] idxs@[k]) < items@.len(),
    ensures
        match r {
            Ok(ns) => spec_decode_notes(idx_items(items.deep_view(), idxs@)) == Some(
                ns.deep_view(),
            ),
            Err(e) => (spec_decode_notes(idx_items(items.deep_view(), idxs@)) is None) && e
                == CoreError::MalformedItem,
        },
{
    let ghost iv = items.deep_view();
    let mut notes: Vec<Note> = Vec::new();
    let mut k: usize = 0;
    proof {
        assert(idx_items(iv, idxs@.take(0)) =~= Seq::<FlatItemView>::empty());
        assert(notes.deep_view() =~= Seq::<NoteView>::empty());
    }
    while k < idxs.len()
        invariant
            0 <= k <= idxs@.len(),
            iv == items.deep_view(),
            iv.len() == items@.len(),
            forall|t: int| 0 <= t < idxs@.len() ==> (#[trigger] idxs@[t]) < items@.len(),
            spec_decode_notes(idx_items(iv, idxs@.take(k as int))) == Some(notes.deep_view()),
        decreases idxs@.len() - k,
    {
        let j = idxs[k];
        let ghost old_notes = notes.deep_view();
        proof {
            lemma_idx_items_take_step(iv, idxs@, k as int);
            lemma_decode_notes_push(idx_items(iv, idxs@.take(k as int)), iv[j as int]);
            assert(iv[j as int] == items@[j as int]@);
        }
        match decode_note(&items[j]) {
            Ok(n) => {
                let ghost nv = n@;
                notes.push(n);
                proof {
                    assert(notes.deep_view() =~= old_notes.push(nv));
                    assert(idxs@.take(k as int + 1) == idxs@.take((k + 1) as int));
                }
            },
            Err(e) => {
                proof {
                    let full = idx_items(iv, idxs@);
                    assert(full[k as int] == iv[idxs@[k as int] as int]);
                    lemma_decode_notes_none(full, k as int);
                }
                return Err(e);
            },
        }
        k += 1;
    }
    proof {
        assert(idxs@.take(idxs@.len() as int) =~= idxs@);
    }
    Ok(notes)
}

fn assemble_group_list(
    items: &Vec<FlatItem>,
    gidxs: &Vec<usize>,
    notes_mm: &multimap::MultiMap<String, usize>,
) -> (r: Result<Vec<Group>, CoreError>)
    requires
        forall|k: int| 0 <= k < gidxs@.len() ==> (#[trigger] gidxs@[k]) < items@.len(),
        mm_covers(mm_entries(*notes_mm), items.deep_view(), note_tag(), items@.len() as int),
        items.deep_view().len() == items@.len(),
        items@.len() <= usize::MAX,
    ensures
        match r {
            Ok(gs) => spec_assemble_groups(
                items.deep_view(),
                idx_items(items.deep_view(), gidxs@),
            ) == Some(gs.deep_view()),
            Err(e) => (spec_assemble_groups(
                items.deep_view(),
                idx_items(items.deep_view(), gidxs@),
            ) is None) && e == CoreError::MalformedItem,
        },
{
    let ghost iv = items.deep_view();
    let mut groups: Vec<Group> = Vec::new();
    let mut k: usize = 0;
    proof {
        assert(idx_items(iv, gidxs@.take(0)) =~= Seq::<FlatItemView>::empty());
        assert(groups.deep_view() =~= Seq::<GroupView>::empty());
    }
    while k < gidxs.len()
        invariant
            0 <= k <= gidxs@.len(),
            iv == items.deep_view(),
            iv.len() == items@.len(),
            iv.len() <= usize::MAX,
            forall|t: int| 0 <= t < gidxs@.len() ==> (#[trigger] gidxs@[t]) < items@.len(),
            mm_covers(mm_entries(*notes_mm), iv, note_tag(), iv.len() as int),
            spec_assemble_groups(iv, idx_items(iv, gidxs@.take(k as int))) == Some(
                groups.deep_view(),
            ),
        decreases gidxs@.len() - k,
    {
        let j = gidxs[k];
        let ghost old_groups = groups.deep_view();
        proof {
            lemma_idx_items_take_step(iv, gidxs@, k as int);
            lemma_assemble_groups_push(iv, idx_items(iv, gidxs@.take(k as int)), iv[j as int]);
            assert(iv[j as int] == items@[j as int]@);
        }
        match decode_group(&items[j]) {
            Ok(mut g) => {
                let ghost gv = spec_decode_group(iv[j as int])->0;
                match mm_get(notes_mm, &g.sk) {
                    None => {
                        proof {
                            lemma_indices_where_items(
                                iv,
                                child_filter(note_tag(), gv.sk),
                                iv.len() as int,
                            );
                            assert(iv.take(iv.len() as int) =~= iv);
                            assert(idx_items(iv, indices_where(
                                iv,
                                child_filter(note_tag(), gv.sk),
                                iv.len() as int,
                            )) =~= Seq::<FlatItemView>::empty());
                            assert(note_children(iv, gv.sk) =~= Seq::<FlatItemView>::empty());
                            assert(spec_assemble_group(iv, iv[j as int]) == Some(g@));
                        }
                        groups.push(g);
                        proof {
                            assert(groups.deep_view() =~= old_groups.push(
                                spec_assemble_group(iv, iv[j as int])->0,
                            ));
                            assert(gidxs@.take(k as int + 1) == gidxs@.take((k + 1) as int));
                        }
                    },
                    Some(nl) => {
                        proof {
                            lemma_indices_where_bounds(
                                iv,
                                child_filter(note_tag(), gv.sk),
                                iv.len() as int,
                            );
                            lemma_indices_where_items(
                                iv,
                                child_filter(note_tag(), gv.sk),
                                iv.len() as int,
                            );
                            assert(iv.take(iv.len() as int) =~= iv);
                            assert(idx_items(iv, nl@) == note_children(iv, gv.sk));
                        }
                        match decode_note_list(items, nl) {
                            Ok(ns) => {
                                let ghost nsv = ns.deep_view();
                                g.set_notes(ns);
                                proof {
                                    assert(g@ == (GroupView { notes: nsv, ..gv }));
                                    assert(spec_assemble_group(iv, iv[j as int]) == Some(g@));
                                }
                                groups.push(g);
                                proof {
                                    assert(groups.deep_view() =~= old_groups.push(
                                        spec_assemble_group(iv, iv[j as int])->0,
                                    ));
                                    assert(gidxs@.take(k as int + 1) == gidxs@.take(
                                        (k + 1) as int,
                                    ));
                                }
                            },
                            Err(e) => {
                                proof {
                                    assert(spec_assemble_group(iv, iv[j as int]) is None);
                                    let full = idx_items(iv, gidxs@);
                                    assert(full[k as int] == iv[gidxs@[k as int] as int]);
                                    lemma_assemble_groups_none(iv, full, k as int);
                                }
                                return Err(e);
                            },
                        }
                    },
                }
            },
            Err(e) => {
                proof {
                    assert(spec_assemble_group(iv, iv[j as int]) is None);
                    let full = idx_items(iv, gidxs@);
                    assert(full[k as int] == iv[gidxs@[k as int] as int]);
                    lemma_assemble_groups_none(iv, full, k as int);
                }
                return Err(e);
            },
        }
        k += 1;
    }
    proof {
        assert(gidxs@.take(gidxs@.len() as int) =~= gidxs@);
    }
    Ok(groups)
}

/// Reconstructs every document of the input, attaching group and note
/// children by parent-pointer joins. Fails with `MalformedItem` exactly
/// when the input is malformed in the sense of [`spec_aggregate`]; an
/// empty input yields an empty result.
pub fn aggregate(items: &Vec<FlatItem>) -> (r: Result<Documents, CoreError>)
    ensures
        match r {
            Ok(ds) => spec_aggregate(items.deep_view()) == Some(ds@),
            Err(e) => (spec_aggregate(items.deep_view()) is None) && e == CoreError::MalformedItem,
        },
{
    let ghost iv = items.deep_view();
    let doc_tag_s = String::from_str("document");
    let group_tag_s = String::from_str("group");
    let note_tag_s = String::from_str("note");
    let mut doc_idx: Vec<usize> = Vec::new();
    let mut groups_mm = mm_new();
    let mut notes_mm = mm_new();
    let mut i: usize = 0;
    proof {
        assert(doc_idx@ =~= indices_where(iv, doc_filter(), 0));
    }
    while i < items.len()
        invariant
            0 <= i <= items@.len(),
            iv == items.deep_view(),
            iv.len() == items@.len(),
            doc_tag_s@ == document_tag(),
            group_tag_s@ == group_tag(),
            note_tag_s@ == note_tag(),
            forall|j: int| 0 <= j < i ==> item_ok(#[trigger] iv[j]),
            doc_idx@ == indices_where(iv, doc_filter(), i as int),
            mm_covers(mm_entries(groups_mm), iv, group_tag(), i as int),
            mm_covers(mm_entries(notes_mm), iv, note_tag(), i as int),
        decreases items@.len() - i,
    {
        let item = &items[i];
        proof {
            assert(item@ == iv[i as int]);
            lemma_tags_distinct();
        }
        let tag = match item.pk_str() {
            Some(s) => s,
            None => {
                proof {
                    assert(!item_ok(iv[i as int]));
                }
                return Err(CoreError::MalformedItem);
            },
        };
        if *tag == doc_tag_s {
            proof {
                assert(is_document_item(iv[i as int]));
                assert(doc_idx@.push(i) =~= indices_where(iv, doc_filter(), i as int + 1));
                lemma_mm_covers_skip(mm_entries(groups_mm), iv, group_tag(), i as int);
                lemma_mm_covers_skip(mm_entries(notes_mm), iv, note_tag(), i as int);
            }
            doc_idx.push(i);
        } else if *tag == group_tag_s {
            let par = match item.parent_str() {
                Some(p) => p.clone(),
                None => {
                    proof {
                        assert(!item_ok(iv[i as int]));
                    }
                    return Err(CoreError::MalformedItem);
                },
            };
            proof {
                assert(is_group_item(iv[i as int]));
                lemma_mm_covers_skip(mm_entries(notes_mm), iv, note_tag(), i as int);
            }
            let ghost mme_old = mm_entries(groups_mm);
            mm_insert(&mut groups_mm, par, i);
            proof {
                lemma_mm_covers_insert(
                    mme_old,
                    mm_entries(groups_mm),
                    iv,
                    group_tag(),
                    i as int,
                    item_parent(iv[i as int])->0,
                );
            }
        } else if *tag == note_tag_s {
            let par = match item.parent_str() {
                Some(p) => p.clone(),
                None => {
                    proof {
                        assert(!item_ok(iv[i as int]));
                    }
                    return Err(CoreError::MalformedItem);
                },
            };
            proof {
                assert(is_note_item(iv[i as int]));
                lemma_mm_covers_skip(mm_entries(groups_mm), iv, group_tag(), i as int);
            }
            let ghost mme_old = mm_entries(notes_mm);
            mm_insert(&mut notes_mm, par, i);
            proof {
                lemma_mm_covers_insert(
                    mme_old,
                    mm_entries(notes_mm),
                    iv,
                    note_tag(),
                    i as int,
                    item_parent(iv[i as int])->0,
                );
            }
        } else {
            proof {
                assert(!item_ok(iv[i as int]));
            }
            return Err(CoreError::MalformedItem);
        }
        i += 1;
    }
    proof {
        assert(tags_ok(iv));
        assert(iv.len() <= usize::MAX);
        lemma_indices_where_bounds(iv, doc_filter(), iv.len() as int);
        lemma_indices_where_items(iv, doc_filter(), iv.len() as int);
        assert(iv.take(iv.len() as int) =~= iv);
        assert(idx_items(iv, doc_idx@) == doc_items(iv));
    }
    let mut out = Documents::new();
    let mut d: usize = 0;
    proof {
        assert(idx_items(iv, doc_idx@.take(0)) =~= Seq::<FlatItemView>::empty());
    }
    while d < doc_idx.len()
        invariant
            0 <= d <= doc_idx@.len(),
            iv == items.deep_view(),
            iv.len() == items@.len(),
            iv.len() <= usize::MAX,
            tags_ok(iv),
            forall|t: int| 0 <= t < doc_idx@.len() ==> (#[trigger] doc_idx@[t]) < items@.len(),
            idx_items(iv, doc_idx@) == doc_items(iv),
            mm_covers(mm_entries(groups_mm), iv, group_tag(), iv.len() as int),
            mm_covers(mm_entries(notes_mm), iv, note_tag(), iv.len() as int),
            spec_assemble_documents(iv, idx_items(iv, doc_idx@.take(d as int))) == Some(out@),
        decreases doc_idx@.len() - d,
    {
        let j = doc_idx[d];
        let ghost old_out = out@;
        proof {
            lemma_idx_items_take_step(iv, doc_idx@, d as int);
            lemma_assemble_documents_push(iv, idx_items(iv, doc_idx@.take(d as int)), iv[j as int]);
            assert(iv[j as int] == items@[j as int]@);
        }
        match decode_document(&items[j]) {
            Ok(mut doc) => {
                let ghost dv = spec_decode_document(iv[j as int])->0;
                match mm_get(&groups_mm, &doc.sk) {
                    None => {
                        proof {
                            lemma_indices_where_items(
                                iv,
                                child_filter(group_tag(), dv.sk),
                                iv.len() as int,
                            );
                            assert(iv.take(iv.len() as int) =~= iv);
                            assert(idx_items(iv, indices_where(
                                iv,
                                child_filter(group_tag(), dv.sk),
                                iv.len() as int,
                            )) =~= Seq::<FlatItemView>::empty());
                            assert(group_children(iv, dv.sk) =~= Seq::<FlatItemView>::empty());
                            assert(spec_assemble_document(iv, iv[j as int]) == Some(doc@));
                        }
                        out.0.push(doc);
                        proof {
                            assert(out@ =~= old_out.push(
                                spec_assemble_document(iv, iv[j as int])->0,
                            ));
                            assert(doc_idx@.take(d as int + 1) == doc_idx@.take((d + 1) as int));
                        }
                    },
                    Some(gl) => {
                        proof {
                            lemma_indices_where_bounds(
                                iv,
                                child_filter(group_tag(), dv.sk),
                                iv.len() as int,
                            );
                            lemma_indices_where_items(
                                iv,
                                child_filter(group_tag(), dv.sk),
                                iv.len() as int,
                            );
                            assert(iv.take(iv.len() as int) =~= iv);
                            assert(idx_items(iv, gl@) == group_children(iv, dv.sk));
                        }
                        match assemble_group_list(items, gl, &notes_mm) {
                            Ok(gs) => {
                                let ghost gsv = gs.deep_view();
                                doc.groups = gs;
                                proof {
                                    assert(doc@ == (DocumentView { groups: gsv, ..dv }));
                                    assert(spec_assemble_document(iv, iv[j as int]) == Some(doc@));
                                }
                                out.0.push(doc);
                                proof {
                                    assert(out@ =~= old_out.push(
                                        spec_assemble_document(iv, iv[j as int])->0,
                                    ));
                                    assert(doc_idx@.take(d as int + 1) == doc_idx@.take(
                                        (d + 1) as int,
                                    ));
                                }
                            },
                            Err(e) => {
                                proof {
                                    assert(spec_assemble_document(iv, iv[j as int]) is None);
                                    let full = idx_items(iv, doc_idx@);
                                    assert(full[d as int] == iv[doc_idx@[d as int] as int]);
                                    lemma_assemble_documents_none(iv, full, d as int);
                                }
                                return Err(e);
                            },
                        }
                    },
                }
            },
            Err(e) => {
                proof {
                    assert(spec_assemble_document(iv, iv[j as int]) is None);
                    let full = idx_items(iv, doc_idx@);
                    assert(full[d as int] == iv[doc_idx@[d as int] as int]);
                    lemma_assemble_documents_none(iv, full, d as int);
                }
                return Err(e);
            },
        }
        d += 1;
    }
    proof {
        assert(doc_idx@.take(doc_idx@.len() as int) =~= doc_idx@);
    }
    Ok(out)
}

/// Reconstructs the single document of the input: `MalformedItem` on a
/// malformed input, `NotFound` when the input holds no document item,
/// else the first reconstructed document.
pub fn aggregate_one(items: &Vec<FlatItem>) -> (r: Result<Document, CoreError>)
    ensures
        match r {
            Ok(d) => spec_aggregate_one(items.deep_view()) == Ok::<DocumentView, CoreError>(d@),
            Err(e) => spec_aggregate_one(items.deep_view()) == Err::<DocumentView, CoreError>(e),
        },
{
    match aggregate(items) {
        Err(e) => Err(e),
        Ok(ds) => {
            let mut v = ds.0;
            if v.len() == 0 {
                proof {
                    assert(v.deep_view().len() == 0);
                }
                Err(CoreError::NotFound)
            } else {
                let d = v.remove(0);
                Ok(d)
            }
        },
    }
}

} // verus!
