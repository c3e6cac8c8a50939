use vstd::prelude::*;
use crate::aggregate::note_tag;
use crate::attr::{item_parent, item_sk, AttrValue, AttrView, FlatItem, FlatItemView};
use crate::error::CoreError;
use crate::keys::{note_sort_key, spec_idec, spec_note_prefix, i64_to_dec};
use crate::requests::NoteReq;

verus! {

// The note write path: a two-stage dependent write. The caller fetches
// the targeted document and group; this module decides whether the note
// may be written (the group must exist and belong to the document) and
// builds the flat item to persist. The decision is deliberately not part
// of the document transaction: notes are added to entities that already
// exist.

/// The note record assembled from a request before it is persisted.
#[derive(Clone)]
pub struct Note {
    pub title: String,
    pub description: String,
    pub created: i64,
    pub created_by: String,
    pub updated_by: String,
    pub parent: String,
}

/// The mathematical value of a write-path `Note`.
pub struct NoteRecordView {
    pub title: Seq<char>,
    pub description: Seq<char>,
    pub created: int,
    pub created_by: Seq<char>,
    pub updated_by: Seq<char>,
    pub parent: Seq<char>,
}

impl View for Note {
    type V = NoteRecordView;

    open spec fn view(&self) -> NoteRecordView {
        NoteRecordView {
            title: self.title@,
            description: self.description@,
            created: self.created as int,
            created_by: self.created_by@,
            updated_by: self.updated_by@,
            parent: self.parent@,
        }
    }
}

impl Note {
    /// The note record of a request, created at `t`, its parent pointer
    /// still unset.
    pub fn from_req(req: &NoteReq, t: i64) -> (r: Note)
        ensures
            r@ == (NoteRecordView {
                title: req.title@,
                description: req.description@,
                created: t as int,
                created_by: req.created_by@,
                updated_by: req.updated_by@,
                parent: Seq::<char>::empty(),
            }),
    {
        let parent = String::new();
        Note {
            title: req.title.clone(),
            description: req.description.clone(),
            created: t,
            created_by: req.created_by.clone(),
            updated_by: req.updated_by.clone(),
            parent,
        }
    }
}

/// The view of an optional fetched item.
pub open spec fn opt_item_view(i: Option<&FlatItem>) -> Option<FlatItemView> {
    match i {
        Some(x) => Some(x@),
        None => None,
    }
}

/// The referential check before a note write: the targeted document and
/// group must both have been found, and the group's parent pointer must
/// name the document's sort key; the result is the group's sort key, the
/// parent of the note to write. Absence is `NotFound`, a group belonging
/// to another document is `Integrity`, an unreadable key or pointer is
/// `MalformedItem`.
pub open spec fn spec_resolve_note_parent(
    doc: Option<FlatItemView>,
    group: Option<FlatItemView>,
) -> Result<Seq<char>, CoreError> {
    match doc {
        None => Err(CoreError::NotFound),
        Some(d) => match group {
            None => Err(CoreError::NotFound),
            Some(g) => match (item_sk(d), item_parent(g), item_sk(g)) {
                (Some(dsk), Some(gpar), Some(gsk)) => if gpar == dsk {
                    Ok(gsk)
                } else {
                    Err(CoreError::Integrity)
                },
                _ => Err(CoreError::MalformedItem),
            },
        },
    }
}

/// Decides whether a note may be written under the fetched document and
/// group, and returns the note's parent sort key.
pub fn resolve_note_parent(doc: Option<&FlatItem>, group: Option<&FlatItem>) -> (r: Result<
    String,
    CoreError,
>)
    ensures
        match r {
            Ok(s) => spec_resolve_note_parent(opt_item_view(doc), opt_item_view(group))
                == Ok::<Seq<char>, CoreError>(s@),
            Err(e) => spec_resolve_note_parent(opt_item_view(doc), opt_item_view(group))
                == Err::<Seq<char>, CoreError>(e),
        },
{
    let d = match doc {
        Some(d) => d,
        None => return Err(CoreError::NotFound),
    };
    let g = match group {
        Some(g) => g,
        None => return Err(CoreError::NotFound),
    };
    let dsk = match d.sk_str() {
        Some(s) => s,
        None => return Err(CoreError::MalformedItem),
    };
    let gpar = match g.parent_str() {
        Some(s) => s,
        None => return Err(CoreError::MalformedItem),
    };
    let gsk = match g.sk_str() {
        Some(s) => s,
        None => return Err(CoreError::MalformedItem),
    };
    if *gpar == *dsk {
        Ok(gsk.clone())
    } else {
        Err(CoreError::Integrity)
    }
}

/// The flat item persisting one note created at `t` under the parent
/// group whose sort key is `parent`.
pub open spec fn spec_note_write_item(req: NoteReq, parent: Seq<char>, t: i64) -> FlatItemView {
    FlatItemView {
        pk: Some(AttrView::S(note_tag())),
        sk: Some(AttrView::S(spec_note_prefix() + spec_idec(t as int))),
        title: Some(AttrView::S(req.title@)),
        description: Some(AttrView::S(req.description@)),
        created: Some(AttrView::N(t as int)),
        last_updated: Some(AttrView::N(t as int)),
        updated_by: Some(AttrView::S(req.updated_by@)),
        parent: Some(AttrView::S(parent)),
    }
}

/// Builds the flat item persisting one note request at timestamp `t`,
/// its parent pointer naming the given group sort key.
pub fn build_note_item(req: &NoteReq, parent_sk: &String, t: i64) -> (r: FlatItem)
    ensures
        r@ == spec_note_write_item(*req, parent_sk@, t),
{
    let raw = i64_to_dec(t);
    let nsk = note_sort_key(raw.as_str());
    let item = FlatItem {
        pk: Some(AttrValue::S(String::from_str("note"))),
        sk: Some(AttrValue::S(nsk)),
        title: Some(AttrValue::S(req.title.clone())),
        description: Some(AttrValue::S(req.description.clone())),
        created: Some(AttrValue::N(t)),
        last_updated: Some(AttrValue::N(t)),
        updated_by: Some(AttrValue::S(req.updated_by.clone())),
        parent: Some(AttrValue::S(parent_sk.clone())),
    };
    item
}

} // verus!
