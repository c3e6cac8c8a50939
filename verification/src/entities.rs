use vstd::prelude::*;
use crate::attr::{attr_number, attr_string, AttrValue, FlatItem, FlatItemView};
use crate::error::CoreError;

verus! {

// The hierarchical entities that the read-side aggregator rebuilds from
// flat items, together with the decoders from the wire shape. A missing
// required attribute, or one of the wrong kind, is a hard decode failure
// (`CoreError::MalformedItem`), never a silently defaulted value.

/// A note, the leaf entity, as reconstructed from one flat item.
#[derive(Clone, Debug)]
pub struct Note {
    pub title: String,
    pub description: String,
    pub created: i64,
}

/// The mathematical value of a `Note`.
pub struct NoteView {
    pub title: Seq<char>,
    pub description: Seq<char>,
    pub created: int,
}

impl View for Note {
    type V = NoteView;

    open spec fn view(&self) -> NoteView {
        NoteView { title: self.title@, description: self.description@, created: self.created as int }
    }
}

impl DeepView for Note {
    type V = NoteView;

    open spec fn deep_view(&self) -> NoteView {
        self.view()
    }
}

/// A group of notes, child of exactly one document.
#[derive(Clone, Debug)]
pub struct Group {
    pub sk: String,
    pub title: String,
    pub description: String,
    pub created: i64,
    pub notes: Vec<Note>,
}

/// The mathematical value of a `Group`.
pub struct GroupView {
    pub sk: Seq<char>,
    pub title: Seq<char>,
    pub description: Seq<char>,
    pub created: int,
    pub notes: Seq<NoteView>,
}

impl View for Group {
    type V = GroupView;

    open spec fn view(&self) -> GroupView {
        GroupView {
            sk: self.sk@,
            title: self.title@,
            description: self.description@,
            created: self.created as int,
            notes: self.notes.deep_view(),
        }
    }
}

impl DeepView for Group {
    type V = GroupView;

    open spec fn deep_view(&self) -> GroupView {
        self.view()
    }
}

impl Group {
    /// A group with the given attributes and no notes yet.
    pub fn new(sk: String, title: String, description: String, created: i64) -> (r: Group)
        ensures
            r@ == (GroupView {
                sk: sk@,
                title: title@,
                description: description@,
                created: created as int,
                notes: Seq::<NoteView>::empty(),
            }),
    {
        let notes: Vec<Note> = Vec::new();
        proof {
            assert(notes.deep_view() =~= Seq::<NoteView>::empty());
        }
        Group { sk, title, description, created, notes }
    }

    /// Replaces the group's note list.
    pub fn set_notes(&mut self, notes: Vec<Note>)
        ensures
            final(self)@ == (GroupView { notes: notes.deep_view(), ..old(self)@ }),
    {
        self.notes = notes;
    }
}

/// A document, the root entity, owning its groups.
#[derive(Clone, Debug)]
pub struct Document {
    pub pk: String,
    pub sk: String,
    pub title: String,
    pub description: String,
    pub created: i64,
    pub updated_by: String,
    pub groups: Vec<Group>,
}

/// The mathematical value of a `Document`.
pub struct DocumentView {
    pub pk: Seq<char>,
    pub sk: Seq<char>,
    pub title: Seq<char>,
    pub description: Seq<char>,
    pub created: int,
    pub updated_by: Seq<char>,
    pub groups: Seq<GroupView>,
}

impl View for Document {
    type V = DocumentView;

    open spec fn view(&self) -> DocumentView {
        DocumentView {
            pk: self.pk@,
            sk: self.sk@,
            title: self.title@,
            description: self.description@,
            created: self.created as int,
            updated_by: self.updated_by@,
            groups: self.groups.deep_view(),
        }
    }
}

impl DeepView for Document {
    type V = DocumentView;

    open spec fn deep_view(&self) -> DocumentView {
        self.view()
    }
}

impl Document {
    /// A document with the given attributes and no groups yet.
    pub fn new(
        pk: String,
        sk: String,
        title: String,
        description: String,
        created: i64,
        updated_by: String,
    ) -> (r: Document)
        ensures
            r@ == (DocumentView {
                pk: pk@,
                sk: sk@,
                title: title@,
                description: description@,
                created: created as int,
                updated_by: updated_by@,
                groups: Seq::<GroupView>::empty(),
            }),
    {
        let groups: Vec<Group> = Vec::new();
        proof {
            assert(groups.deep_view() =~= Seq::<GroupView>::empty());
        }
        Document { pk, sk, title, description, created, updated_by, groups }
    }

    /// Appends one group to the document's group list.
    pub fn add_group(&mut self, group: Group)
        ensures
            final(self)@ == (DocumentView {
                groups: old(self)@.groups.push(group@),
                ..old(self)@
            }),
    {
        let ghost before = self.groups.deep_view();
        self.groups.push(group);
        proof {
            assert(self.groups.deep_view() =~= before.push(group.deep_view()));
        }
    }
}

/// The documents reconstructed by one aggregation, in scan order.
#[derive(Clone, Debug)]
pub struct Documents(pub Vec<Document>);

impl View for Documents {
    type V = Seq<DocumentView>;

    open spec fn view(&self) -> Seq<DocumentView> {
        self.0.deep_view()
    }
}

impl Documents {
    /// An empty collection of documents.
    pub fn new() -> (r: Documents)
        ensures
            r@ == Seq::<DocumentView>::empty(),
    {
        let docs: Vec<Document> = Vec::new();
        proof {
            assert(docs.deep_view() =~= Seq::<DocumentView>::empty());
        }
        Documents(docs)
    }
}

/// The note read from a flat item, when the item carries a string
/// `title`, a string `description` and a numeric `created`.
pub open spec fn spec_decode_note(i: FlatItemView) -> Option<NoteView> {
    match (attr_string(i.title), attr_string(i.description), attr_number(i.created)) {
        (Some(t), Some(d), Some(c)) => Some(NoteView { title: t, description: d, created: c }),
        _ => None,
    }
}

/// The group read from a flat item (without notes, which are attached by
/// the aggregator), when the item carries a string `SK`, `title` and
/// `description` and a numeric `created`.
pub open spec fn spec_decode_group(i: FlatItemView) -> Option<GroupView> {
    match (attr_string(i.sk), attr_string(i.title), attr_string(i.description), attr_number(
        i.created,
    )) {
        (Some(sk), Some(t), Some(d), Some(c)) => Some(
            GroupView {
                sk: sk,
                title: t,
                description: d,
                created: c,
                notes: Seq::<NoteView>::empty(),
            },
        ),
        _ => None,
    }
}

/// The document read from a flat item (without groups), when the item
/// carries string `PK`, `SK`, `title`, `description` and `updatedBy`
/// attributes and a numeric `created`.
pub open spec fn spec_decode_document(i: FlatItemView) -> Option<DocumentView> {
    match (attr_string(i.pk), attr_string(i.sk), attr_string(i.title), attr_string(
        i.description,
    ), attr_number(i.created), attr_string(i.updated_by)) {
        (Some(pk), Some(sk), Some(t), Some(d), Some(c), Some(u)) => Some(
            DocumentView {
                pk: pk,
                sk: sk,
                title: t,
                description: d,
                created: c,
                updated_by: u,
                groups: Seq::<GroupView>::empty(),
            },
        ),
        _ => None,
    }
}

/// Decodes a note item; fails with `MalformedItem` exactly when a
/// required attribute is absent or of the wrong kind.
pub fn decode_note(item: &FlatItem) -> (r: Result<Note, CoreError>)
    ensures
        match r {
            Ok(n) => spec_decode_note(item@) == Some(n@),
            Err(e) => spec_decode_note(item@) is None && e == CoreError::MalformedItem,
        },
{
    let title = match &item.title {
        Some(AttrValue::S(s)) => s.clone(),
        _ => return Err(CoreError::MalformedItem),
    };
    let description = match &item.description {
        Some(AttrValue::S(s)) => s.clone(),
        _ => return Err(CoreError::MalformedItem),
    };
    let created = match &item.created {
        Some(AttrValue::N(n)) => *n,
        _ => return Err(CoreError::MalformedItem),
    };
    Ok(Note { title, description, created })
}

/// Decodes a group item (with an empty note list); fails with
/// `MalformedItem` exactly when a required attribute is absent or of the
/// wrong kind.
pub fn decode_group(item: &FlatItem) -> (r: Result<Group, CoreError>)
    ensures
        match r {
            Ok(g) => spec_decode_group(item@) == Some(g@),
            Err(e) => spec_decode_group(item@) is None && e == CoreError::MalformedItem,
        },
{
    let sk = match &item.sk {
        Some(AttrValue::S(s)) => s.clone(),
        _ => return Err(CoreError::MalformedItem),
    };
    let title = match &item.title {
        Some(AttrValue::S(s)) => s.clone(),
        _ => return Err(CoreError::MalformedItem),
    };
    let description = match &item.description {
        Some(AttrValue::S(s)) => s.clone(),
        _ => return Err(CoreError::MalformedItem),
    };
    let created = match &item.created {
        Some(AttrValue::N(n)) => *n,
        _ => return Err(CoreError::MalformedItem),
    };
    Ok(Group::new(sk, title, description, created))
}

/// Decodes a document item (with an empty group list); fails with
/// `MalformedItem` exactly when a required attribute is absent or of the
/// wrong kind.
pub fn decode_document(item: &FlatItem) -> (r: Result<Document, CoreError>)
    ensures
        match r {
            Ok(d) => spec_decode_document(item@) == Some(d@),
            Err(e) => spec_decode_document(item@) is None && e == CoreError::MalformedItem,
        },
{
    let pk = match &item.pk {
        Some(AttrValue::S(s)) => s.clone(),
        _ => return Err(CoreError::MalformedItem),
    };
    let sk = match &item.sk {
        Some(AttrValue::S(s)) => s.clone(),
        _ => return Err(CoreError::MalformedItem),
    };
    let title = match &item.title {
        Some(AttrValue::S(s)) => s.clone(),
        _ => return Err(CoreError::MalformedItem),
    };
    let description = match &item.description {
        Some(AttrValue::S(s)) => s.clone(),
        _ => return Err(CoreError::MalformedItem),
    };
    let created = match &item.created {
        Some(AttrValue::N(n)) => *n,
        _ => return Err(CoreError::MalformedItem),
    };
    let updated_by = match &item.updated_by {
        Some(AttrValue::S(s)) => s.clone(),
        _ => return Err(CoreError::MalformedItem),
    };
    Ok(Document::new(pk, sk, title, description, created, updated_by))
}

} // verus!
