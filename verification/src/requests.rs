use vstd::prelude::*;

verus! {

// The caller-facing request shapes consumed by the write-side fan-out.
// They arrive from the excluded transport layer as plain values; fields
// the transport treats as optional arrive defaulted.

/// A request to create one note.
#[derive(Clone)]
pub struct NoteReq {
    pub title: String,
    pub description: String,
    pub created: i64,
    pub created_by: String,
    pub updated_by: String,
}

/// A request to create one group, with its nested notes.
#[derive(Clone)]
pub struct GroupReq {
    pub title: String,
    pub description: String,
    pub created: i64,
    pub created_by: String,
    pub updated_by: String,
    pub notes: Vec<NoteReq>,
}

/// A request to create one document, with its nested groups.
#[derive(Clone)]
pub struct DocumentReq {
    pub title: String,
    pub updated_by: String,
    pub description: String,
    pub groups: Vec<GroupReq>,
}

} // verus!
