use notestore::aggregate::{aggregate, aggregate_one};
use notestore::entities::{Document, Documents, Group, Note};
use notestore::error::CoreError;
use notestore::fanout::plan_document_write;
use notestore::notes::Note as NoteRecord;
use notestore::requests::{DocumentReq, GroupReq, NoteReq};
use notestore::store::{persist_document, persist_note, Table};

fn note_req(title: &str) -> NoteReq {
    NoteReq {
        title: title.to_string(),
        description: String::new(),
        created: 7,
        created_by: "alice".to_string(),
        updated_by: "alice".to_string(),
    }
}

fn group_req(title: &str, notes: Vec<NoteReq>) -> GroupReq {
    GroupReq {
        title: title.to_string(),
        description: String::new(),
        created: 11,
        created_by: "alice".to_string(),
        updated_by: "alice".to_string(),
        notes,
    }
}

fn doc_req(title: &str, groups: Vec<GroupReq>) -> DocumentReq {
    DocumentReq {
        title: title.to_string(),
        updated_by: "alice".to_string(),
        description: String::new(),
        groups,
    }
}

#[test]
fn persisted_document_reads_back() {
    let mut table = Table::new();
    let req = doc_req("Plan", vec![group_req("Tasks", vec![note_req("Buy milk")])]);
    let id = persist_document(&mut table, &req).unwrap();
    assert!(!id.is_empty());
    let doc = aggregate_one(table.scan()).unwrap();
    assert_eq!(doc.title, "Plan");
    assert_eq!(doc.groups.len(), 1);
    assert_eq!(doc.groups[0].title, "Tasks");
    assert_eq!(doc.groups[0].notes.len(), 1);
    assert_eq!(doc.groups[0].notes[0].title, "Buy milk");
}

#[test]
fn interrupted_transaction_leaves_no_document_behind() {
    let mut table = Table::new();
    let before = table.scan().len();
    let req = doc_req("Plan", vec![group_req("Tasks", vec![])]);
    let (items, _) = plan_document_write(&req, 5000);
    let err = table.transact_put(&items, false).unwrap_err();
    assert_eq!(err, CoreError::Transaction);
    assert_eq!(table.scan().len(), before);
    let found = table.get_item(&"document".to_string(), &"DOCUMENT#5000".to_string());
    assert!(found.is_none());
    let docs = aggregate(table.scan()).unwrap();
    assert_eq!(docs.0.len(), 0);
}

#[test]
fn committed_transaction_is_fully_observable() {
    let mut table = Table::new();
    let req = doc_req("Plan", vec![group_req("Tasks", vec![])]);
    let (items, _) = plan_document_write(&req, 5000);
    table.transact_put(&items, true).unwrap();
    assert_eq!(table.scan().len(), 2);
    assert!(table
        .get_item(&"document".to_string(), &"DOCUMENT#5000".to_string())
        .is_some());
    assert!(table
        .get_item(&"group".to_string(), &"GROUP#5000-0".to_string())
        .is_some());
}

#[test]
fn put_item_upserts_by_key() {
    let mut table = Table::new();
    let (items_a, _) = plan_document_write(&doc_req("First", vec![]), 42);
    let (items_b, _) = plan_document_write(&doc_req("Second", vec![]), 42);
    table.transact_put(&items_a, true).unwrap();
    table.transact_put(&items_b, true).unwrap();
    assert_eq!(table.scan().len(), 1);
    let doc = aggregate_one(table.scan()).unwrap();
    assert_eq!(doc.title, "Second");
}

#[test]
fn query_filters_by_exact_parent() {
    let mut table = Table::new();
    let (items_a, _) = plan_document_write(&doc_req("First", vec![group_req("A", vec![])]), 1);
    let (items_b, _) = plan_document_write(&doc_req("Second", vec![group_req("B", vec![])]), 11);
    table.transact_put(&items_a, true).unwrap();
    table.transact_put(&items_b, true).unwrap();
    // "DOCUMENT#1" is a substring of "DOCUMENT#11": exact matching must
    // keep the two apart.
    let of_first = table.query(&"group".to_string(), &"DOCUMENT#1".to_string());
    assert_eq!(of_first.len(), 1);
    let g = notestore::entities::decode_group(&of_first[0]).unwrap();
    assert_eq!(g.title, "A");
    let of_second = table.query(&"group".to_string(), &"DOCUMENT#11".to_string());
    assert_eq!(of_second.len(), 1);
    let g = notestore::entities::decode_group(&of_second[0]).unwrap();
    assert_eq!(g.title, "B");
}

#[test]
fn note_write_succeeds_under_the_right_group() {
    let mut table = Table::new();
    let (items, _) = plan_document_write(&doc_req("Plan", vec![group_req("Tasks", vec![])]), 1000);
    table.transact_put(&items, true).unwrap();
    persist_note(&mut table, "1000", "1000-0", &note_req("Buy milk")).unwrap();
    let doc = aggregate_one(table.scan()).unwrap();
    assert_eq!(doc.groups.len(), 1);
    assert_eq!(doc.groups[0].notes.len(), 1);
    assert_eq!(doc.groups[0].notes[0].title, "Buy milk");
}

#[test]
fn note_write_to_absent_document_is_not_found() {
    let mut table = Table::new();
    let (items, _) = plan_document_write(&doc_req("Plan", vec![group_req("Tasks", vec![])]), 1000);
    table.transact_put(&items, true).unwrap();
    let err = persist_note(&mut table, "9999", "1000-0", &note_req("x")).unwrap_err();
    assert_eq!(err, CoreError::NotFound);
    assert_eq!(table.scan().len(), 2);
}

#[test]
fn note_write_to_absent_group_is_not_found() {
    let mut table = Table::new();
    let (items, _) = plan_document_write(&doc_req("Plan", vec![group_req("Tasks", vec![])]), 1000);
    table.transact_put(&items, true).unwrap();
    let err = persist_note(&mut table, "1000", "9999-0", &note_req("x")).unwrap_err();
    assert_eq!(err, CoreError::NotFound);
}

#[test]
fn note_write_across_documents_is_an_integrity_error() {
    let mut table = Table::new();
    let (items_a, _) = plan_document_write(&doc_req("A", vec![group_req("Of A", vec![])]), 1000);
    let (items_b, _) = plan_document_write(&doc_req("B", vec![group_req("Of B", vec![])]), 2000);
    table.transact_put(&items_a, true).unwrap();
    table.transact_put(&items_b, true).unwrap();
    // The group belongs to document 1000, the write targets document 2000.
    let err = persist_note(&mut table, "2000", "1000-0", &note_req("x")).unwrap_err();
    assert_eq!(err, CoreError::Integrity);
    assert_eq!(table.scan().len(), 4);
}

#[test]
fn entity_builders_assemble_a_document() {
    let mut doc = Document::new(
        "document".to_string(),
        "DOCUMENT#1".to_string(),
        "Plan".to_string(),
        String::new(),
        1,
        "alice".to_string(),
    );
    let mut group = Group::new("GROUP#1-0".to_string(), "Tasks".to_string(), String::new(), 1);
    group.set_notes(vec![Note {
        title: "Buy milk".to_string(),
        description: String::new(),
        created: 1,
    }]);
    doc.add_group(group);
    assert_eq!(doc.groups.len(), 1);
    assert_eq!(doc.groups[0].notes[0].title, "Buy milk");
    let empty = Documents::new();
    assert_eq!(empty.0.len(), 0);
}

#[test]
fn note_record_carries_request_fields() {
    let record = NoteRecord::from_req(&note_req("Buy milk"), 77);
    assert_eq!(record.title, "Buy milk");
    assert_eq!(record.created, 77);
    assert_eq!(record.created_by, "alice");
    assert_eq!(record.parent, "");
}
