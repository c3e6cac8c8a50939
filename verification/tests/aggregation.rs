use notestore::aggregate::{aggregate, aggregate_one};
use notestore::attr::{AttrValue, FlatItem};
use notestore::entities::{decode_document, decode_group, decode_note};
use notestore::error::CoreError;
use notestore::fanout::plan_document_write;
use notestore::requests::{DocumentReq, GroupReq, NoteReq};

fn s(x: &str) -> Option<AttrValue> {
    Some(AttrValue::S(x.to_string()))
}

fn n(x: i64) -> Option<AttrValue> {
    Some(AttrValue::N(x))
}

fn document_item(sk: &str, title: &str) -> FlatItem {
    FlatItem {
        pk: s("document"),
        sk: s(sk),
        title: s(title),
        description: s("a document"),
        created: n(100),
        last_updated: n(100),
        updated_by: s("alice"),
        parent: None,
    }
}

fn group_item(sk: &str, title: &str, parent: &str) -> FlatItem {
    FlatItem {
        pk: s("group"),
        sk: s(sk),
        title: s(title),
        description: s("a group"),
        created: n(100),
        last_updated: n(100),
        updated_by: s("alice"),
        parent: s(parent),
    }
}

fn note_item(sk: &str, title: &str, parent: &str) -> FlatItem {
    FlatItem {
        pk: s("note"),
        sk: s(sk),
        title: s(title),
        description: s("a note"),
        created: n(100),
        last_updated: n(100),
        updated_by: s("alice"),
        parent: s(parent),
    }
}

fn note_req(title: &str) -> NoteReq {
    NoteReq {
        title: title.to_string(),
        description: format!("note {title}"),
        created: 7,
        created_by: "alice".to_string(),
        updated_by: "alice".to_string(),
    }
}

fn group_req(title: &str, notes: Vec<NoteReq>) -> GroupReq {
    GroupReq {
        title: title.to_string(),
        description: format!("group {title}"),
        created: 11,
        created_by: "alice".to_string(),
        updated_by: "alice".to_string(),
        notes,
    }
}

#[test]
fn empty_input_aggregates_to_nothing() {
    let items: Vec<FlatItem> = Vec::new();
    let docs = aggregate(&items).unwrap();
    assert_eq!(docs.0.len(), 0);
}

#[test]
fn empty_input_has_no_single_document() {
    let items: Vec<FlatItem> = Vec::new();
    assert_eq!(aggregate_one(&items).unwrap_err(), CoreError::NotFound);
}

#[test]
fn scenario_one_document_one_group_one_note() {
    let req = DocumentReq {
        title: "Plan".to_string(),
        updated_by: "alice".to_string(),
        description: "".to_string(),
        groups: vec![group_req("Tasks", vec![note_req("Buy milk")])],
    };
    let (items, id) = plan_document_write(&req, 1000);
    assert_eq!(id, "1000");
    let doc = aggregate_one(&items).unwrap();
    assert_eq!(doc.title, "Plan");
    assert_eq!(doc.sk, "DOCUMENT#1000");
    assert_eq!(doc.groups.len(), 1);
    assert_eq!(doc.groups[0].title, "Tasks");
    assert_eq!(doc.groups[0].notes.len(), 1);
    assert_eq!(doc.groups[0].notes[0].title, "Buy milk");
}

#[test]
fn round_trip_keeps_titles_descriptions_and_counts() {
    let req = DocumentReq {
        title: "Trip".to_string(),
        updated_by: "bob".to_string(),
        description: "around the world".to_string(),
        groups: vec![
            group_req("Packing", vec![note_req("passport"), note_req("socks")]),
            group_req("Tickets", vec![note_req("flight")]),
            group_req("Later", vec![]),
        ],
    };
    let (items, _) = plan_document_write(&req, -3);
    let docs = aggregate(&items).unwrap();
    assert_eq!(docs.0.len(), 1);
    let doc = &docs.0[0];
    assert_eq!(doc.title, "Trip");
    assert_eq!(doc.description, "around the world");
    assert_eq!(doc.updated_by, "bob");
    assert_eq!(doc.groups.len(), 3);
    for (i, g) in req.groups.iter().enumerate() {
        assert_eq!(doc.groups[i].title, g.title);
        assert_eq!(doc.groups[i].description, g.description);
        assert_eq!(doc.groups[i].notes.len(), g.notes.len());
        for (k, note) in g.notes.iter().enumerate() {
            assert_eq!(doc.groups[i].notes[k].title, note.title);
            assert_eq!(doc.groups[i].notes[k].description, note.description);
        }
    }
}

#[test]
fn orphan_group_is_excluded_not_an_error() {
    let req = DocumentReq {
        title: "Plan".to_string(),
        updated_by: "alice".to_string(),
        description: "".to_string(),
        groups: vec![group_req("Tasks", vec![])],
    };
    let (mut items, _) = plan_document_write(&req, 500);
    items.push(group_item("GROUP#999-0", "Lost", "DOCUMENT#999"));
    let docs = aggregate(&items).unwrap();
    assert_eq!(docs.0.len(), 1);
    assert_eq!(docs.0[0].groups.len(), 1);
    assert_eq!(docs.0[0].groups[0].title, "Tasks");
}

#[test]
fn orphans_alone_aggregate_to_nothing() {
    let items = vec![
        group_item("GROUP#1-0", "Lost", "DOCUMENT#1"),
        note_item("NOTE#1-0-0", "Adrift", "GROUP#1-0"),
    ];
    let docs = aggregate(&items).unwrap();
    assert_eq!(docs.0.len(), 0);
}

#[test]
fn two_documents_keep_their_own_children() {
    let items = vec![
        document_item("DOCUMENT#1", "First"),
        document_item("DOCUMENT#2", "Second"),
        group_item("GROUP#2-0", "Of second", "DOCUMENT#2"),
        group_item("GROUP#1-0", "Of first", "DOCUMENT#1"),
        note_item("NOTE#1", "In first's group", "GROUP#1-0"),
    ];
    let docs = aggregate(&items).unwrap();
    assert_eq!(docs.0.len(), 2);
    assert_eq!(docs.0[0].title, "First");
    assert_eq!(docs.0[0].groups.len(), 1);
    assert_eq!(docs.0[0].groups[0].title, "Of first");
    assert_eq!(docs.0[0].groups[0].notes.len(), 1);
    assert_eq!(docs.0[0].groups[0].notes[0].title, "In first's group");
    assert_eq!(docs.0[1].title, "Second");
    assert_eq!(docs.0[1].groups.len(), 1);
    assert_eq!(docs.0[1].groups[0].title, "Of second");
    assert_eq!(docs.0[1].groups[0].notes.len(), 0);
}

#[test]
fn item_without_type_tag_is_malformed() {
    let mut bad = document_item("DOCUMENT#1", "First");
    bad.pk = None;
    let items = vec![bad];
    assert_eq!(aggregate(&items).unwrap_err(), CoreError::MalformedItem);
}

#[test]
fn unknown_type_tag_is_malformed() {
    let mut bad = document_item("DOCUMENT#1", "First");
    bad.pk = s("task");
    let items = vec![bad];
    assert_eq!(aggregate(&items).unwrap_err(), CoreError::MalformedItem);
}

#[test]
fn child_without_parent_pointer_is_malformed() {
    let mut bad = group_item("GROUP#1-0", "Loose", "DOCUMENT#1");
    bad.parent = None;
    let items = vec![document_item("DOCUMENT#1", "First"), bad];
    assert_eq!(aggregate(&items).unwrap_err(), CoreError::MalformedItem);
}

#[test]
fn joined_item_missing_an_attribute_is_malformed() {
    let mut bad = group_item("GROUP#1-0", "Broken", "DOCUMENT#1");
    bad.title = None;
    let items = vec![document_item("DOCUMENT#1", "First"), bad];
    assert_eq!(aggregate(&items).unwrap_err(), CoreError::MalformedItem);
}

#[test]
fn wrongly_typed_attribute_is_malformed() {
    let mut bad = document_item("DOCUMENT#1", "First");
    bad.created = s("not a number");
    let items = vec![bad];
    assert_eq!(aggregate_one(&items).unwrap_err(), CoreError::MalformedItem);
}

#[test]
fn decoders_read_the_wire_fields() {
    let d = decode_document(&document_item("DOCUMENT#1", "First")).unwrap();
    assert_eq!(d.pk, "document");
    assert_eq!(d.sk, "DOCUMENT#1");
    assert_eq!(d.title, "First");
    assert_eq!(d.created, 100);
    assert_eq!(d.updated_by, "alice");
    assert_eq!(d.groups.len(), 0);

    let g = decode_group(&group_item("GROUP#1-0", "Tasks", "DOCUMENT#1")).unwrap();
    assert_eq!(g.sk, "GROUP#1-0");
    assert_eq!(g.title, "Tasks");
    assert_eq!(g.notes.len(), 0);

    let n = decode_note(&note_item("NOTE#1", "Buy milk", "GROUP#1-0")).unwrap();
    assert_eq!(n.title, "Buy milk");
    assert_eq!(n.description, "a note");
    assert_eq!(n.created, 100);
}

#[test]
fn decode_failures_name_the_malformed_item() {
    let mut bad = note_item("NOTE#1", "Buy milk", "GROUP#1-0");
    bad.description = None;
    assert_eq!(decode_note(&bad).unwrap_err(), CoreError::MalformedItem);
    let mut bad_group = group_item("GROUP#1-0", "Tasks", "DOCUMENT#1");
    bad_group.sk = Some(AttrValue::N(3));
    assert_eq!(decode_group(&bad_group).unwrap_err(), CoreError::MalformedItem);
}
