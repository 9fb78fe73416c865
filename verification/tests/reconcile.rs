use freemind::names::NodeName;
use freemind::values::NodeValue;
use freemind::records::EntryNode;
use freemind::passes::{delete_pass, edit_pass, insert_pass};
use freemind::state::{AppConfig, AppState};
use freemind::tree::Registry;

fn b(s: &str) -> Vec<u8> {
    s.as_bytes().to_vec()
}

fn s(v: &[u8]) -> String {
    String::from_utf8(v.to_vec()).unwrap()
}

fn rec(id: Option<u16>, pairs: &[(&str, &str)]) -> EntryNode {
    let mut fields: Vec<(NodeName, NodeValue)> = Vec::new();
    for (k, v) in pairs {
        fields.push((NodeName::from_str(&b(k)), NodeValue::Text(b(v))));
    }
    EntryNode::new(id, fields)
}

#[test]
fn deletion_removes_exactly_the_present_marked_records() {
    let doc = b(
        "<registry><entry id=\"1\"><name>a</name></entry><entry id=\"2\"><name>b</name></entry>\
         <entry id=\"3\"><name>c</name></entry></registry>",
    );
    // ids 1 and 3 are present; 9 is not
    let removed = vec![1u16, 3u16, 9u16];
    let (changed, out, pruned) = delete_pass(&doc, &removed);
    assert!(changed);
    assert_eq!(pruned, vec![1u16, 3u16]);
    assert_eq!(s(&out), "<registry><entry id=\"2\"><name>b</name></entry></registry>");
}

#[test]
fn deletion_is_idempotent_on_its_own_output() {
    let doc = b(
        "<registry>stray<entry id=\"1\"><name>a</name></entry>tail\
         <entry id=\"2\"><name>b</name></entry></registry>",
    );
    let removed = vec![1u16];
    let (changed, out, _) = delete_pass(&doc, &removed);
    assert!(changed);
    let (changed2, out2, pruned2) = delete_pass(&out, &removed);
    assert!(!changed2);
    assert_eq!(pruned2.len(), 0);
    assert_eq!(s(&out2), s(&out));
}

#[test]
fn deletion_skips_nested_structure_of_removed_records() {
    let doc = b(
        "<registry><entry id=\"1\"><tags><tag>x</tag></tags></entry>\
         <entry id=\"2\"><name>keep</name></entry></registry>",
    );
    let (_, out, pruned) = delete_pass(&doc, &vec![1u16]);
    assert_eq!(pruned, vec![1u16]);
    assert_eq!(s(&out), "<registry><entry id=\"2\"><name>keep</name></entry></registry>");
}

#[test]
fn deletion_keeps_untouched_content_byte_for_byte() {
    let doc = b(
        "<registry>\n  <entry id=\"1\"><name>gone</name></entry>\n  \
         <entry id=\"2\"><name> kept as is </name></entry>\n</registry>",
    );
    let (_, out, pruned) = delete_pass(&doc, &vec![1u16]);
    assert_eq!(pruned, vec![1u16]);
    // everything outside the removed span survives verbatim, whitespace included
    assert_eq!(
        s(&out),
        "<registry>\n  \n  <entry id=\"2\"><name> kept as is </name></entry>\n</registry>"
    );
}

#[test]
fn deletion_on_malformed_text_is_a_no_op() {
    let doc = b("<registry><entry id=\"1");
    let (changed, out, pruned) = delete_pass(&doc, &vec![1u16]);
    assert!(!changed);
    assert_eq!(pruned.len(), 0);
    assert_eq!(s(&out), s(&doc));
}

#[test]
fn edit_rewrites_known_fields_and_forwards_unknown_ones() {
    let doc = b(
        "<registry><entry id=\"7\"><name>Old</name><description>old</description>\
         <server-only>keep</server-only></entry></registry>",
    );
    let mut ws: Vec<EntryNode> = Vec::new();
    let mut r = rec(Some(7), &[("description", "new")]);
    r.modified();
    ws.push(r);
    let (changed, out, edited) = edit_pass(&doc, &ws);
    assert!(changed);
    assert_eq!(edited, vec![7u16]);
    let text = s(&out);
    assert!(text.contains("<description>new</description>"));
    assert!(!text.contains("old</description>"));
    // fields the local record does not know survive
    assert!(text.contains("<name>Old</name>"));
    assert!(text.contains("<server-only>keep</server-only>"));
}

#[test]
fn edit_leaves_unrelated_records_byte_identical() {
    let other = "<entry id=\"9\"><name>Same</name><due>10</due></entry>";
    let doc = b(&format!(
        "<registry><entry id=\"7\"><description>old</description></entry>{}</registry>",
        other
    ));
    let mut ws: Vec<EntryNode> = Vec::new();
    let mut r = rec(Some(7), &[("description", "new")]);
    r.modified();
    ws.push(r);
    let (_, out, _) = edit_pass(&doc, &ws);
    assert!(s(&out).contains(other));
}

#[test]
fn edit_without_modified_records_changes_nothing() {
    let doc = b("<registry><entry id=\"7\"><name>a</name></entry></registry>");
    let ws: Vec<EntryNode> = vec![rec(Some(7), &[("name", "b")])];
    let (changed, out, edited) = edit_pass(&doc, &ws);
    assert!(!changed);
    assert_eq!(edited.len(), 0);
    assert_eq!(s(&out), s(&doc));
}

#[test]
fn insertion_puts_fresh_records_first_under_the_root() {
    let doc = b("<registry><entry id=\"1\"><name>old</name></entry></registry>");
    let ws = vec![rec(Some(1), &[("name", "old")]), rec(Some(5), &[("name", "fresh")])];
    let fresh = vec![5u16];
    let out = insert_pass(&doc, &ws, &fresh);
    assert_eq!(
        s(&out),
        "<registry><entry id=\"5\"><name>fresh</name></entry>\
         <entry id=\"1\"><name>old</name></entry></registry>"
    );
}

#[test]
fn sort_by_due_treats_absent_due_as_zero() {
    let mut st = AppState::new(AppConfig::empty());
    st.push(Some(rec(Some(1), &[])));
    st.push(Some(rec(Some(2), &[("due", "500")])));
    st.push(Some(rec(Some(3), &[("due", "100")])));
    st.sort_by_due();
    assert_eq!(st.elements[0].id(), Some(1));
    assert_eq!(st.elements[1].id(), Some(3));
    assert_eq!(st.elements[2].id(), Some(2));
    assert_eq!(st.elements[0].due_or_zero(), 0);
}

#[test]
fn sync_scenario_edit_preserves_remote_only_fields() {
    let mut st = AppState::new(AppConfig::empty());
    let mut r = rec(Some(7), &[("description", "new")]);
    r.modified();
    st.push(Some(r));
    let fetched = b(
        "<registry><entry id=\"7\"><name>Old</name><description>old</description></entry></registry>",
    );
    let plan = st.prepare_sync(&fetched).unwrap();
    assert!(plan.needs_upload);
    let text = s(&plan.upload_doc);
    assert!(text.contains("<name>Old</name>"));
    assert!(text.contains("<description>new</description>"));
    assert!(!text.contains(">old<"));
    st.commit_sync(plan);
    assert!(st.is_synced());
    assert!(!st.elements[0].is_modified());
    assert_eq!(st.elements[0].id(), Some(7));
}

#[test]
fn sync_scenario_new_record_gets_an_id_and_leads_the_root() {
    let mut st = AppState::new(AppConfig::empty());
    st.push(Some(rec(None, &[("name", "Buy milk")])));
    let fetched = b("<registry><entry id=\"3\"><name>taken</name></entry></registry>");
    let plan = st.prepare_sync(&fetched).unwrap();
    assert!(plan.needs_upload);
    assert_eq!(plan.fresh.len(), 1);
    let id = plan.fresh[0];
    assert_ne!(id, 0);
    assert_ne!(id, 3);
    let text = s(&plan.upload_doc);
    let expected_head = format!("<registry><entry id=\"{}\"><name>Buy milk</name></entry>", id);
    assert!(text.starts_with(&expected_head));
    st.commit_sync(plan);
    assert_eq!(st.elements.len(), 2);
    let minted = st.elements.iter().find(|e| e.id() == Some(id)).unwrap();
    assert_eq!(s(&minted.title().unwrap()), "Buy milk");
}

#[test]
fn sync_prunes_removed_records_from_both_sides() {
    let mut st = AppState::new(AppConfig::empty());
    let mut dead = rec(Some(2), &[("name", "dead")]);
    dead.set_removed();
    st.push(Some(dead));
    st.push(Some(rec(Some(4), &[("name", "alive")])));
    let fetched = b(
        "<registry><entry id=\"2\"><name>dead</name></entry>\
         <entry id=\"4\"><name>alive</name></entry></registry>",
    );
    let plan = st.prepare_sync(&fetched).unwrap();
    assert!(plan.needs_upload);
    let text = s(&plan.upload_doc);
    assert!(!text.contains("dead"));
    assert!(text.contains("alive"));
    st.commit_sync(plan);
    assert_eq!(st.elements.len(), 1);
    assert_eq!(st.elements[0].id(), Some(4));
}

#[test]
fn sync_merges_unknown_remote_records() {
    let mut st = AppState::new(AppConfig::empty());
    st.push(Some(rec(Some(1), &[("name", "mine"), ("due", "900")])));
    let fetched = b(
        "<registry><entry id=\"1\"><name>mine</name></entry>\
         <entry id=\"8\"><name>theirs</name><due>5</due></entry></registry>",
    );
    let plan = st.prepare_sync(&fetched).unwrap();
    assert!(!plan.needs_upload);
    st.commit_sync(plan);
    assert_eq!(st.elements.len(), 2);
    // sorted by due date ascending
    assert_eq!(st.elements[0].id(), Some(8));
    assert_eq!(st.elements[1].id(), Some(1));
    assert!(st.is_synced());
}

#[test]
fn sync_rejects_a_malformed_document() {
    let st = AppState::new(AppConfig::empty());
    let fetched = b("<registry><entry id=\"1");
    let err = st.prepare_sync(&fetched).unwrap_err();
    assert_eq!(err, freemind::sync::SyncError::MalformedDocument);
}

#[test]
fn decode_survives_unknown_structure() {
    let doc = b(
        "<registry><future-tag keep=\"1\">ignored</future-tag>\
         <entry id=\"6\"><name>n</name></entry></registry>",
    );
    let reg = Registry::from_bytes(&doc).unwrap();
    assert_eq!(reg.entries().len(), 1);
    // a pass copies the unknown structure through verbatim
    let (_, out, _) = delete_pass(&doc, &vec![6u16]);
    assert!(s(&out).contains("<future-tag keep=\"1\">ignored</future-tag>"));
}
