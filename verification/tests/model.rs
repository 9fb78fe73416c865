use freemind::names::NodeName;
use freemind::values::{NodeValue, value_eq};
use freemind::records::EntryNode;
use freemind::doc::{tokenize, write_events, Event};
use freemind::tree::Registry;
use freemind::state::{AppCommand, AppFocus, AppConfig, AppState, AuthMethod};

fn b(s: &str) -> Vec<u8> {
    s.as_bytes().to_vec()
}

fn s(v: &[u8]) -> String {
    String::from_utf8(v.to_vec()).unwrap()
}

#[test]
fn name_from_str_known_tags() {
    assert!(matches!(NodeName::from_str(&b("name")), NodeName::Title));
    assert!(matches!(NodeName::from_str(&b("NAME")), NodeName::Title));
    assert!(matches!(NodeName::from_str(&b("description")), NodeName::Description));
    assert!(matches!(NodeName::from_str(&b("location")), NodeName::Location));
    assert!(matches!(NodeName::from_str(&b("color")), NodeName::Color));
    assert!(matches!(NodeName::from_str(&b("due")), NodeName::Due));
    assert!(matches!(NodeName::from_str(&b("duration")), NodeName::Duration));
    assert!(matches!(NodeName::from_str(&b("alert")), NodeName::Alert));
    match NodeName::from_str(&b("Tags")) {
        NodeName::Other(v) => assert_eq!(s(&v), "tags"),
        _ => panic!("expected an open name"),
    }
}

#[test]
fn name_order_ranks() {
    assert_eq!(NodeName::Title.order(), 0);
    assert_eq!(NodeName::Description.order(), 1);
    assert_eq!(NodeName::Location.order(), 2);
    assert_eq!(NodeName::Due.order(), 3);
    assert_eq!(NodeName::Duration.order(), 4);
    assert_eq!(NodeName::Color.order(), 254);
    assert_eq!(NodeName::Alert.order(), 254);
    assert_eq!(NodeName::Other(b("tags")).order(), 127 + 4);
    // an open name of any length ranks strictly below Color and Alert
    let long = NodeName::Other(vec![b'x'; 127]);
    assert!(long.order() < NodeName::Color.order());
    let longer = NodeName::Other(vec![b'x'; 254]);
    assert!(longer.order() < NodeName::Alert.order());
}

#[test]
fn record_accessors() {
    let mut fields: Vec<(NodeName, NodeValue)> = Vec::new();
    fields.push((NodeName::Title, NodeValue::Text(b("Shopping"))));
    fields.push((NodeName::Due, NodeValue::Text(b("500"))));
    let rec = EntryNode::new(Some(9), fields);
    assert_eq!(rec.id(), Some(9));
    assert_eq!(s(&rec.title().unwrap()), "Shopping");
    assert!(rec.description().is_none());
    assert_eq!(rec.due(), Some(500));
    assert_eq!(rec.node_count(), 2);
    assert!(!rec.is_removed());
    assert!(!rec.is_modified());
}

#[test]
fn record_due_rejects_bad_numbers() {
    let mut fields: Vec<(NodeName, NodeValue)> = Vec::new();
    fields.push((NodeName::Due, NodeValue::Text(b("soon"))));
    let rec = EntryNode::new(Some(1), fields);
    assert_eq!(rec.due(), None);
    let mut fields2: Vec<(NodeName, NodeValue)> = Vec::new();
    fields2.push((NodeName::Due, NodeValue::Text(b("4294967296"))));
    let rec2 = EntryNode::new(Some(2), fields2);
    assert_eq!(rec2.due(), None);
}

#[test]
fn record_insert_and_remove_fields() {
    let rec_fields: Vec<(NodeName, NodeValue)> = Vec::new();
    let mut rec = EntryNode::new(None, rec_fields);
    assert!(rec.insert_node(NodeName::Title, NodeValue::Text(b("a"))).is_none());
    let old = rec.insert_node(NodeName::Title, NodeValue::Text(b("b")));
    assert!(value_eq(&old.unwrap(), &NodeValue::Text(b("a"))));
    assert_eq!(rec.node_count(), 1);
    let gone = rec.remove_node(&NodeName::Title);
    assert!(value_eq(&gone.unwrap(), &NodeValue::Text(b("b"))));
    assert_eq!(rec.node_count(), 0);
}

#[test]
fn record_search_text_lowercases() {
    let mut fields: Vec<(NodeName, NodeValue)> = Vec::new();
    fields.push((NodeName::Title, NodeValue::Text(b("Buy MILK"))));
    fields.push((NodeName::Description, NodeValue::Text(b("At The Store"))));
    let rec = EntryNode::new(Some(1), fields);
    assert_eq!(s(&rec.get_text()), "buy milk at the store");
}

#[test]
fn record_flatten_and_get_vecs() {
    let mut nested: Vec<(NodeName, NodeValue)> = Vec::new();
    nested.push((NodeName::Other(b("tag")), NodeValue::Text(b("x"))));
    let mut fields: Vec<(NodeName, NodeValue)> = Vec::new();
    fields.push((NodeName::Other(b("tags")), NodeValue::Nested(nested)));
    fields.push((NodeName::Title, NodeValue::Text(b("T"))));
    let rec = EntryNode::new(Some(1), fields);
    assert_eq!(rec.node_count(), 2);
    assert_eq!(rec.flattened_node_count(), 2);
    let vecs = rec.get_vecs();
    // sorted by display rank: the title first, the open name after
    assert_eq!(s(&vecs[0].0), "name");
    assert_eq!(s(&vecs[0].1), "T");
    assert_eq!(s(&vecs[1].0), "tags.tag");
    assert_eq!(s(&vecs[1].1), "x");
}

#[test]
fn record_serialize_with_and_without_wrapper() {
    let mut fields: Vec<(NodeName, NodeValue)> = Vec::new();
    fields.push((NodeName::Title, NodeValue::Text(b("Hi"))));
    let rec = EntryNode::new(Some(12), fields);
    assert_eq!(s(&rec.serialize(true)), "<entry id=\"12\"><name>Hi</name></entry>");
    assert_eq!(s(&rec.serialize(false)), "<name>Hi</name>");
    let idless = EntryNode::new(None, Vec::new());
    assert_eq!(s(&idless.serialize(true)), "");
}

#[test]
fn generate_id_avoids_exclusions() {
    let mut existing: Vec<u16> = Vec::new();
    let mut seen: Vec<u16> = Vec::new();
    for _ in 0..40 {
        let mut rec = EntryNode::new(None, Vec::new());
        let id = rec.generate_id(&mut existing);
        assert_ne!(id, 0);
        assert!(!seen.contains(&id));
        assert_eq!(rec.id(), Some(id));
        seen.push(id);
    }
    assert_eq!(existing.len(), 40);
}

#[test]
fn tokenize_and_write_round_trip() {
    let doc = b("<registry><entry id=\"3\"><name>A</name></entry>text<x attr=\"v\"/></registry>");
    let events = tokenize(&doc).unwrap();
    let out = write_events(&events);
    assert_eq!(s(&out), s(&doc));
}

#[test]
fn tokenize_keeps_text_bytes_verbatim() {
    let doc = b("<a>  padded value </a>");
    let events = tokenize(&doc).unwrap();
    match &events[1] {
        Event::Text(t) => assert_eq!(s(t), "  padded value "),
        _ => panic!("expected a text event"),
    }
    // writing the events back reproduces the document byte for byte
    assert_eq!(s(&write_events(&events)), s(&doc));
}

#[test]
fn decode_trims_field_text() {
    let doc = b("<registry><entry id=\"1\"><name>  padded  </name></entry></registry>");
    let reg = Registry::from_bytes(&doc).unwrap();
    let entries = reg.entries();
    assert_eq!(s(&entries[0].title().unwrap()), "padded");
}

#[test]
fn tokenize_rejects_unclosed_tag() {
    assert!(tokenize(&b("<registry><entry")).is_none());
    assert!(tokenize(&b("<>")).is_none());
}

#[test]
fn decode_document_tree() {
    let doc = b(
        "<registry><entry id=\"7\"><name>Old</name><description>old</description></entry>\
         <directory id=\"2\"><name>Group</name><entry id=\"8\"><name>In</name></entry></directory>\
         </registry>",
    );
    let reg = Registry::from_bytes(&doc).unwrap();
    let entries = reg.entries();
    assert_eq!(entries.len(), 1);
    assert_eq!(entries[0].id(), Some(7));
    assert_eq!(s(&entries[0].title().unwrap()), "Old");
    assert_eq!(s(&entries[0].description().unwrap()), "old");
}

#[test]
fn decode_nested_field_values() {
    let doc = b("<registry><entry id=\"4\"><tags><tag>a</tag></tags></entry></registry>");
    let reg = Registry::from_bytes(&doc).unwrap();
    let entries = reg.entries();
    assert_eq!(entries.len(), 1);
    let vecs = entries[0].get_vecs();
    assert_eq!(s(&vecs[0].0), "tags.tag");
    assert_eq!(s(&vecs[0].1), "a");
}

#[test]
fn decode_then_serialize_then_decode_keeps_fields() {
    let doc = b("<registry><entry id=\"5\"><name>N</name><due>77</due></entry></registry>");
    let reg = Registry::from_bytes(&doc).unwrap();
    let entries = reg.entries();
    let text = entries[0].serialize(true);
    let reg2 = Registry::from_bytes(&text).unwrap();
    let entries2 = reg2.entries();
    assert_eq!(entries2.len(), 1);
    assert_eq!(entries2[0].id(), Some(5));
    assert_eq!(s(&entries2[0].title().unwrap()), "N");
    assert_eq!(entries2[0].due(), Some(77));
    assert_eq!(entries2[0].node_count(), entries[0].node_count());
}

#[test]
fn reserializing_every_record_into_one_document_round_trips() {
    let doc = b(
        "<registry>\n  <entry id=\"5\"><name>N</name><due>77</due></entry>\n  \
         <entry id=\"9\"><description>d</description><tags><tag>t</tag></tags></entry>\n\
         </registry>",
    );
    let reg = Registry::from_bytes(&doc).unwrap();
    let entries = reg.entries();
    let mut doc2 = b("<registry>");
    for e in &entries {
        doc2.extend_from_slice(&e.serialize(true));
    }
    doc2.extend_from_slice(b"</registry>");
    let reg2 = Registry::from_bytes(&doc2).unwrap();
    let entries2 = reg2.entries();
    assert_eq!(entries2.len(), entries.len());
    for (a, b2) in entries.iter().zip(entries2.iter()) {
        assert_eq!(a.id(), b2.id());
        assert_eq!(a.node_count(), b2.node_count());
        assert_eq!(a.title(), b2.title());
        assert_eq!(a.due(), b2.due());
        assert_eq!(a.get_vecs(), b2.get_vecs());
    }
}

#[test]
fn commands_and_focus() {
    let list = AppCommand::get_command_list();
    assert_eq!(list.len(), 6);
    assert_eq!(list[0], AppCommand::Refresh);
    assert_eq!(list[5], AppCommand::Quit);
    let labels = AppCommand::get_command_list_string();
    assert_eq!(labels[0], "[r]efresh");
    assert_eq!(labels[3], "[c]lear");
    assert_eq!(AppCommand::from_char('q'), AppCommand::Quit);
    assert_eq!(AppCommand::from_char('z'), AppCommand::Idle);
    assert_eq!(AppCommand::from(2usize), AppCommand::Fill);
    assert!(AppFocus::Elements.elements());
    assert!(!AppFocus::Elements.attributes());
    assert!(AppFocus::Edit.edit());
}

#[test]
fn config_default_and_empty() {
    let d = AppConfig::default();
    assert!(d.is_default());
    assert!(!d.is_empty());
    let e = AppConfig::empty();
    assert!(e.is_empty());
    assert!(!e.is_default());
    let c = AppConfig::new("http://h".to_string(), "u".to_string(), "s".to_string(), AuthMethod::Password);
    assert!(!c.is_default());
    assert!(!c.is_empty());
    assert_eq!(s(&c.auth_method.header_name()), "password");
    assert_eq!(s(&AuthMethod::Token.header_name()), "token");
}

#[test]
fn edit_buffer_workflow() {
    let mut st = AppState::new(AppConfig::empty());
    assert!(!st.is_editing());
    st.set_edit(Some(Vec::new()));
    assert!(st.is_editing());
    st.push_edit(b'h');
    st.push_edit(b'i');
    assert_eq!(s(&st.get_edit().unwrap()), "hi");
    st.pop_edit();
    assert_eq!(s(&st.get_edit().unwrap()), "h");
    st.abort_editing();
    assert!(!st.is_editing());
}

#[test]
fn selected_attribute_and_saving() {
    let mut st = AppState::new(AppConfig::empty());
    st.create_new_element();
    st.set_edit(Some(b("name")));
    st.create_new_attribute_from_edit();
    assert!(!st.is_synced());
    st.details_selected = Some(0);
    let (name, value) = st.get_selected_attribute().unwrap();
    assert!(matches!(name, NodeName::Title));
    assert_eq!(s(&value), "");
    st.set_edit(Some(b("Buy milk")));
    st.save_changes();
    let e = st.get_selected_element().unwrap();
    assert_eq!(s(&e.title().unwrap()), "Buy milk");
    assert!(e.is_modified());
    assert!(st.remove_attribute());
    let e2 = st.get_selected_element().unwrap();
    assert_eq!(e2.node_count(), 0);
}

#[test]
fn switching_records_reorders() {
    let mut st = AppState::new(AppConfig::empty());
    let mut f1: Vec<(NodeName, NodeValue)> = Vec::new();
    f1.push((NodeName::Title, NodeValue::Text(b("one"))));
    st.push(Some(EntryNode::new(Some(1), f1)));
    let mut f2: Vec<(NodeName, NodeValue)> = Vec::new();
    f2.push((NodeName::Title, NodeValue::Text(b("two"))));
    st.push(Some(EntryNode::new(Some(2), f2)));
    st.list_selected = Some(1);
    freemind::state::switch_up(&mut st);
    assert_eq!(st.elements[0].id(), Some(2));
    assert_eq!(st.elements[1].id(), Some(1));
    st.list_selected = Some(0);
    freemind::state::switch_down(&mut st);
    assert_eq!(st.elements[0].id(), Some(1));
    assert_eq!(st.elements[1].id(), Some(2));
}

#[test]
fn remove_flags_by_id_and_selection() {
    let mut st = AppState::new(AppConfig::empty());
    st.push(Some(EntryNode::new(Some(4), Vec::new())));
    assert!(st.remove(4));
    assert!(st.elements[0].is_removed());
    assert!(!st.remove(5));
    st.push(Some(EntryNode::new(Some(6), Vec::new())));
    st.list_selected = Some(1);
    assert!(st.remove_element());
    assert!(st.elements[1].is_removed());
    assert_eq!(st.get_ids(true).len(), 0);
    assert_eq!(st.get_ids(false).len(), 2);
}

#[test]
fn modified_string_states() {
    let mut st = AppState::new(AppConfig::empty());
    assert_eq!(st.modified_string(), "edited");
    st.synced = true;
    assert_eq!(st.modified_string(), "synced");
    st.set_edit(Some(Vec::new()));
    assert_eq!(st.modified_string(), "editing");
}
