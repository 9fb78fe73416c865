//! The tree decoder: one-shot decode of a whole document into a tree of
//! records and groups. Decode failure gives no partial tree. The top-level
//! records view returns only directly-owned records; group contents are
//! decoded but not flattened into it.

use vstd::prelude::*;
use crate::doc::{EventV, Event, events_view, parse_doc, tokenize};
use crate::names::{NameV, NodeName, name_of, tag_entry, tag_directory, tag_registry,
    tag_entry_bytes, tag_directory_bytes, tag_registry_bytes};
use crate::values::{ValueV, NodeValue, fields_view, spec_insert, insert_field, copy_bytes,
    keys_unique};
use crate::records::{RecordV, EntryNode};
use crate::attrs::{id_of_attrs, id_of_attrs_exec};
use crate::passes::recs_view;
use crate::bytes::bytes_eq;

verus! {

broadcast use vstd::std_specs::vec::axiom_vec_decreases_to_view, vstd::seq::axiom_seq_index_decreases, vstd::seq::axiom_seq_subrange_decreases;

/// Spec-level tree node: a record, or a named group with its own fields and
/// nested nodes.
pub enum NodeV {
    Element(RecordV),
    Directory(Option<u16>, Seq<(NameV, ValueV)>, Seq<NodeV>),
}

/// A decoded tree node.
#[derive(Debug)]
pub enum RegistryNode {
    Element(EntryNode),
    Directory(DirectoryNode),
}

/// A group: a named container nesting further records and groups, with
/// fields of its own.
#[derive(Debug)]
pub struct DirectoryNode {
    pub id: Option<u16>,
    pub nodes: Vec<(NodeName, NodeValue)>,
    pub content: Vec<RegistryNode>,
}

/// The spec node an exec node stands for.
pub open spec fn node_view(n: RegistryNode) -> NodeV
    decreases n,
    via node_view_dec
{
    match n {
        RegistryNode::Element(e) => NodeV::Element(e@),
        RegistryNode::Directory(d) => NodeV::Directory(
            d.id,
            fields_view(d.nodes@),
            nodes_view_rec(d.content@),
        ),
    }
}

#[via_fn]
proof fn node_view_dec(n: RegistryNode) {
    match n {
        RegistryNode::Directory(d) => {
            assert(decreases_to!(n => d));
            assert(decreases_to!(d => d.content));
            assert(decreases_to!(d.content => d.content@));
        },
        _ => {},
    }
}

/// The view of a node list.
pub open spec fn nodes_view_rec(ns: Seq<RegistryNode>) -> Seq<NodeV>
    decreases ns,
    via nodes_view_rec_dec
{
    if ns.len() == 0 {
        Seq::empty()
    } else {
        seq![node_view(ns[0])] + nodes_view_rec(ns.subrange(1, ns.len() as int))
    }
}

#[via_fn]
proof fn nodes_view_rec_dec(ns: Seq<RegistryNode>) {
    if ns.len() > 0 {
        assert(decreases_to!(ns => ns[0]));
        assert(decreases_to!(ns => ns.subrange(1, ns.len() as int)));
    }
}

/// The view of a node list, as a pointwise mapping.
pub open spec fn nodes_view(ns: Seq<RegistryNode>) -> Seq<NodeV> {
    Seq::new(ns.len(), |i: int| node_view(ns[i]))
}

/// The recursive and the pointwise readings of a node list agree.
pub broadcast proof fn lemma_nodes_view(ns: Seq<RegistryNode>)
    ensures
        #[trigger] nodes_view_rec(ns) == nodes_view(ns),
    decreases ns.len(),
{
    if ns.len() > 0 {
        lemma_nodes_view(ns.subrange(1, ns.len() as int));
        assert(nodes_view_rec(ns) =~= nodes_view(ns));
    } else {
        assert(nodes_view_rec(ns) =~= nodes_view(ns));
    }
}

impl View for RegistryNode {
    type V = NodeV;

    open spec fn view(&self) -> NodeV {
        node_view(*self)
    }
}

/// The decoded form of a whole document.
#[derive(Debug)]
pub struct Registry {
    pub nodes: Vec<RegistryNode>,
}

impl View for Registry {
    type V = Seq<NodeV>;

    open spec fn view(&self) -> Seq<NodeV> {
        nodes_view(self.nodes@)
    }
}

/// The value a node's body decodes to: its nested fields if it has any,
/// else its text.
pub open spec fn mk_value(fields: Seq<(NameV, ValueV)>, text: Seq<u8>) -> ValueV {
    if fields.len() == 0 {
        ValueV::Text(text)
    } else {
        ValueV::Nested(fields)
    }
}

/// Decodes one node's body from `i` on, until the end tag named `parent`:
/// child tags become nested fields (a later binding of the same name
/// replaces the earlier), text becomes the node's text with surrounding
/// whitespace dropped (the last run wins), and anything else passes. Gives
/// the fields, the text, and the position after the end tag.
pub open spec fn dec_node(
    es: Seq<EventV>,
    i: int,
    parent: Seq<u8>,
    acc_f: Seq<(NameV, ValueV)>,
    acc_t: Seq<u8>,
) -> Option<(Seq<(NameV, ValueV)>, Seq<u8>, int)>
    decreases es.len() - i,
    when 0 <= i
{
    if i >= es.len() {
        Some((acc_f, acc_t, i))
    } else {
        match es[i] {
            EventV::Start(k, _) => match dec_node(es, i + 1, k, Seq::empty(), Seq::empty()) {
                None => None,
                Some((cf, ct, j)) => if i < j && j <= es.len() {
                    dec_node(es, j, parent, spec_insert(acc_f, name_of(k), mk_value(cf, ct)), acc_t)
                } else {
                    None
                },
            },
            EventV::Text(t) => dec_node(es, i + 1, parent, acc_f, crate::doc::trim(t)),
            EventV::End(n) => if n == parent {
                Some((acc_f, acc_t, i + 1))
            } else {
                dec_node(es, i + 1, parent, acc_f, acc_t)
            },
            EventV::Empty(_, _) => dec_node(es, i + 1, parent, acc_f, acc_t),
        }
    }
}

/// Decodes a group's body from `i` on, until its end tag: records and
/// nested groups become children, other tags become the group's own fields.
pub open spec fn dec_dir(
    es: Seq<EventV>,
    i: int,
    acc_c: Seq<NodeV>,
    acc_f: Seq<(NameV, ValueV)>,
) -> Option<(Seq<NodeV>, Seq<(NameV, ValueV)>, int)>
    decreases es.len() - i,
    when 0 <= i
{
    if i >= es.len() {
        Some((acc_c, acc_f, i))
    } else {
        match es[i] {
            EventV::Start(n, a) => {
                if n == tag_entry() {
                    match dec_node(es, i + 1, tag_entry(), Seq::empty(), Seq::empty()) {
                        None => None,
                        Some((f, t, j)) => if i < j && j <= es.len() {
                            match id_of_attrs(a) {
                                Some(id) => dec_dir(
                                    es,
                                    j,
                                    acc_c.push(
                                        NodeV::Element(
                                            RecordV {
                                                id: Some(id),
                                                fields: f,
                                                removed: false,
                                                modified: false,
                                            },
                                        ),
                                    ),
                                    acc_f,
                                ),
                                None => dec_dir(es, j, acc_c, acc_f),
                            }
                        } else {
                            None
                        },
                    }
                } else if n == tag_directory() {
                    match dec_dir(es, i + 1, Seq::empty(), Seq::empty()) {
                        None => None,
                        Some((c, f, j)) => if i < j && j <= es.len() {
                            dec_dir(
                                es,
                                j,
                                acc_c.push(NodeV::Directory(id_of_attrs(a), f, c)),
                                acc_f,
                            )
                        } else {
                            None
                        },
                    }
                } else {
                    match dec_node(es, i + 1, n, Seq::empty(), Seq::empty()) {
                        None => None,
                        Some((cf, ct, j)) => if i < j && j <= es.len() {
                            dec_dir(es, j, acc_c, spec_insert(acc_f, name_of(n), mk_value(cf, ct)))
                        } else {
                            None
                        },
                    }
                }
            },
            EventV::End(n) => if n == tag_directory() {
                Some((acc_c, acc_f, i + 1))
            } else {
                dec_dir(es, i + 1, acc_c, acc_f)
            },
            _ => dec_dir(es, i + 1, acc_c, acc_f),
        }
    }
}

/// Decodes the top level of a document from `i` on: records and groups that
/// are direct children become top-level nodes; a record without an id is
/// read and dropped; the root tag itself, unknown tags and text pass.
pub open spec fn dec_top(es: Seq<EventV>, i: int, acc: Seq<NodeV>) -> Option<Seq<NodeV>>
    decreases es.len() - i,
    when 0 <= i
{
    if i >= es.len() {
        Some(acc)
    } else {
        match es[i] {
            EventV::Start(n, a) => {
                if n == tag_entry() {
                    match dec_node(es, i + 1, tag_entry(), Seq::empty(), Seq::empty()) {
                        None => None,
                        Some((f, t, j)) => if i < j && j <= es.len() {
                            match id_of_attrs(a) {
                                Some(id) => dec_top(
                                    es,
                                    j,
                                    acc.push(
                                        NodeV::Element(
                                            RecordV {
                                                id: Some(id),
                                                fields: f,
                                                removed: false,
                                                modified: false,
                                            },
                                        ),
                                    ),
                                ),
                                None => dec_top(es, j, acc),
                            }
                        } else {
                            None
                        },
                    }
                } else if n == tag_directory() {
                    match dec_dir(es, i + 1, Seq::empty(), Seq::empty()) {
                        None => None,
                        Some((c, f, j)) => if i < j && j <= es.len() {
                            dec_top(es, j, acc.push(NodeV::Directory(id_of_attrs(a), f, c)))
                        } else {
                            None
                        },
                    }
                } else {
                    dec_top(es, i + 1, acc)
                }
            },
            EventV::End(n) => if n == tag_registry() {
                Some(acc)
            } else {
                dec_top(es, i + 1, acc)
            },
            _ => dec_top(es, i + 1, acc),
        }
    }
}

/// What a whole document decodes to: tokenized, then read as a tree.
pub open spec fn decode_doc(s: Seq<u8>) -> Option<Seq<NodeV>> {
    match parse_doc(s) {
        None => None,
        Some(es) => dec_top(es, 0, Seq::empty()),
    }
}

/// Reads one node's body. Gives the fields, the text, and the position
/// after the end tag.
fn dec_node_exec(es: &Vec<Event>, start: usize, parent: &Vec<u8>) -> (r: Option<
    (Vec<(NodeName, NodeValue)>, Vec<u8>, usize),
>)
    requires
        start <= es@.len(),
    ensures
        match r {
            Some(t) => dec_node(events_view(es@), start as int, parent@, Seq::empty(), Seq::empty())
                == Some((fields_view(t.0@), t.1@, t.2 as int)) && start < t.2 || (start == t.2
                && t.2 == es@.len()),
            None => dec_node(events_view(es@), start as int, parent@, Seq::empty(), Seq::empty())
                is None,
        },
        r matches Some(t) ==> start <= t.2 <= es@.len() && dec_node(
            events_view(es@),
            start as int,
            parent@,
            Seq::empty(),
            Seq::empty(),
        ) == Some((fields_view(t.0@), t.1@, t.2 as int)) && keys_unique(fields_view(t.0@)),
    decreases es@.len() - start,
{
    let ghost evs = events_view(es@);
    let mut fields: Vec<(NodeName, NodeValue)> = Vec::new();
    let mut text: Vec<u8> = Vec::new();
    proof {
        assert(fields_view(fields@) =~= Seq::<(NameV, ValueV)>::empty());
        assert(text@ =~= Seq::<u8>::empty());
    }
    let mut i: usize = start;
    while i < es.len()
        invariant
            start <= i <= es@.len(),
            evs == events_view(es@),
            keys_unique(fields_view(fields@)),
            dec_node(evs, start as int, parent@, Seq::empty(), Seq::empty()) == dec_node(
                evs,
                i as int,
                parent@,
                fields_view(fields@),
                text@,
            ),
        decreases es@.len() - i,
    {
        let ev = &es[i];
        proof {
            assert(evs[i as int] == ev@);
        }
        match ev {
            Event::Start(k, _) => {
                match dec_node_exec(es, i + 1, k) {
                    None => {
                        return None;
                    },
                    Some((cf, ct, j)) => {
                        let name = NodeName::from_str(k);
                        let value = if cf.len() == 0 {
                            NodeValue::Text(ct)
                        } else {
                            NodeValue::Nested(cf)
                        };
                        proof {
                            if cf@.len() == 0 {
                                assert(fields_view(cf@).len() == 0);
                                assert(value@ == mk_value(fields_view(cf@), ct@));
                            } else {
                                crate::values::lemma_fields_view(cf@);
                                assert(value@ == mk_value(fields_view(cf@), ct@));
                            }
                        }
                        insert_field(&mut fields, name, value);
                        i = j;
                    },
                }
            },
            Event::Text(t) => {
                text = crate::doc::trim_range(t, 0, t.len());
                proof {
                    assert(t@.subrange(0, t@.len() as int) =~= t@);
                }
                i = i + 1;
            },
            Event::End(n) => {
                if bytes_eq(n, parent) {
                    return Some((fields, text, i + 1));
                }
                i = i + 1;
            },
            Event::Empty(_, _) => {
                i = i + 1;
            },
        }
    }
    Some((fields, text, i))
}

/// Reads a group's body. Gives the children, the group's own fields, and
/// the position after the end tag.
fn dec_dir_exec(es: &Vec<Event>, start: usize) -> (r: Option<
    (Vec<RegistryNode>, Vec<(NodeName, NodeValue)>, usize),
>)
    requires
        start <= es@.len(),
    ensures
        match r {
            Some(t) => start <= t.2 <= es@.len() && dec_dir(
                events_view(es@),
                start as int,
                Seq::empty(),
                Seq::empty(),
            ) == Some((nodes_view(t.0@), fields_view(t.1@), t.2 as int)),
            None => dec_dir(events_view(es@), start as int, Seq::empty(), Seq::empty()) is None,
        },
    decreases es@.len() - start, 1int,
{
    let ghost evs = events_view(es@);
    let mut content: Vec<RegistryNode> = Vec::new();
    let mut fields: Vec<(NodeName, NodeValue)> = Vec::new();
    proof {
        assert(fields_view(fields@) =~= Seq::<(NameV, ValueV)>::empty());
        assert(nodes_view(content@) =~= Seq::<NodeV>::empty());
    }
    let mut i: usize = start;
    while i < es.len()
        invariant
            start <= i <= es@.len(),
            evs == events_view(es@),
            dec_dir(evs, start as int, Seq::empty(), Seq::empty()) == dec_dir(
                evs,
                i as int,
                nodes_view(content@),
                fields_view(fields@),
            ),
        decreases es@.len() - i,
    {
        let ghost c0 = nodes_view(content@);
        let ev = &es[i];
        proof {
            assert(evs[i as int] == ev@);
        }
        match ev {
            Event::Start(n, a) => {
                if bytes_eq(n, &tag_entry_bytes()) {
                    match dec_node_exec(es, i + 1, &tag_entry_bytes()) {
                        None => {
                            return None;
                        },
                        Some((f, _t, j)) => {
                            match id_of_attrs_exec(a) {
                                Some(id) => {
                                    let rec = EntryNode::new(Some(id), f);
                                    content.push(RegistryNode::Element(rec));
                                    proof {
                                        assert(nodes_view(content@) =~= c0.push(
                                            node_view(content@.last()),
                                        ));
                                    }
                                },
                                None => {},
                            }
                            i = j;
                        },
                    }
                } else if bytes_eq(n, &tag_directory_bytes()) {
                    match dec_dir_exec(es, i + 1) {
                        None => {
                            return None;
                        },
                        Some((c, f, j)) => {
                            let id = id_of_attrs_exec(a);
                            let d = DirectoryNode { id, nodes: f, content: c };
                            content.push(RegistryNode::Directory(d));
                            proof {
                                lemma_nodes_view(content@.last()->Directory_0.content@);
                                assert(nodes_view(content@) =~= c0.push(
                                    node_view(content@.last()),
                                ));
                            }
                            i = j;
                        },
                    }
                } else {
                    match dec_node_exec(es, i + 1, n) {
                        None => {
                            return None;
                        },
                        Some((cf, ct, j)) => {
                            let name = NodeName::from_str(n);
                            let value = if cf.len() == 0 {
                                NodeValue::Text(ct)
                            } else {
                                NodeValue::Nested(cf)
                            };
                            proof {
                                if cf@.len() == 0 {
                                    assert(fields_view(cf@).len() == 0);
                                    assert(value@ == mk_value(fields_view(cf@), ct@));
                                } else {
                                    crate::values::lemma_fields_view(cf@);
                                    assert(value@ == mk_value(fields_view(cf@), ct@));
                                }
                            }
                            insert_field(&mut fields, name, value);
                            i = j;
                        },
                    }
                }
            },
            Event::End(n) => {
                if bytes_eq(n, &tag_directory_bytes()) {
                    return Some((content, fields, i + 1));
                }
                i = i + 1;
            },
            _ => {
                i = i + 1;
            },
        }
    }
    Some((content, fields, i))
}

/// Reads the top level of a document into nodes.
fn dec_top_exec(es: &Vec<Event>) -> (r: Option<Vec<RegistryNode>>)
    ensures
        match r {
            Some(ns) => dec_top(events_view(es@), 0, Seq::empty()) == Some(nodes_view(ns@)),
            None => dec_top(events_view(es@), 0, Seq::empty()) is None,
        },
{
    let ghost evs = events_view(es@);
    let mut nodes: Vec<RegistryNode> = Vec::new();
    proof {
        assert(nodes_view(nodes@) =~= Seq::<NodeV>::empty());
    }
    let mut i: usize = 0;
    while i < es.len()
        invariant
            i <= es@.len(),
            evs == events_view(es@),
            dec_top(evs, 0, Seq::empty()) == dec_top(evs, i as int, nodes_view(nodes@)),
        decreases es@.len() - i,
    {
        let ghost n0 = nodes_view(nodes@);
        let ev = &es[i];
        proof {
            assert(evs[i as int] == ev@);
        }
        match ev {
            Event::Start(n, a) => {
                if bytes_eq(n, &tag_entry_bytes()) {
                    match dec_node_exec(es, i + 1, &tag_entry_bytes()) {
                        None => {
                            return None;
                        },
                        Some((f, _t, j)) => {
                            match id_of_attrs_exec(a) {
                                Some(id) => {
                                    let rec = EntryNode::new(Some(id), f);
                                    nodes.push(RegistryNode::Element(rec));
                                    proof {
                                        assert(nodes_view(nodes@) =~= n0.push(
                                            node_view(nodes@.last()),
                                        ));
                                    }
                                },
                                None => {},
                            }
                            i = j;
                        },
                    }
                } else if bytes_eq(n, &tag_directory_bytes()) {
                    match dec_dir_exec(es, i + 1) {
                        None => {
                            return None;
                        },
                        Some((c, f, j)) => {
                            let id = id_of_attrs_exec(a);
                            let d = DirectoryNode { id, nodes: f, content: c };
                            nodes.push(RegistryNode::Directory(d));
                            proof {
                                lemma_nodes_view(nodes@.last()->Directory_0.content@);
                                assert(nodes_view(nodes@) =~= n0.push(node_view(nodes@.last())));
                            }
                            i = j;
                        },
                    }
                } else {
                    i = i + 1;
                }
            },
            Event::End(n) => {
                if bytes_eq(n, &tag_registry_bytes()) {
                    return Some(nodes);
                }
                i = i + 1;
            },
            _ => {
                i = i + 1;
            },
        }
    }
    Some(nodes)
}

/// The top-level records of a node list, in order.
pub open spec fn top_records(ns: Seq<NodeV>) -> Seq<RecordV>
    decreases ns.len(),
{
    if ns.len() == 0 {
        Seq::empty()
    } else {
        (match ns[0] {
            NodeV::Element(r) => seq![r],
            NodeV::Directory(_, _, _) => Seq::empty(),
        }) + top_records(ns.drop_first())
    }
}

impl Registry {
    /// A registry with nothing in it.
    pub fn empty() -> (r: Self)
        ensures
            r@ == Seq::<NodeV>::empty(),
    {
        let r = Registry { nodes: Vec::new() };
        proof {
            assert(r@ =~= Seq::<NodeV>::empty());
        }
        r
    }

    /// Decodes a whole document into a tree. Nothing comes of a document
    /// that does not tokenize: there is no partial tree and no recovery.
    pub fn from_bytes(doc: &Vec<u8>) -> (r: Option<Registry>)
        ensures
            match r {
                Some(reg) => decode_doc(doc@) == Some(reg@),
                None => decode_doc(doc@) is None,
            },
    {
        match tokenize(doc) {
            None => None,
            Some(es) => {
                match dec_top_exec(&es) {
                    None => None,
                    Some(nodes) => Some(Registry { nodes }),
                }
            },
        }
    }

    /// Reads already tokenized events as a tree.
    pub fn from_events(es: &Vec<Event>) -> (r: Option<Registry>)
        ensures
            match r {
                Some(reg) => dec_top(events_view(es@), 0, Seq::empty()) == Some(reg@),
                None => dec_top(events_view(es@), 0, Seq::empty()) is None,
            },
    {
        match dec_top_exec(es) {
            None => None,
            Some(nodes) => Some(Registry { nodes }),
        }
    }

    /// The directly-owned records, in document order; group contents are
    /// not flattened into it.
    pub fn entries(&self) -> (r: Vec<EntryNode>)
        ensures
            recs_view(r@) == top_records(self@),
    {
        let mut out: Vec<EntryNode> = Vec::new();
        let mut i: usize = 0;
        assert(self@.skip(0) =~= self@);
        while i < self.nodes.len()
            invariant
                i <= self.nodes@.len(),
                top_records(self@) == recs_view(out@) + top_records(self@.skip(i as int)),
                self@.len() == self.nodes@.len(),
            decreases self.nodes@.len() - i,
        {
            let ghost o0 = recs_view(out@);
            proof {
                let tail = self@.skip(i as int);
                assert(tail[0] == self@[i as int]);
                assert(tail.drop_first() =~= self@.skip(i as int + 1));
            }
            match &self.nodes[i] {
                RegistryNode::Element(e) => {
                    out.push(e.clone());
                    proof {
                        assert(recs_view(out@) =~= o0.push(out@.last()@));
                    }
                },
                RegistryNode::Directory(_) => {},
            }
            i = i + 1;
        }
        proof {
            assert(top_records(self@.skip(self.nodes@.len() as int)) =~= Seq::<RecordV>::empty());
            assert(recs_view(out@) + Seq::<RecordV>::empty() =~= recs_view(out@));
        }
        out
    }
}

} // verus!
