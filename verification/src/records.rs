//! Records: one task or event, identified by an optional 16-bit id (0 is
//! reserved), holding a list of named fields with unique keys, and two
//! local-only flags: `removed` (pending deletion) and `modified` (an
//! unflushed edit).

use vstd::prelude::*;
use crate::names::{NameV, NodeName, tag_of, tag_entry, wf_name, tag_entry_bytes, tag_title,
    tag_description, tag_location, tag_color, tag_due, tag_duration, tag_alert};
use crate::values::{ValueV, NodeValue, fields_view, lookup, keys_unique, spec_insert, spec_remove,
    insert_field, take_field, find_field, display_of, display_text, copy_bytes, append_bytes,
    lemma_fields_view, value_view};
use crate::bytes::{parse_u32, dec_to_u32, lower_bytes, lower};
use crate::doc::{EventV, Event};
use crate::attrs::{ser_attrs, ser_attrs_exec};

verus! {

broadcast use vstd::std_specs::vec::axiom_vec_decreases_to_view, vstd::seq::axiom_seq_index_decreases, vstd::seq::axiom_seq_subrange_decreases;

/// Spec-level record.
pub struct RecordV {
    pub id: Option<u16>,
    pub fields: Seq<(NameV, ValueV)>,
    pub removed: bool,
    pub modified: bool,
}

/// One task or event.
#[derive(Debug)]
pub struct EntryNode {
    pub id: Option<u16>,
    pub nodes: Vec<(NodeName, NodeValue)>,
    pub removed: bool,
    pub modified: bool,
}

impl View for EntryNode {
    type V = RecordV;

    open spec fn view(&self) -> RecordV {
        RecordV {
            id: self.id,
            fields: fields_view(self.nodes@),
            removed: self.removed,
            modified: self.modified,
        }
    }
}

impl Clone for EntryNode {
    fn clone(&self) -> (r: Self)
        ensures
            r@ == self@,
    {
        let nodes = crate::values::clone_fields(&self.nodes);
        EntryNode { id: self.id, nodes, removed: self.removed, modified: self.modified }
    }
}

/// A record's fields bind each key once.
pub open spec fn wf_record(r: RecordV) -> bool {
    keys_unique(r.fields)
}

/// The due timestamp a record carries: its `due` field read as an unsigned
/// 32-bit decimal; absence or non-numeric text gives nothing.
pub open spec fn due_of(r: RecordV) -> Option<u32> {
    match lookup(r.fields, NameV::Due) {
        None => None,
        Some(v) => parse_u32(display_of(v)),
    }
}

/// The key records sort by: the due timestamp, an absent one counting as the
/// earliest possible time.
pub open spec fn due_key(r: RecordV) -> u32 {
    match due_of(r) {
        None => 0,
        Some(d) => d,
    }
}

impl EntryNode {
    /// A record with the given identity and fields, clean of local flags.
    pub fn new(id: Option<u16>, nodes: Vec<(NodeName, NodeValue)>) -> (r: Self)
        ensures
            r@ == (RecordV { id, fields: fields_view(nodes@), removed: false, modified: false }),
    {
        EntryNode { id, nodes, removed: false, modified: false }
    }

    /// The record's identifier.
    pub fn id(&self) -> (r: Option<u16>)
        ensures
            r == self@.id,
    {
        self.id
    }

    /// Whether the record is flagged for deletion.
    pub fn is_removed(&self) -> (r: bool)
        ensures
            r == self@.removed,
    {
        self.removed
    }

    /// Whether the record carries an unflushed edit.
    pub fn is_modified(&self) -> (r: bool)
        ensures
            r == self@.modified,
    {
        self.modified
    }

    /// Flags the record as carrying an unflushed edit.
    pub fn modified(&mut self)
        ensures
            final(self)@ == (RecordV { modified: true, ..old(self)@ }),
    {
        self.modified = true;
    }

    /// Flags the record for deletion on the next reconciliation.
    pub fn set_removed(&mut self)
        ensures
            final(self)@ == (RecordV { removed: true, ..old(self)@ }),
    {
        self.removed = true;
    }

    /// The fields, in insertion order.
    pub fn get_nodes(&self) -> (r: &Vec<(NodeName, NodeValue)>)
        ensures
            fields_view(r@) == self@.fields,
    {
        &self.nodes
    }

    /// How many fields the record holds.
    pub fn node_count(&self) -> (r: usize)
        ensures
            r == self@.fields.len(),
    {
        self.nodes.len()
    }

    /// Binds a field, replacing any previous binding of the same name in
    /// place. Returns the value previously bound.
    pub fn insert_node(&mut self, k: NodeName, v: NodeValue) -> (r: Option<NodeValue>)
        ensures
            final(self)@ == (RecordV {
                fields: spec_insert(old(self)@.fields, k@, v@),
                ..old(self)@
            }),
            match r {
                Some(o) => lookup(old(self)@.fields, k@) == Some(o@),
                None => lookup(old(self)@.fields, k@) is None,
            },
            wf_record(old(self)@) ==> wf_record(final(self)@),
    {
        insert_field(&mut self.nodes, k, v)
    }

    /// Unbinds a field, returning the value it was bound to.
    pub fn remove_node(&mut self, k: &NodeName) -> (r: Option<NodeValue>)
        ensures
            final(self)@ == (RecordV { fields: spec_remove(old(self)@.fields, k@), ..old(self)@ }),
            match r {
                Some(o) => lookup(old(self)@.fields, k@) == Some(o@),
                None => lookup(old(self)@.fields, k@) is None,
            },
            wf_record(old(self)@) ==> wf_record(final(self)@),
    {
        take_field(&mut self.nodes, k)
    }

    /// The text of the title field.
    pub fn title(&self) -> (r: Option<Vec<u8>>)
        ensures
            match r {
                Some(t) => lookup(self@.fields, NameV::Title) matches Some(v) && t@ == display_of(
                    v,
                ),
                None => lookup(self@.fields, NameV::Title) is None,
            },
    {
        match find_field(&self.nodes, &NodeName::Title) {
            Some(i) => Some(display_text(&self.nodes[i].1)),
            None => None,
        }
    }

    /// The text of the description field.
    pub fn description(&self) -> (r: Option<Vec<u8>>)
        ensures
            match r {
                Some(t) => lookup(self@.fields, NameV::Description) matches Some(v) && t@
                    == display_of(v),
                None => lookup(self@.fields, NameV::Description) is None,
            },
    {
        match find_field(&self.nodes, &NodeName::Description) {
            Some(i) => Some(display_text(&self.nodes[i].1)),
            None => None,
        }
    }

    /// The due timestamp: the `due` field read as an unsigned 32-bit
    /// decimal; absence or non-numeric text gives nothing.
    pub fn due(&self) -> (r: Option<u32>)
        ensures
            r == due_of(self@),
    {
        match find_field(&self.nodes, &NodeName::Due) {
            Some(i) => {
                let t = display_text(&self.nodes[i].1);
                dec_to_u32(&t)
            },
            None => None,
        }
    }

    /// The key this record sorts by.
    pub fn due_or_zero(&self) -> (r: u32)
        ensures
            r == due_key(self@),
    {
        match self.due() {
            Some(d) => d,
            None => 0,
        }
    }

    /// Every field value's text, joined by single spaces and lowercased, for
    /// searching and filtering.
    pub fn get_text(&self) -> (r: Vec<u8>)
        ensures
            r@ == search_text(self@.fields),
    {
        proof {
            lemma_fields_view(self.nodes@);
        }
        let mut out: Vec<u8> = Vec::new();
        let mut i: usize = 0;
        assert(fields_view(self.nodes@).skip(0) =~= fields_view(self.nodes@));
        while i < self.nodes.len()
            invariant
                i <= self.nodes@.len(),
                joined_values(fields_view(self.nodes@)) == out@ + tail_values(
                    fields_view(self.nodes@).skip(i as int),
                    i > 0,
                ),
            decreases self.nodes@.len() - i,
        {
            if i > 0 {
                out.push(32);
            }
            let t = display_text(&self.nodes[i].1);
            append_bytes(&mut out, &t);
            proof {
                let tail = fields_view(self.nodes@).skip(i as int);
                assert(tail[0] == fields_view(self.nodes@)[i as int]);
                assert(tail.subrange(1, tail.len() as int) =~= fields_view(self.nodes@).skip(
                    i as int + 1,
                ));
                assert(joined_values(fields_view(self.nodes@)) =~= out@ + tail_values(
                    fields_view(self.nodes@).skip(i as int + 1),
                    true,
                ));
            }
            i = i + 1;
        }
        proof {
            assert(fields_view(self.nodes@).skip(self.nodes@.len() as int)
                =~= Seq::<(NameV, ValueV)>::empty());
        }
        lower(&out)
    }
}

/// The values' texts joined by single spaces; `sep` says whether a space is
/// still owed before the next value.
pub open spec fn tail_values(fs: Seq<(NameV, ValueV)>, sep: bool) -> Seq<u8>
    decreases fs,
    via tail_values_dec
{
    if fs.len() == 0 {
        Seq::empty()
    } else {
        (if sep {
            seq![32u8]
        } else {
            Seq::empty()
        }) + display_of(fs[0].1) + tail_values(fs.subrange(1, fs.len() as int), true)
    }
}

#[via_fn]
proof fn tail_values_dec(fs: Seq<(NameV, ValueV)>, sep: bool) {
    if fs.len() > 0 {
        assert(decreases_to!(fs => fs.subrange(1, fs.len() as int)));
    }
}

/// The values' texts joined by single spaces.
pub open spec fn joined_values(fs: Seq<(NameV, ValueV)>) -> Seq<u8> {
    tail_values(fs, false)
}

/// Every field value's text, joined by single spaces and lowercased.
pub open spec fn search_text(fs: Seq<(NameV, ValueV)>) -> Seq<u8> {
    lower_bytes(joined_values(fs))
}

/// The events one field value serializes as: its text, or its nested fields
/// re-emitted recursively as child tags.
pub open spec fn ser_value_events(v: ValueV) -> Seq<EventV>
    decreases v,
    via ser_value_events_dec
{
    match v {
        ValueV::Text(t) => if t.len() == 0 {
            Seq::empty()
        } else {
            seq![EventV::Text(t)]
        },
        ValueV::Nested(fs) => ser_fields_events(fs),
    }
}

#[via_fn]
proof fn ser_value_events_dec(v: ValueV) {
    match v {
        ValueV::Nested(fs) => {
            assert(decreases_to!(v => fs));
        },
        _ => {},
    }
}

/// The events a field list serializes as: one `<tag>value</tag>` per field,
/// in field order.
pub open spec fn ser_fields_events(fs: Seq<(NameV, ValueV)>) -> Seq<EventV>
    decreases fs,
    via ser_fields_events_dec
{
    if fs.len() == 0 {
        Seq::empty()
    } else {
        seq![EventV::Start(tag_of(fs[0].0), Seq::empty())] + ser_value_events(fs[0].1) + seq![
            EventV::End(tag_of(fs[0].0)),
        ] + ser_fields_events(fs.subrange(1, fs.len() as int))
    }
}

#[via_fn]
proof fn ser_fields_events_dec(fs: Seq<(NameV, ValueV)>) {
    if fs.len() > 0 {
        assert(decreases_to!(fs => fs[0]));
        assert(decreases_to!(fs[0] => fs[0].1));
        assert(decreases_to!(fs => fs.subrange(1, fs.len() as int)));
    }
}

/// The events a record serializes as. A record without an id serializes as
/// nothing: it cannot be written before it has one. With the wrapper, the
/// fields sit inside an `entry` tag carrying the id; without it, only the
/// field tags are emitted, for a caller that already wrote the wrapper.
pub open spec fn ser_record_events(r: RecordV, with_wrapper: bool) -> Seq<EventV> {
    match r.id {
        None => Seq::empty(),
        Some(id) => if with_wrapper {
            seq![EventV::Start(tag_entry(), ser_attrs(id))] + ser_fields_events(r.fields) + seq![
                EventV::End(tag_entry()),
            ]
        } else {
            ser_fields_events(r.fields)
        },
    }
}

/// Appends the events one field value serializes as.
pub fn ser_value_into(out: &mut Vec<Event>, v: &NodeValue)
    ensures
        crate::doc::events_view(final(out)@) == crate::doc::events_view(old(out)@)
            + ser_value_events(v@),
    decreases *v,
{
    match v {
        NodeValue::Text(t) => {
            if t.len() > 0 {
                out.push(Event::Text(copy_bytes(t)));
            }
            assert(crate::doc::events_view(out@) =~= crate::doc::events_view(old(out)@)
                + ser_value_events(v@));
        },
        NodeValue::Nested(fs) => {
            proof {
                lemma_fields_view(fs@);
                assert(decreases_to!(*v => *fs));
                assert(decreases_to!(*fs => fs@));
            }
            ser_fields_into(out, fs);
            assert(v@ == ValueV::Nested(fields_view(fs@)));
        },
    }
}

/// Appends the events a field list serializes as.
pub fn ser_fields_into(out: &mut Vec<Event>, fs: &Vec<(NodeName, NodeValue)>)
    ensures
        crate::doc::events_view(final(out)@) == crate::doc::events_view(old(out)@)
            + ser_fields_events(fields_view(fs@)),
    decreases fs@,
{
    let mut i: usize = 0;
    assert(fields_view(fs@).skip(0) =~= fields_view(fs@));
    while i < fs.len()
        invariant
            i <= fs@.len(),
            crate::doc::events_view(old(out)@) + ser_fields_events(fields_view(fs@))
                == crate::doc::events_view(out@) + ser_fields_events(
                fields_view(fs@).skip(i as int),
            ),
        decreases fs@.len() - i,
    {
        proof {
            assert(decreases_to!(fs@ => fs@[i as int]));
            assert(decreases_to!(fs@[i as int] => fs@[i as int].1));
        }
        let ghost before = crate::doc::events_view(out@);
        let pair = &fs[i];
        let tag = pair.0.tag_bytes();
        out.push(Event::Start(tag, Vec::new()));
        proof {
            assert(crate::doc::events_view(out@) =~= before.push(
                EventV::Start(tag_of(fs@[i as int].0@), Seq::empty()),
            ));
        }
        ser_value_into(out, &pair.1);
        let ghost mid = crate::doc::events_view(out@);
        let tag2 = pair.0.tag_bytes();
        out.push(Event::End(tag2));
        proof {
            assert(crate::doc::events_view(out@) =~= mid.push(EventV::End(tag_of(fs@[i as int].0@))));
            let tail = fields_view(fs@).skip(i as int);
            assert(tail[0] == fields_view(fs@)[i as int]);
            assert(tail.subrange(1, tail.len() as int) =~= fields_view(fs@).skip(i as int + 1));
            assert(crate::doc::events_view(old(out)@) + ser_fields_events(fields_view(fs@))
                =~= crate::doc::events_view(out@) + ser_fields_events(
                fields_view(fs@).skip(i as int + 1),
            ));
        }
        i = i + 1;
    }
    proof {
        assert(fields_view(fs@).skip(fs@.len() as int) =~= Seq::<(NameV, ValueV)>::empty());
        assert(crate::doc::events_view(out@) =~= crate::doc::events_view(old(out)@)
            + ser_fields_events(fields_view(fs@)));
    }
}

impl EntryNode {
    /// Appends the events this record serializes as; nothing if the record
    /// has no id yet.
    pub fn ser_record_into(&self, out: &mut Vec<Event>, with_wrapper: bool)
        ensures
            crate::doc::events_view(final(out)@) == crate::doc::events_view(old(out)@)
                + ser_record_events(self@, with_wrapper),
    {
        match self.id {
            None => {
                assert(crate::doc::events_view(out@) =~= crate::doc::events_view(old(out)@)
                    + ser_record_events(self@, with_wrapper));
            },
            Some(id) => {
                if with_wrapper {
                    let ghost before = crate::doc::events_view(out@);
                    out.push(Event::Start(tag_entry_bytes(), ser_attrs_exec(id)));
                    proof {
                        assert(crate::doc::events_view(out@) =~= before.push(
                            EventV::Start(tag_entry(), ser_attrs(id)),
                        ));
                    }
                    ser_fields_into(out, &self.nodes);
                    let ghost mid = crate::doc::events_view(out@);
                    out.push(Event::End(tag_entry_bytes()));
                    proof {
                        assert(crate::doc::events_view(out@) =~= mid.push(
                            EventV::End(tag_entry()),
                        ));
                        assert(crate::doc::events_view(out@) =~= crate::doc::events_view(old(out)@)
                            + ser_record_events(self@, with_wrapper));
                    }
                } else {
                    ser_fields_into(out, &self.nodes);
                }
            },
        }
    }

    /// Serializes the record to document bytes: a no-op (empty) if the
    /// record has no id. With the wrapper the fields sit inside an `entry`
    /// tag carrying the id; without it only the field tags are written.
    pub fn serialize(&self, with_wrapper: bool) -> (r: Vec<u8>)
        ensures
            r@ == crate::doc::render(ser_record_events(self@, with_wrapper)),
    {
        let mut out: Vec<Event> = Vec::new();
        self.ser_record_into(&mut out, with_wrapper);
        assert(crate::doc::events_view(out@) =~= ser_record_events(self@, with_wrapper));
        crate::doc::write_events(&out)
    }
}

/// Relies on rand::random (rand's thread-local generator): one uniformly
/// drawn 16-bit value. Nothing is promised of the result; callers test what
/// came back.
#[verifier::external_body]
fn random_u16() -> u16 {
    rand::random::<u16>()
}

/// Whether `x` occurs in `v`.
pub fn contains_u16(v: &Vec<u16>, x: u16) -> (r: bool)
    ensures
        r == v@.contains(x),
{
    let mut i: usize = 0;
    while i < v.len()
        invariant
            i <= v@.len(),
            forall|j: int| 0 <= j < i ==> v@[j] != x,
        decreases v@.len() - i,
    {
        if v[i] == x {
            return true;
        }
        i = i + 1;
    }
    false
}

/// If every nonzero 16-bit value occurred in `v`, then `v` holds at least
/// 65535 entries.
proof fn lemma_id_space(v: Seq<u16>)
    requires
        forall|x: u16| x != 0 ==> v.contains(x),
    ensures
        v.len() >= 65535,
{
    let ints = v.map_values(|x: u16| x as int);
    let range = vstd::set_lib::set_int_range(1, 65536);
    vstd::set_lib::lemma_int_range(1, 65536);
    assert forall|i: int| range.contains(i) implies ints.to_set().contains(i) by {
        let x = i as u16;
        assert(v.contains(x));
        let j = choose|j: int| 0 <= j < v.len() && v[j] == x;
        assert(ints[j] == i);
        assert(ints.contains(i));
    }
    vstd::seq_lib::seq_to_set_is_finite(ints);
    ints.lemma_cardinality_of_set();
    vstd::set_lib::lemma_len_subset(range, ints.to_set());
}

impl EntryNode {
    /// Draws a fresh identifier for this record: a random 16-bit value,
    /// redrawn while it is 0 or collides with `existing`, falling back to a
    /// deterministic scan if luck runs out. Assigns it to the record,
    /// appends it to `existing`, and returns it. Uniqueness is guaranteed
    /// only against the supplied list.
    pub fn generate_id(&mut self, existing: &mut Vec<u16>) -> (r: u16)
        requires
            old(existing)@.len() < 65535,
        ensures
            r != 0,
            !old(existing)@.contains(r),
            final(existing)@ == old(existing)@.push(r),
            final(self)@ == (RecordV { id: Some(r), ..old(self)@ }),
    {
        let mut cand: u16 = 0;
        let mut tries: usize = 0;
        while tries < 32 && (cand == 0 || contains_u16(existing, cand))
            invariant
                existing@ == old(existing)@,
                self == old(self),
            decreases 32 - tries,
        {
            cand = random_u16();
            tries = tries + 1;
        }
        if cand == 0 || contains_u16(existing, cand) {
            cand = 1;
            while contains_u16(existing, cand)
                invariant
                    1 <= cand,
                    cand <= 65535,
                    existing@ == old(existing)@,
                    existing@.len() < 65535,
                    self == old(self),
                    forall|y: u16| 1 <= y < cand ==> existing@.contains(y),
                decreases 65535 - cand,
            {
                if cand == 65535 {
                    proof {
                        assert(forall|y: u16| y != 0 ==> existing@.contains(y));
                        lemma_id_space(existing@);
                        assert(false);
                    }
                }
                cand = cand + 1;
            }
        }
        self.id = Some(cand);
        existing.push(cand);
        cand
    }
}

/// The flattened (path, text) pairs of a field list: leaves paired with
/// their text, nested fields descended into with the tags joined by dots.
pub open spec fn flatten_of(prefix: Seq<u8>, fs: Seq<(NameV, ValueV)>) -> Seq<(Seq<u8>, Seq<u8>)>
    decreases fs,
    via flatten_of_dec
{
    if fs.len() == 0 {
        Seq::empty()
    } else {
        let path = if prefix.len() == 0 {
            tag_of(fs[0].0)
        } else {
            prefix + seq![46u8] + tag_of(fs[0].0)
        };
        (match fs[0].1 {
            ValueV::Text(t) => seq![(path, t)],
            ValueV::Nested(n) => flatten_of(path, n),
        }) + flatten_of(prefix, fs.subrange(1, fs.len() as int))
    }
}

#[via_fn]
proof fn flatten_of_dec(prefix: Seq<u8>, fs: Seq<(NameV, ValueV)>) {
    if fs.len() > 0 {
        assert(decreases_to!(fs => fs[0]));
        assert(decreases_to!(fs[0] => fs[0].1));
        assert(decreases_to!(fs => fs.subrange(1, fs.len() as int)));
    }
}

/// The view of a (path, text) pair list.
pub open spec fn pairs_view(ps: Seq<(Vec<u8>, Vec<u8>)>) -> Seq<(Seq<u8>, Seq<u8>)> {
    Seq::new(ps.len(), |i: int| (ps[i].0@, ps[i].1@))
}

/// Appends the flattened pairs of a field list.
fn flatten_into(
    out: &mut Vec<(Vec<u8>, Vec<u8>)>,
    prefix: &Vec<u8>,
    fs: &Vec<(NodeName, NodeValue)>,
)
    ensures
        pairs_view(final(out)@) == pairs_view(old(out)@) + flatten_of(prefix@, fields_view(fs@)),
    decreases fs@,
{
    proof {
        lemma_fields_view(fs@);
    }
    let mut i: usize = 0;
    assert(fields_view(fs@).skip(0) =~= fields_view(fs@));
    while i < fs.len()
        invariant
            i <= fs@.len(),
            pairs_view(old(out)@) + flatten_of(prefix@, fields_view(fs@)) == pairs_view(out@)
                + flatten_of(prefix@, fields_view(fs@).skip(i as int)),
        decreases fs@.len() - i,
    {
        proof {
            assert(decreases_to!(fs@ => fs@[i as int]));
            assert(decreases_to!(fs@[i as int] => fs@[i as int].1));
        }
        let ghost before = pairs_view(out@);
        let pair = &fs[i];
        let tag = pair.0.tag_bytes();
        let mut path: Vec<u8>;
        if prefix.len() == 0 {
            path = tag;
        } else {
            path = copy_bytes(prefix);
            path.push(46);
            append_bytes(&mut path, &tag);
            assert(path@ =~= prefix@ + seq![46u8] + tag_of(fs@[i as int].0@));
        }
        match &pair.1 {
            NodeValue::Text(t) => {
                out.push((path, copy_bytes(t)));
                proof {
                    assert(pairs_view(out@) =~= before.push(
                        (path@, fs@[i as int].1->Text_0@),
                    ));
                }
            },
            NodeValue::Nested(n) => {
                proof {
                    assert(decreases_to!(fs@[i as int].1 => *n));
                    assert(decreases_to!(*n => n@));
                    lemma_fields_view(n@);
                }
                flatten_into(out, &path, n);
            },
        }
        proof {
            let tail = fields_view(fs@).skip(i as int);
            assert(tail[0] == fields_view(fs@)[i as int]);
            assert(tail.subrange(1, tail.len() as int) =~= fields_view(fs@).skip(i as int + 1));
            assert(pairs_view(old(out)@) + flatten_of(prefix@, fields_view(fs@)) =~= pairs_view(
                out@,
            ) + flatten_of(prefix@, fields_view(fs@).skip(i as int + 1)));
        }
        i = i + 1;
    }
    proof {
        assert(fields_view(fs@).skip(fs@.len() as int) =~= Seq::<(NameV, ValueV)>::empty());
        assert(pairs_view(out@) + Seq::<(Seq<u8>, Seq<u8>)>::empty() =~= pairs_view(out@));
    }
}

/// Puts a field into a run already sorted by display rank, after every
/// field with the same or an earlier rank.
pub open spec fn insert_ord(p: (NameV, ValueV), s: Seq<(NameV, ValueV)>) -> Seq<(NameV, ValueV)>
    decreases s.len(),
{
    if s.len() == 0 {
        seq![p]
    } else if crate::names::order_of(p.0) < crate::names::order_of(s[0].0) {
        seq![p] + s
    } else {
        seq![s[0]] + insert_ord(p, s.drop_first())
    }
}

/// A field list sorted by display rank, stably: insertion sort, left to
/// right.
pub open spec fn sort_fields(s: Seq<(NameV, ValueV)>) -> Seq<(NameV, ValueV)>
    decreases s.len(),
{
    if s.len() == 0 {
        Seq::empty()
    } else {
        insert_ord(s.last(), sort_fields(s.drop_last()))
    }
}

/// Putting a field at the position where everything before has at most its
/// rank and the field after (if any) a strictly larger one is what
/// `insert_ord` does.
proof fn lemma_insert_ord_at(p: (NameV, ValueV), s: Seq<(NameV, ValueV)>, pos: int)
    requires
        0 <= pos <= s.len(),
        forall|k: int|
            0 <= k < pos ==> crate::names::order_of((#[trigger] s[k]).0) <= crate::names::order_of(
                p.0,
            ),
        pos < s.len() ==> crate::names::order_of(p.0) < crate::names::order_of(s[pos].0),
    ensures
        insert_ord(p, s) == s.insert(pos, p),
    decreases pos,
{
    if s.len() == 0 || pos == 0 {
        assert(insert_ord(p, s) =~= s.insert(0, p));
    } else {
        assert forall|k: int|
            0 <= k < pos - 1 implies crate::names::order_of(
            (#[trigger] s.drop_first()[k]).0,
        ) <= crate::names::order_of(p.0) by {
            assert(s.drop_first()[k] == s[k + 1]);
        }
        if pos - 1 < s.drop_first().len() {
            assert(s.drop_first()[pos - 1] == s[pos]);
        }
        lemma_insert_ord_at(p, s.drop_first(), pos - 1);
        assert(seq![s[0]] + s.drop_first().insert(pos - 1, p) =~= s.insert(pos, p));
    }
}

impl EntryNode {
    /// How many leaves the record's fields flatten to, nesting included.
    pub fn flattened_node_count(&self) -> (r: usize)
        ensures
            r == flatten_of(Seq::<u8>::empty(), self@.fields).len(),
    {
        let mut out: Vec<(Vec<u8>, Vec<u8>)> = Vec::new();
        let empty: Vec<u8> = Vec::new();
        flatten_into(&mut out, &empty, &self.nodes);
        proof {
            assert(pairs_view(out@) =~= flatten_of(Seq::<u8>::empty(), self@.fields));
        }
        out.len()
    }

    /// The record's fields as (path, text) pairs: sorted by the names'
    /// display rank, then flattened, nested paths joined by dots.
    pub fn get_vecs(&self) -> (r: Vec<(Vec<u8>, Vec<u8>)>)
        ensures
            pairs_view(r@) == flatten_of(Seq::<u8>::empty(), sort_fields(self@.fields)),
    {
        let ghost orig = fields_view(self.nodes@);
        let mut sorted: Vec<(NodeName, NodeValue)> = Vec::new();
        let mut i: usize = 0;
        proof {
            assert(orig.take(0) =~= Seq::<(NameV, ValueV)>::empty());
            assert(fields_view(sorted@) =~= Seq::<(NameV, ValueV)>::empty());
            assert(sort_fields(orig.take(0)) =~= Seq::<(NameV, ValueV)>::empty());
        }
        while i < self.nodes.len()
            invariant
                i <= self.nodes@.len(),
                orig == fields_view(self.nodes@),
                fields_view(sorted@) == sort_fields(orig.take(i as int)),
                forall|x: int, y: int|
                    0 <= x < y < sorted@.len() ==> crate::names::order_of(
                        #[trigger] fields_view(sorted@)[x].0,
                    ) <= crate::names::order_of(#[trigger] fields_view(sorted@)[y].0),
            decreases self.nodes@.len() - i,
        {
            let pair = &self.nodes[i];
            let name = pair.0.clone();
            let value = pair.1.clone();
            let key = name.order();
            let mut pos: usize = 0;
            while pos < sorted.len() && sorted[pos].0.order() <= key
                invariant
                    pos <= sorted@.len(),
                    forall|k: int|
                        0 <= k < pos ==> crate::names::order_of(
                            #[trigger] fields_view(sorted@)[k].0,
                        ) <= key,
                    key == crate::names::order_of(name@),
                decreases sorted@.len() - pos,
            {
                proof {
                    assert(fields_view(sorted@)[pos as int].0 == sorted@[pos as int].0@);
                }
                pos = pos + 1;
            }
            proof {
                assert(pos < sorted@.len() ==> crate::names::order_of(
                    fields_view(sorted@)[pos as int].0,
                ) > key);
            }
            let ghost s0 = fields_view(sorted@);
            let ghost pv = (name@, value_view(value));
            sorted.insert(pos, (name, value));
            proof {
                assert(fields_view(sorted@) =~= s0.insert(pos as int, pv));
                assert(pv == (orig.take(i as int + 1).last()));
                lemma_insert_ord_at(pv, s0, pos as int);
                assert(orig.take(i as int + 1).drop_last() =~= orig.take(i as int));
                lemma_insert_ord_sorted(pv, s0);
            }
            i = i + 1;
        }
        proof {
            assert(orig.take(self.nodes@.len() as int) =~= orig);
        }
        let mut out: Vec<(Vec<u8>, Vec<u8>)> = Vec::new();
        let empty: Vec<u8> = Vec::new();
        flatten_into(&mut out, &empty, &sorted);
        proof {
            assert(pairs_view(out@) =~= flatten_of(Seq::<u8>::empty(), sort_fields(orig)));
        }
        out
    }
}

/// Insertion by rank keeps a rank-sorted run sorted.
proof fn lemma_insert_ord_sorted(p: (NameV, ValueV), s: Seq<(NameV, ValueV)>)
    requires
        forall|x: int, y: int|
            0 <= x < y < s.len() ==> crate::names::order_of(
                (#[trigger] s[x]).0,
            ) <= crate::names::order_of((#[trigger] s[y]).0),
    ensures
        forall|x: int, y: int|
            0 <= x < y < insert_ord(p, s).len() ==> crate::names::order_of(
                (#[trigger] insert_ord(p, s)[x]).0,
            ) <= crate::names::order_of((#[trigger] insert_ord(p, s)[y]).0),
    decreases s.len(),
{
    broadcast use vstd::seq_lib::group_to_multiset_ensures;

    let out = insert_ord(p, s);
    if s.len() == 0 {
    } else if crate::names::order_of(p.0) < crate::names::order_of(s[0].0) {
        assert forall|x: int, y: int|
            0 <= x < y < out.len() implies crate::names::order_of(
            (#[trigger] out[x]).0,
        ) <= crate::names::order_of((#[trigger] out[y]).0) by {
            if x > 0 {
                assert(out[x] == s[x - 1] && out[y] == s[y - 1]);
            } else {
                assert(out[y] == s[y - 1]);
                if y > 1 {
                    assert(crate::names::order_of(s[0].0) <= crate::names::order_of(s[y - 1].0));
                }
            }
        }
    } else {
        assert(forall|x: int, y: int|
            0 <= x < y < s.drop_first().len() ==> crate::names::order_of(
                (#[trigger] s.drop_first()[x]).0,
            ) <= crate::names::order_of((#[trigger] s.drop_first()[y]).0));
        lemma_insert_ord_sorted(p, s.drop_first());
        let inner = insert_ord(p, s.drop_first());
        lemma_insert_ord_elems(p, s.drop_first());
        assert forall|x: int, y: int|
            0 <= x < y < out.len() implies crate::names::order_of(
            (#[trigger] out[x]).0,
        ) <= crate::names::order_of((#[trigger] out[y]).0) by {
            if x > 0 {
                assert(out[x] == inner[x - 1] && out[y] == inner[y - 1]);
            } else {
                assert(out[y] == inner[y - 1]);
            }
        }
    }
}

/// Everything in the inserted run is the new field or one of the old run.
proof fn lemma_insert_ord_elems(p: (NameV, ValueV), s: Seq<(NameV, ValueV)>)
    ensures
        forall|x: int|
            0 <= x < insert_ord(p, s).len() ==> (#[trigger] insert_ord(p, s)[x] == p || exists|w: int|
                0 <= w < s.len() && s[w] == insert_ord(p, s)[x]),
    decreases s.len(),
{
    let out = insert_ord(p, s);
    if s.len() == 0 {
    } else if crate::names::order_of(p.0) < crate::names::order_of(s[0].0) {
        assert forall|x: int|
            0 <= x < out.len() implies (#[trigger] out[x] == p || exists|w: int|
            0 <= w < s.len() && s[w] == out[x]) by {
            if x > 0 {
                assert(s[x - 1] == out[x]);
            }
        }
    } else {
        lemma_insert_ord_elems(p, s.drop_first());
        let inner = insert_ord(p, s.drop_first());
        assert forall|x: int|
            0 <= x < out.len() implies (#[trigger] out[x] == p || exists|w: int|
            0 <= w < s.len() && s[w] == out[x]) by {
            if x == 0 {
                assert(s[0] == out[0]);
            } else {
                assert(out[x] == inner[x - 1]);
                if inner[x - 1] != p {
                    let w = choose|w: int|
                        0 <= w < s.drop_first().len() && s.drop_first()[w] == inner[x - 1];
                    assert(s[w + 1] == out[x]);
                }
            }
        }
    }
}

} // verus!
