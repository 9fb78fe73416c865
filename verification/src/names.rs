//! Field names: a closed set of well-known tags plus an open catch-all for
//! unknown tags, with the total order used for canonical display.

use vstd::prelude::*;
use crate::bytes::{lower_bytes, lower, is_name_byte, bytes_eq};

verus! {

/// Spec-level field name.
pub enum NameV {
    Title,
    Description,
    Location,
    Color,
    Due,
    Duration,
    Alert,
    Other(Seq<u8>),
}

/// Tag spelled `name`.
pub open spec fn tag_title() -> Seq<u8> {
    seq![110u8, 97u8, 109u8, 101u8]
}

/// Tag spelled `description`.
pub open spec fn tag_description() -> Seq<u8> {
    seq![100u8, 101u8, 115u8, 99u8, 114u8, 105u8, 112u8, 116u8, 105u8, 111u8, 110u8]
}

/// Tag spelled `location`.
pub open spec fn tag_location() -> Seq<u8> {
    seq![108u8, 111u8, 99u8, 97u8, 116u8, 105u8, 111u8, 110u8]
}

/// Tag spelled `color`.
pub open spec fn tag_color() -> Seq<u8> {
    seq![99u8, 111u8, 108u8, 111u8, 114u8]
}

/// Tag spelled `due`.
pub open spec fn tag_due() -> Seq<u8> {
    seq![100u8, 117u8, 101u8]
}

/// Tag spelled `duration`.
pub open spec fn tag_duration() -> Seq<u8> {
    seq![100u8, 117u8, 114u8, 97u8, 116u8, 105u8, 111u8, 110u8]
}

/// Tag spelled `alert`.
pub open spec fn tag_alert() -> Seq<u8> {
    seq![97u8, 108u8, 101u8, 114u8, 116u8]
}

/// Tag spelled `entry`.
pub open spec fn tag_entry() -> Seq<u8> {
    seq![101u8, 110u8, 116u8, 114u8, 121u8]
}

/// Tag spelled `directory`.
pub open spec fn tag_directory() -> Seq<u8> {
    seq![100u8, 105u8, 114u8, 101u8, 99u8, 116u8, 111u8, 114u8, 121u8]
}

/// Tag spelled `registry`.
pub open spec fn tag_registry() -> Seq<u8> {
    seq![114u8, 101u8, 103u8, 105u8, 115u8, 116u8, 114u8, 121u8]
}

/// Attribute key spelled `id`.
pub open spec fn key_id() -> Seq<u8> {
    seq![105u8, 100u8]
}

pub fn tag_title_bytes() -> (r: Vec<u8>)
    ensures
        r@ == tag_title(),
{
    let mut r: Vec<u8> = Vec::new();
    r.push(110);
    r.push(97);
    r.push(109);
    r.push(101);
    assert(r@ =~= tag_title());
    r
}

pub fn tag_description_bytes() -> (r: Vec<u8>)
    ensures
        r@ == tag_description(),
{
    let mut r: Vec<u8> = Vec::new();
    r.push(100);
    r.push(101);
    r.push(115);
    r.push(99);
    r.push(114);
    r.push(105);
    r.push(112);
    r.push(116);
    r.push(105);
    r.push(111);
    r.push(110);
    assert(r@ =~= tag_description());
    r
}

pub fn tag_location_bytes() -> (r: Vec<u8>)
    ensures
        r@ == tag_location(),
{
    let mut r: Vec<u8> = Vec::new();
    r.push(108);
    r.push(111);
    r.push(99);
    r.push(97);
    r.push(116);
    r.push(105);
    r.push(111);
    r.push(110);
    assert(r@ =~= tag_location());
    r
}

pub fn tag_color_bytes() -> (r: Vec<u8>)
    ensures
        r@ == tag_color(),
{
    let mut r: Vec<u8> = Vec::new();
    r.push(99);
    r.push(111);
    r.push(108);
    r.push(111);
    r.push(114);
    assert(r@ =~= tag_color());
    r
}

pub fn tag_due_bytes() -> (r: Vec<u8>)
    ensures
        r@ == tag_due(),
{
    let mut r: Vec<u8> = Vec::new();
    r.push(100);
    r.push(117);
    r.push(101);
    assert(r@ =~= tag_due());
    r
}

pub fn tag_duration_bytes() -> (r: Vec<u8>)
    ensures
        r@ == tag_duration(),
{
    let mut r: Vec<u8> = Vec::new();
    r.push(100);
    r.push(117);
    r.push(114);
    r.push(97);
    r.push(116);
    r.push(105);
    r.push(111);
    r.push(110);
    assert(r@ =~= tag_duration());
    r
}

pub fn tag_alert_bytes() -> (r: Vec<u8>)
    ensures
        r@ == tag_alert(),
{
    let mut r: Vec<u8> = Vec::new();
    r.push(97);
    r.push(108);
    r.push(101);
    r.push(114);
    r.push(116);
    assert(r@ =~= tag_alert());
    r
}

pub fn tag_entry_bytes() -> (r: Vec<u8>)
    ensures
        r@ == tag_entry(),
{
    let mut r: Vec<u8> = Vec::new();
    r.push(101);
    r.push(110);
    r.push(116);
    r.push(114);
    r.push(121);
    assert(r@ =~= tag_entry());
    r
}

pub fn tag_directory_bytes() -> (r: Vec<u8>)
    ensures
        r@ == tag_directory(),
{
    let mut r: Vec<u8> = Vec::new();
    r.push(100);
    r.push(105);
    r.push(114);
    r.push(101);
    r.push(99);
    r.push(116);
    r.push(111);
    r.push(114);
    r.push(121);
    assert(r@ =~= tag_directory());
    r
}

pub fn tag_registry_bytes() -> (r: Vec<u8>)
    ensures
        r@ == tag_registry(),
{
    let mut r: Vec<u8> = Vec::new();
    r.push(114);
    r.push(101);
    r.push(103);
    r.push(105);
    r.push(115);
    r.push(116);
    r.push(114);
    r.push(121);
    assert(r@ =~= tag_registry());
    r
}

pub fn key_id_bytes() -> (r: Vec<u8>)
    ensures
        r@ == key_id(),
{
    let mut r: Vec<u8> = Vec::new();
    r.push(105);
    r.push(100);
    assert(r@ =~= key_id());
    r
}

/// The key of a field on a record: one of the well-known tags, or any other
/// tag kept as-is (already lowercased).
#[derive(Debug)]
pub enum NodeName {
    /// The title (tag `name`).
    Title,
    /// A description.
    Description,
    /// Where it takes place.
    Location,
    /// A display color.
    Color,
    /// A due date (unix timestamp).
    Due,
    /// How long it takes, in minutes.
    Duration,
    /// How to trigger an alert.
    Alert,
    /// Any other tag.
    Other(Vec<u8>),
}

impl View for NodeName {
    type V = NameV;

    open spec fn view(&self) -> NameV {
        match self {
            NodeName::Title => NameV::Title,
            NodeName::Description => NameV::Description,
            NodeName::Location => NameV::Location,
            NodeName::Color => NameV::Color,
            NodeName::Due => NameV::Due,
            NodeName::Duration => NameV::Duration,
            NodeName::Alert => NameV::Alert,
            NodeName::Other(v) => NameV::Other(v@),
        }
    }
}

impl PartialEq for NodeName {
    fn eq(&self, other: &Self) -> (r: bool) {
        match (self, other) {
            (NodeName::Title, NodeName::Title) => true,
            (NodeName::Description, NodeName::Description) => true,
            (NodeName::Location, NodeName::Location) => true,
            (NodeName::Color, NodeName::Color) => true,
            (NodeName::Due, NodeName::Due) => true,
            (NodeName::Duration, NodeName::Duration) => true,
            (NodeName::Alert, NodeName::Alert) => true,
            (NodeName::Other(a), NodeName::Other(b)) => bytes_eq(a, b),
            _ => false,
        }
    }
}

impl Eq for NodeName {

}

impl vstd::std_specs::cmp::PartialEqSpecImpl for NodeName {
    open spec fn obeys_eq_spec() -> bool {
        true
    }

    open spec fn eq_spec(&self, other: &Self) -> bool {
        self@ == other@
    }
}

/// What a tag spells as a field name: the tag is lowercased, the well-known
/// spellings map to their variants, anything else is kept as `Other`.
pub open spec fn name_of(s: Seq<u8>) -> NameV {
    let l = lower_bytes(s);
    if l == tag_title() {
        NameV::Title
    } else if l == tag_description() {
        NameV::Description
    } else if l == tag_location() {
        NameV::Location
    } else if l == tag_color() {
        NameV::Color
    } else if l == tag_due() {
        NameV::Due
    } else if l == tag_duration() {
        NameV::Duration
    } else if l == tag_alert() {
        NameV::Alert
    } else {
        NameV::Other(l)
    }
}

/// The tag a field name serializes as.
pub open spec fn tag_of(n: NameV) -> Seq<u8> {
    match n {
        NameV::Title => tag_title(),
        NameV::Description => tag_description(),
        NameV::Location => tag_location(),
        NameV::Color => tag_color(),
        NameV::Due => tag_due(),
        NameV::Duration => tag_duration(),
        NameV::Alert => tag_alert(),
        NameV::Other(v) => v,
    }
}

/// The rank of a field name in canonical display order: the well-known
/// names first, then the open names by length, and Color and Alert last,
/// tied. An open name's rank stays strictly below theirs.
pub open spec fn order_of(n: NameV) -> u8 {
    match n {
        NameV::Title => 0,
        NameV::Description => 1,
        NameV::Location => 2,
        NameV::Due => 3,
        NameV::Duration => 4,
        NameV::Other(v) => (127 + v.len() % 127) as u8,
        NameV::Color => 254,
        NameV::Alert => 254,
    }
}

/// A name is fit for serialization: a well-known variant, or an `Other` whose
/// tag is nonempty, lowercase name bytes, and not a well-known spelling.
pub open spec fn wf_name(n: NameV) -> bool {
    match n {
        NameV::Other(v) => {
            &&& v.len() > 0
            &&& forall|i: int| 0 <= i < v.len() ==> is_name_byte(#[trigger] v[i])
            &&& lower_bytes(v) == v
            &&& v != tag_title()
            &&& v != tag_description()
            &&& v != tag_location()
            &&& v != tag_color()
            &&& v != tag_due()
            &&& v != tag_duration()
            &&& v != tag_alert()
        },
        _ => true,
    }
}

impl NodeName {
    /// Reads a tag into a field name, lowercasing it first.
    pub fn from_str(s: &Vec<u8>) -> (r: NodeName)
        ensures
            r@ == name_of(s@),
    {
        let l = lower(s);
        if bytes_eq(&l, &tag_title_bytes()) {
            NodeName::Title
        } else if bytes_eq(&l, &tag_description_bytes()) {
            NodeName::Description
        } else if bytes_eq(&l, &tag_location_bytes()) {
            NodeName::Location
        } else if bytes_eq(&l, &tag_color_bytes()) {
            NodeName::Color
        } else if bytes_eq(&l, &tag_due_bytes()) {
            NodeName::Due
        } else if bytes_eq(&l, &tag_duration_bytes()) {
            NodeName::Duration
        } else if bytes_eq(&l, &tag_alert_bytes()) {
            NodeName::Alert
        } else {
            NodeName::Other(l)
        }
    }

    /// The tag this name serializes as.
    pub fn tag_bytes(&self) -> (r: Vec<u8>)
        ensures
            r@ == tag_of(self@),
    {
        match self {
            NodeName::Title => tag_title_bytes(),
            NodeName::Description => tag_description_bytes(),
            NodeName::Location => tag_location_bytes(),
            NodeName::Color => tag_color_bytes(),
            NodeName::Due => tag_due_bytes(),
            NodeName::Duration => tag_duration_bytes(),
            NodeName::Alert => tag_alert_bytes(),
            NodeName::Other(v) => {
                let mut r: Vec<u8> = Vec::new();
                let mut i: usize = 0;
                while i < v.len()
                    invariant
                        i <= v.len(),
                        r@ == v@.subrange(0, i as int),
                    decreases v.len() - i,
                {
                    r.push(v[i]);
                    i = i + 1;
                    assert(r@ =~= v@.subrange(0, i as int));
                }
                assert(r@ =~= v@);
                r
            },
        }
    }

    /// The rank of this name in canonical display order.
    pub fn order(&self) -> (r: u8)
        ensures
            r == order_of(self@),
    {
        match self {
            NodeName::Title => 0,
            NodeName::Description => 1,
            NodeName::Location => 2,
            NodeName::Due => 3,
            NodeName::Duration => 4,
            NodeName::Other(v) => 127 + (v.len() % 127) as u8,
            NodeName::Color => 254,
            NodeName::Alert => 254,
        }
    }
}

/// The display order is total, as the data model gives it: the well-known
/// names in their fixed order, then every open name, then Color and Alert,
/// which tie.
pub proof fn lemma_order_total(v: Seq<u8>)
    ensures
        order_of(NameV::Title) < order_of(NameV::Description),
        order_of(NameV::Description) < order_of(NameV::Location),
        order_of(NameV::Location) < order_of(NameV::Due),
        order_of(NameV::Due) < order_of(NameV::Duration),
        order_of(NameV::Duration) < order_of(NameV::Other(v)),
        order_of(NameV::Other(v)) < order_of(NameV::Color),
        order_of(NameV::Color) == order_of(NameV::Alert),
{
    assert(v.len() % 127 < 127);
}

/// Well-known tags are already lowercase.
proof fn lemma_known_tags_lower()
    ensures
        lower_bytes(tag_title()) == tag_title(),
        lower_bytes(tag_description()) == tag_description(),
        lower_bytes(tag_location()) == tag_location(),
        lower_bytes(tag_color()) == tag_color(),
        lower_bytes(tag_due()) == tag_due(),
        lower_bytes(tag_duration()) == tag_duration(),
        lower_bytes(tag_alert()) == tag_alert(),
{
    assert(lower_bytes(tag_title()) =~= tag_title());
    assert(lower_bytes(tag_description()) =~= tag_description());
    assert(lower_bytes(tag_location()) =~= tag_location());
    assert(lower_bytes(tag_color()) =~= tag_color());
    assert(lower_bytes(tag_due()) =~= tag_due());
    assert(lower_bytes(tag_duration()) =~= tag_duration());
    assert(lower_bytes(tag_alert()) =~= tag_alert());
}

/// Reading back the tag a well-formed name serializes as gives the name.
pub proof fn lemma_name_roundtrip(n: NameV)
    requires
        wf_name(n),
    ensures
        name_of(tag_of(n)) == n,
{
    lemma_known_tags_lower();
}

} // verus!
