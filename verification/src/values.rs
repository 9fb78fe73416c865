//! Field values: a leaf text, or a nested mapping of field names to further
//! values. Field lists keep keys unique and remember insertion order.

use vstd::prelude::*;
use crate::names::{NameV, NodeName, tag_of};

verus! {

broadcast use vstd::std_specs::vec::axiom_vec_decreases_to_view, vstd::seq::axiom_seq_index_decreases, vstd::seq::axiom_seq_subrange_decreases;

/// Spec-level field value.
pub enum ValueV {
    Text(Seq<u8>),
    Nested(Seq<(NameV, ValueV)>),
}

/// The value of a field on a record: the text between a field's tags, or a
/// nested list of further fields.
#[derive(Debug)]
pub enum NodeValue {
    Text(Vec<u8>),
    Nested(Vec<(NodeName, NodeValue)>),
}

/// The spec value an exec value stands for.
pub open spec fn value_view(v: NodeValue) -> ValueV
    decreases v,
    via value_view_dec
{
    match v {
        NodeValue::Text(t) => ValueV::Text(t@),
        NodeValue::Nested(fs) => ValueV::Nested(fields_view_rec(fs@)),
    }
}

#[via_fn]
proof fn value_view_dec(v: NodeValue) {
    match v {
        NodeValue::Nested(fs) => {
            assert(decreases_to!(v => fs));
            assert(decreases_to!(fs => fs@));
        },
        _ => {},
    }
}

/// The view of a field list, pairwise.
pub open spec fn fields_view_rec(fs: Seq<(NodeName, NodeValue)>) -> Seq<(NameV, ValueV)>
    decreases fs,
    via fields_view_rec_dec
{
    if fs.len() == 0 {
        Seq::empty()
    } else {
        seq![(fs[0].0@, value_view(fs[0].1))] + fields_view_rec(fs.subrange(1, fs.len() as int))
    }
}

#[via_fn]
proof fn fields_view_rec_dec(fs: Seq<(NodeName, NodeValue)>) {
    if fs.len() > 0 {
        assert(decreases_to!(fs => fs[0]));
        assert(decreases_to!(fs[0] => fs[0].1));
        assert(decreases_to!(fs => fs.subrange(1, fs.len() as int)));
    }
}

/// The view of a field list, as a pointwise mapping.
pub open spec fn fields_view(fs: Seq<(NodeName, NodeValue)>) -> Seq<(NameV, ValueV)> {
    Seq::new(fs.len(), |i: int| (fs[i].0@, value_view(fs[i].1)))
}

/// The recursive and the pointwise readings of a field list agree.
pub broadcast proof fn lemma_fields_view(fs: Seq<(NodeName, NodeValue)>)
    ensures
        #[trigger] fields_view_rec(fs) == fields_view(fs),
    decreases fs.len(),
{
    if fs.len() > 0 {
        lemma_fields_view(fs.subrange(1, fs.len() as int));
        assert(fields_view_rec(fs) =~= fields_view(fs));
    } else {
        assert(fields_view_rec(fs) =~= fields_view(fs));
    }
}

impl View for NodeValue {
    type V = ValueV;

    open spec fn view(&self) -> ValueV {
        value_view(*self)
    }
}

/// The first value bound to `k`, if any.
pub open spec fn lookup(fs: Seq<(NameV, ValueV)>, k: NameV) -> Option<ValueV>
    decreases fs.len(),
{
    if fs.len() == 0 {
        None
    } else if fs[0].0 == k {
        Some(fs[0].1)
    } else {
        lookup(fs.drop_first(), k)
    }
}

/// Whether `k` is bound in the list.
pub open spec fn has_key(fs: Seq<(NameV, ValueV)>, k: NameV) -> bool {
    exists|i: int| 0 <= i < fs.len() && fs[i].0 == k
}

/// No key is bound twice.
pub open spec fn keys_unique(fs: Seq<(NameV, ValueV)>) -> bool {
    forall|i: int, j: int| 0 <= i < j < fs.len() ==> fs[i].0 != fs[j].0
}

/// A bound key is found.
pub proof fn lemma_lookup_some(fs: Seq<(NameV, ValueV)>, k: NameV)
    ensures
        lookup(fs, k) is Some <==> has_key(fs, k),
    decreases fs.len(),
{
    if fs.len() > 0 {
        lemma_lookup_some(fs.drop_first(), k);
        if fs[0].0 != k && has_key(fs, k) {
            let i = choose|i: int| 0 <= i < fs.len() && fs[i].0 == k;
            assert(fs.drop_first()[i - 1].0 == k);
        }
    }
}

/// If the first `i` keys miss `k` and position `i` hits, the lookup gives
/// the value at `i`.
pub proof fn lemma_lookup_prefix(fs: Seq<(NameV, ValueV)>, k: NameV, i: int)
    requires
        0 <= i < fs.len(),
        fs[i].0 == k,
        forall|j: int| 0 <= j < i ==> fs[j].0 != k,
    ensures
        lookup(fs, k) == Some(fs[i].1),
    decreases i,
{
    if i > 0 {
        lemma_lookup_prefix(fs.drop_first(), k, i - 1);
    }
}

/// If every key misses `k`, the lookup gives nothing.
pub proof fn lemma_lookup_all_miss(fs: Seq<(NameV, ValueV)>, k: NameV)
    requires
        forall|j: int| 0 <= j < fs.len() ==> fs[j].0 != k,
    ensures
        lookup(fs, k) is None,
    decreases fs.len(),
{
    if fs.len() > 0 {
        lemma_lookup_all_miss(fs.drop_first(), k);
    }
}

/// Copies a byte vector.
pub fn copy_bytes(v: &Vec<u8>) -> (r: Vec<u8>)
    ensures
        r@ == v@,
{
    let mut r: Vec<u8> = Vec::new();
    let mut i: usize = 0;
    while i < v.len()
        invariant
            i <= v.len(),
            r@ == v@.subrange(0, i as int),
        decreases v.len() - i,
    {
        r.push(v[i]);
        i = i + 1;
        assert(r@ =~= v@.subrange(0, i as int));
    }
    assert(r@ =~= v@);
    r
}

/// Appends a byte vector to another.
pub fn append_bytes(out: &mut Vec<u8>, v: &Vec<u8>)
    ensures
        final(out)@ == old(out)@ + v@,
{
    let mut i: usize = 0;
    while i < v.len()
        invariant
            i <= v.len(),
            out@ == old(out)@ + v@.subrange(0, i as int),
        decreases v.len() - i,
    {
        out.push(v[i]);
        i = i + 1;
        assert(out@ =~= old(out)@ + v@.subrange(0, i as int));
    }
    assert(out@ =~= old(out)@ + v@);
}

impl Clone for NodeName {
    fn clone(&self) -> (r: Self)
        ensures
            r@ == self@,
    {
        match self {
            NodeName::Title => NodeName::Title,
            NodeName::Description => NodeName::Description,
            NodeName::Location => NodeName::Location,
            NodeName::Color => NodeName::Color,
            NodeName::Due => NodeName::Due,
            NodeName::Duration => NodeName::Duration,
            NodeName::Alert => NodeName::Alert,
            NodeName::Other(v) => NodeName::Other(copy_bytes(v)),
        }
    }
}

impl Clone for NodeValue {
    fn clone(&self) -> (r: Self)
        ensures
            r@ == self@,
        decreases *self,
    {
        match self {
            NodeValue::Text(t) => NodeValue::Text(copy_bytes(t)),
            NodeValue::Nested(fs) => {
                proof {
                    assert(decreases_to!(*self => *fs));
                    assert(decreases_to!(*fs => fs@));
                }
                let mut r: Vec<(NodeName, NodeValue)> = Vec::new();
                let mut i: usize = 0;
                while i < fs.len()
                    invariant
                        i <= fs.len(),
                        r@.len() == i,
                        forall|j: int|
                            0 <= j < i ==> #[trigger] r@[j].0@ == fs@[j].0@ && value_view(r@[j].1)
                                == value_view(fs@[j].1),
                        decreases_to!(*self => fs@),
                    decreases fs.len() - i,
                {
                    proof {
                        assert(decreases_to!(fs@ => fs@[i as int]));
                        assert(decreases_to!(fs@[i as int] => fs@[i as int].1));
                    }
                    let pair = &fs[i];
                    let name = pair.0.clone();
                    let value = pair.1.clone();
                    r.push((name, value));
                    i = i + 1;
                }
                proof {
                    assert(fields_view(r@) =~= fields_view(fs@));
                    lemma_fields_view(r@);
                    lemma_fields_view(fs@);
                }
                NodeValue::Nested(r)
            },
        }
    }
}

/// Copies a field list.
pub fn clone_fields(fs: &Vec<(NodeName, NodeValue)>) -> (r: Vec<(NodeName, NodeValue)>)
    ensures
        fields_view(r@) == fields_view(fs@),
{
    let mut r: Vec<(NodeName, NodeValue)> = Vec::new();
    let mut i: usize = 0;
    while i < fs.len()
        invariant
            i <= fs.len(),
            r@.len() == i,
            forall|j: int|
                0 <= j < i ==> #[trigger] r@[j].0@ == fs@[j].0@ && value_view(r@[j].1)
                    == value_view(fs@[j].1),
        decreases fs.len() - i,
    {
        let pair = &fs[i];
        let name = pair.0.clone();
        let value = pair.1.clone();
        r.push((name, value));
        i = i + 1;
    }
    assert(fields_view(r@) =~= fields_view(fs@));
    r
}

/// Looks a field up by name, giving its position.
pub fn find_field(fs: &Vec<(NodeName, NodeValue)>, k: &NodeName) -> (r: Option<usize>)
    ensures
        match r {
            Some(i) => i < fs@.len() && fs@[i as int].0@ == k@ && lookup(fields_view(fs@), k@)
                == Some(value_view(fs@[i as int].1)) && (forall|j: int|
                0 <= j < i ==> fields_view(fs@)[j].0 != k@),
            None => lookup(fields_view(fs@), k@) is None,
        },
{
    let mut i: usize = 0;
    while i < fs.len()
        invariant
            i <= fs.len(),
            forall|j: int| 0 <= j < i ==> fields_view(fs@)[j].0 != k@,
        decreases fs.len() - i,
    {
        let pair = &fs[i];
        if pair.0.eq(k) {
            proof {
                lemma_lookup_prefix(fields_view(fs@), k@, i as int);
            }
            return Some(i);
        }
        i = i + 1;
    }
    proof {
        lemma_lookup_all_miss(fields_view(fs@), k@);
    }
    None
}

/// Where the first binding of `k` sits.
pub open spec fn spec_key_pos(fs: Seq<(NameV, ValueV)>, k: NameV) -> int {
    choose|i: int|
        0 <= i < fs.len() && fs[i].0 == k && (forall|j: int| 0 <= j < i ==> fs[j].0 != k)
}

/// The list after binding `k` to `v`: an in-place update of the first
/// binding, or an appended pair.
pub open spec fn spec_insert(fs: Seq<(NameV, ValueV)>, k: NameV, v: ValueV) -> Seq<(NameV, ValueV)> {
    if has_key(fs, k) {
        fs.update(spec_key_pos(fs, k), (k, v))
    } else {
        fs.push((k, v))
    }
}

proof fn lemma_key_pos(fs: Seq<(NameV, ValueV)>, k: NameV, i: int)
    requires
        0 <= i < fs.len(),
        fs[i].0 == k,
        forall|j: int| 0 <= j < i ==> fs[j].0 != k,
    ensures
        has_key(fs, k),
        spec_key_pos(fs, k) == i,
{
    assert(0 <= i < fs.len() && fs[i].0 == k && (forall|j: int| 0 <= j < i ==> fs[j].0 != k));
    let w = spec_key_pos(fs, k);
    assert(0 <= w < fs.len() && fs[w].0 == k && (forall|j: int| 0 <= j < w ==> fs[j].0 != k));
    if w < i {
        assert(fs[w].0 != k);
    }
    if i < w {
        assert(fs[i].0 != k);
    }
}

/// Binds `k` to `v`: replaces the first binding of `k` in place, or appends a
/// new one. Returns the value previously bound, as a map insertion does.
pub fn insert_field(fs: &mut Vec<(NodeName, NodeValue)>, k: NodeName, v: NodeValue) -> (r: Option<
    NodeValue,
>)
    ensures
        fields_view(final(fs)@) == spec_insert(fields_view(old(fs)@), k@, v@),
        match r {
            Some(o) => lookup(fields_view(old(fs)@), k@) == Some(o@),
            None => lookup(fields_view(old(fs)@), k@) is None,
        },
        keys_unique(fields_view(old(fs)@)) ==> keys_unique(fields_view(final(fs)@)),
{
    let ghost orig = fields_view(fs@);
    match find_field(fs, &k) {
        Some(i) => {
            let old_pair = fs.remove(i);
            fs.insert(i, (k, v));
            proof {
                lemma_key_pos(orig, k@, i as int);
                assert(fields_view(fs@) =~= orig.update(i as int, (k@, v@)));
                if keys_unique(orig) {
                    assert(keys_unique(fields_view(fs@)));
                }
                lemma_lookup_prefix(orig, k@, i as int);
            }
            Some(old_pair.1)
        },
        None => {
            fs.push((k, v));
            proof {
                assert(!has_key(orig, k@)) by {
                    lemma_lookup_some(orig, k@);
                }
                assert(fields_view(fs@) =~= orig.push((k@, v@)));
                if keys_unique(orig) {
                    assert forall|j: int| 0 <= j < orig.len() implies orig[j].0 != k@ by {
                        if orig[j].0 == k@ {
                            assert(has_key(orig, k@));
                        }
                    }
                    assert(keys_unique(fields_view(fs@)));
                }
            }
            None
        },
    }
}

/// The list after unbinding `k`: the first binding removed, or the list
/// unchanged.
pub open spec fn spec_remove(fs: Seq<(NameV, ValueV)>, k: NameV) -> Seq<(NameV, ValueV)> {
    if has_key(fs, k) {
        fs.remove(spec_key_pos(fs, k))
    } else {
        fs
    }
}

proof fn lemma_unique_remove(fs: Seq<(NameV, ValueV)>, i: int)
    requires
        0 <= i < fs.len(),
        keys_unique(fs),
    ensures
        keys_unique(fs.remove(i)),
{
    let r = fs.remove(i);
    assert forall|x: int, y: int| 0 <= x < y < r.len() implies r[x].0 != r[y].0 by {
        let x0: int = if x < i {
            x
        } else {
            x + 1
        };
        let y0: int = if y < i {
            y
        } else {
            y + 1
        };
        assert(r[x] == fs[x0] && r[y] == fs[y0]);
    }
}

/// Unbinds `k`, returning the value it was bound to.
pub fn take_field(fs: &mut Vec<(NodeName, NodeValue)>, k: &NodeName) -> (r: Option<NodeValue>)
    ensures
        fields_view(final(fs)@) == spec_remove(fields_view(old(fs)@), k@),
        match r {
            Some(o) => lookup(fields_view(old(fs)@), k@) == Some(o@),
            None => lookup(fields_view(old(fs)@), k@) is None,
        },
        keys_unique(fields_view(old(fs)@)) ==> keys_unique(fields_view(final(fs)@)),
{
    let ghost orig = fields_view(fs@);
    match find_field(fs, k) {
        Some(i) => {
            let old_pair = fs.remove(i);
            proof {
                lemma_key_pos(orig, k@, i as int);
                assert(fields_view(fs@) =~= orig.remove(i as int));
                if keys_unique(orig) {
                    lemma_unique_remove(orig, i as int);
                }
                lemma_lookup_prefix(orig, k@, i as int);
            }
            Some(old_pair.1)
        },
        None => {
            proof {
                lemma_lookup_some(orig, k@);
            }
            None
        },
    }
}

/// The text a value shows as: the leaf text itself, or each nested field as
/// `tag - value` on a line of its own.
pub open spec fn display_of(v: ValueV) -> Seq<u8>
    decreases v,
    via display_of_dec
{
    match v {
        ValueV::Text(t) => t,
        ValueV::Nested(fs) => display_fields(fs),
    }
}

#[via_fn]
proof fn display_of_dec(v: ValueV) {
    match v {
        ValueV::Nested(fs) => {
            assert(decreases_to!(v => fs));
        },
        _ => {},
    }
}

/// The lines nested fields show as.
pub open spec fn display_fields(fs: Seq<(NameV, ValueV)>) -> Seq<u8>
    decreases fs,
    via display_fields_dec
{
    if fs.len() == 0 {
        Seq::empty()
    } else {
        tag_of(fs[0].0) + seq![32u8, 45u8, 32u8] + display_of(fs[0].1) + seq![10u8]
            + display_fields(fs.subrange(1, fs.len() as int))
    }
}

#[via_fn]
proof fn display_fields_dec(fs: Seq<(NameV, ValueV)>) {
    if fs.len() > 0 {
        assert(decreases_to!(fs => fs[0]));
        assert(decreases_to!(fs[0] => fs[0].1));
        assert(decreases_to!(fs => fs.subrange(1, fs.len() as int)));
    }
}

/// Renders the text a value shows as.
pub fn display_text(v: &NodeValue) -> (r: Vec<u8>)
    ensures
        r@ == display_of(v@),
    decreases *v,
{
    match v {
        NodeValue::Text(t) => copy_bytes(t),
        NodeValue::Nested(fs) => {
            proof {
                lemma_fields_view(fs@);
                assert(decreases_to!(*v => *fs));
                assert(decreases_to!(*fs => fs@));
            }
            let mut out: Vec<u8> = Vec::new();
            let mut i: usize = 0;
            assert(fields_view(fs@).skip(0) =~= fields_view(fs@));
            while i < fs.len()
                invariant
                    i <= fs.len(),
                    display_fields(fields_view(fs@)) == out@ + display_fields(
                        fields_view(fs@).skip(i as int),
                    ),
                    *v == NodeValue::Nested(*fs),
                    decreases_to!(*v => fs@),
                decreases fs.len() - i,
            {
                proof {
                    assert(decreases_to!(fs@ => fs@[i as int]));
                    assert(decreases_to!(fs@[i as int] => fs@[i as int].1));
                }
                let pair = &fs[i];
                let tag = pair.0.tag_bytes();
                append_bytes(&mut out, &tag);
                out.push(32);
                out.push(45);
                out.push(32);
                let inner = display_text(&pair.1);
                append_bytes(&mut out, &inner);
                out.push(10);
                proof {
                    let tail = fields_view(fs@).skip(i as int);
                    assert(tail[0] == fields_view(fs@)[i as int]);
                    assert(tail.subrange(1, tail.len() as int) =~= fields_view(fs@).skip(
                        i as int + 1,
                    ));
                    assert(display_fields(fields_view(fs@)) =~= out@ + display_fields(
                        fields_view(fs@).skip(i as int + 1),
                    ));
                }
                i = i + 1;
            }
            proof {
                assert(fields_view(fs@).skip(fs@.len() as int) =~= Seq::<(NameV, ValueV)>::empty());
                assert(v@ == ValueV::Nested(fields_view(fs@)));
            }
            out
        },
    }
}

/// Decides whether two values hold the same data.
pub fn value_eq(a: &NodeValue, b: &NodeValue) -> (r: bool)
    ensures
        r == (a@ == b@),
    decreases *a,
{
    match (a, b) {
        (NodeValue::Text(x), NodeValue::Text(y)) => crate::bytes::bytes_eq(x, y),
        (NodeValue::Nested(xs), NodeValue::Nested(ys)) => {
            proof {
                lemma_fields_view(xs@);
                lemma_fields_view(ys@);
                assert(decreases_to!(*a => *xs));
                assert(decreases_to!(*xs => xs@));
            }
            if xs.len() != ys.len() {
                proof {
                    assert(fields_view(xs@).len() != fields_view(ys@).len());
                }
                return false;
            }
            let mut i: usize = 0;
            while i < xs.len()
                invariant
                    i <= xs@.len(),
                    xs@.len() == ys@.len(),
                    forall|j: int|
                        0 <= j < i ==> #[trigger] fields_view(xs@)[j] == fields_view(ys@)[j],
                    a@ == ValueV::Nested(fields_view(xs@)),
                    b@ == ValueV::Nested(fields_view(ys@)),
                    decreases_to!(*a => xs@),
                decreases xs@.len() - i,
            {
                proof {
                    assert(decreases_to!(xs@ => xs@[i as int]));
                    assert(decreases_to!(xs@[i as int] => xs@[i as int].1));
                }
                let px = &xs[i];
                let py = &ys[i];
                if !px.0.eq(&py.0) {
                    proof {
                        assert(fields_view(xs@)[i as int].0 != fields_view(ys@)[i as int].0);
                        assert(fields_view(xs@) != fields_view(ys@));
                    }
                    return false;
                }
                if !value_eq(&px.1, &py.1) {
                    proof {
                        assert(fields_view(xs@)[i as int].1 != fields_view(ys@)[i as int].1);
                        assert(fields_view(xs@) != fields_view(ys@));
                    }
                    return false;
                }
                i = i + 1;
            }
            proof {
                assert(fields_view(xs@) =~= fields_view(ys@));
            }
            true
        },
        (NodeValue::Text(x), NodeValue::Nested(_)) => false,
        (NodeValue::Nested(xs), NodeValue::Text(_)) => false,
    }
}

} // verus!
