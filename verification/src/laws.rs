//! Laws of the engine, stated and proved over the same spec functions the
//! executable functions' contracts use.

use vstd::prelude::*;
use crate::doc::{EventV, render, parse_doc, wf_event, wf_events, lt_b};
use crate::passes::{DelStV, delete_run, delete_spec, removable_start, removable_empty, edit_run,
    edit_spec, EdStV, insert_run, insert_spec, event_id};
use crate::records::{RecordV, ser_value_events, ser_fields_events, ser_record_events};
use crate::names::{NameV, tag_registry, wf_name, tag_of, name_of, tag_title, tag_description,
    tag_location, tag_color, tag_due, tag_duration, tag_alert, tag_entry, lemma_name_roundtrip};
use crate::values::{ValueV, keys_unique, has_key, spec_insert};
use crate::bytes::{is_ws, is_name_byte};

verus! {

/// No event of `es` opens or is a record marked for removal.
pub open spec fn no_removables(es: Seq<EventV>, removed: Set<u16>) -> bool {
    forall|i: int|
        0 <= i < es.len() ==> !removable_start(#[trigger] es[i], removed) && !removable_empty(
            es[i],
            removed,
        )
}

/// What the deletion machine emits never holds a removable event: in the
/// copying state removable events are consumed, and in the skipping state
/// nothing is emitted at all.
pub proof fn lemma_delete_output_clean(es: Seq<EventV>, i: int, st: DelStV, removed: Set<u16>)
    requires
        0 <= i,
    ensures
        no_removables(delete_run(es, i, st, removed).0, removed),
    decreases es.len() - i,
{
    if i < es.len() {
        let ev = es[i];
        match st {
            DelStV::Copy => {
                if removable_start(ev, removed) {
                    lemma_delete_output_clean(es, i + 1, DelStV::Skip(0), removed);
                } else if removable_empty(ev, removed) {
                    lemma_delete_output_clean(es, i + 1, DelStV::Copy, removed);
                } else {
                    lemma_delete_output_clean(es, i + 1, DelStV::Copy, removed);
                    let rest = delete_run(es, i + 1, DelStV::Copy, removed);
                    assert forall|k: int|
                        0 <= k < delete_run(es, i, st, removed).0.len() implies !removable_start(
                        #[trigger] delete_run(es, i, st, removed).0[k],
                        removed,
                    ) && !removable_empty(delete_run(es, i, st, removed).0[k], removed) by {
                        if k > 0 {
                            assert(delete_run(es, i, st, removed).0[k] == rest.0[k - 1]);
                        }
                    }
                }
            },
            DelStV::Skip(depth) => {
                match ev {
                    EventV::Start(_, _) => lemma_delete_output_clean(
                        es,
                        i + 1,
                        DelStV::Skip(depth + 1),
                        removed,
                    ),
                    EventV::End(_) => {
                        if depth == 0 {
                            lemma_delete_output_clean(es, i + 1, DelStV::Copy, removed);
                        } else {
                            lemma_delete_output_clean(es, i + 1, DelStV::Skip(depth - 1), removed);
                        }
                    },
                    _ => lemma_delete_output_clean(es, i + 1, st, removed),
                }
            },
        }
    }
}

/// On events with nothing left to remove, the deletion pass is the
/// identity: it copies everything and prunes nothing.
pub proof fn lemma_delete_noop(es: Seq<EventV>, i: int, removed: Set<u16>)
    requires
        0 <= i <= es.len(),
        no_removables(es, removed),
    ensures
        delete_run(es, i, DelStV::Copy, removed) == (es.skip(i), Seq::<u16>::empty()),
    decreases es.len() - i,
{
    if i == es.len() {
        assert(es.skip(i) =~= Seq::<EventV>::empty());
    } else {
        lemma_delete_noop(es, i + 1, removed);
        assert(seq![es[i]] + es.skip(i + 1) =~= es.skip(i));
    }
}

/// Idempotence of the deletion pass: run again with the same removed set on
/// its own output, it emits that output unchanged and prunes nothing.
pub proof fn lemma_delete_idempotent(es: Seq<EventV>, removed: Set<u16>)
    ensures
        delete_spec(delete_spec(es, removed).0, removed) == (
            delete_spec(es, removed).0,
            Seq::<u16>::empty(),
        ),
{
    let out = delete_spec(es, removed).0;
    lemma_delete_output_clean(es, 0, DelStV::Copy, removed);
    lemma_delete_noop(out, 0, removed);
    assert(out.skip(0) =~= out);
}

/// Identifier allocation is collision-free: across any run of allocations
/// that share one exclusion list, where each allocation returns an id that
/// is nonzero and absent from the list as grown so far, no two ids are
/// equal and none is zero.
pub proof fn lemma_allocated_ids_unique(exclusions: Seq<u16>, ids: Seq<u16>)
    requires
        forall|i: int|
            0 <= i < ids.len() ==> ids[i] != 0 && !(exclusions + ids.take(i)).contains(
                #[trigger] ids[i],
            ),
    ensures
        forall|i: int, j: int| 0 <= i < j < ids.len() ==> ids[i] != ids[j],
        forall|i: int| 0 <= i < ids.len() ==> ids[i] != 0,
{
    assert forall|i: int, j: int| 0 <= i < j < ids.len() implies ids[i] != ids[j] by {
        if ids[i] == ids[j] {
            assert((exclusions + ids.take(j))[exclusions.len() + i] == ids[i]);
            assert((exclusions + ids.take(j)).contains(ids[j]));
        }
    }
}

/// Every record of the working set is clean of the modified flag.
pub open spec fn none_modified(ws: Seq<RecordV>) -> bool {
    forall|k: int| 0 <= k < ws.len() ==> !(#[trigger] ws[k]).modified
}

/// On a working set with no unflushed edits, the edit pass is the identity:
/// it copies everything and captures nothing.
pub proof fn lemma_edit_noop(es: Seq<EventV>, i: int, ws: Seq<RecordV>)
    requires
        0 <= i <= es.len(),
        none_modified(ws),
    ensures
        edit_run(es, i, EdStV::Copy, ws) == (es.skip(i), Seq::<u16>::empty()),
    decreases es.len() - i,
{
    if i == es.len() {
        assert(es.skip(i) =~= Seq::<EventV>::empty());
    } else {
        assert(!crate::passes::editable(es[i], ws)) by {
            match es[i] {
                EventV::Start(n, a) => {
                    match crate::attrs::id_of_attrs(a) {
                        Some(id) => {
                            lemma_find_rec_modified(ws, id);
                        },
                        None => {},
                    }
                },
                _ => {},
            }
        }
        lemma_edit_noop(es, i + 1, ws);
        assert(seq![es[i]] + es.skip(i + 1) =~= es.skip(i));
    }
}

/// A record found in a working set with no unflushed edits is itself clean.
proof fn lemma_find_rec_modified(ws: Seq<RecordV>, id: u16)
    requires
        none_modified(ws),
    ensures
        match crate::passes::find_rec(ws, id) {
            Some(r) => !r.modified,
            None => true,
        },
    decreases ws.len(),
{
    if ws.len() > 0 {
        assert(none_modified(ws.drop_first())) by {
            assert(forall|k: int|
                0 <= k < ws.drop_first().len() ==> !(#[trigger] ws.drop_first()[k]).modified);
        }
        lemma_find_rec_modified(ws.drop_first(), id);
    }
}

/// Insertion ordering: where the document root's start tag stands at `p`,
/// the insertion pass keeps everything up to and including it, then emits
/// the freshly created records in working-set order, then the rest of the
/// document unchanged.
pub proof fn lemma_insert_ordering(es: Seq<EventV>, ws: Seq<RecordV>, fresh: Set<u16>, p: int)
    requires
        0 <= p < es.len(),
        es[p] matches EventV::Start(n, _) && n == tag_registry(),
        forall|k: int|
            0 <= k < p ==> !((#[trigger] es[k]) matches EventV::Start(n, _) && n == tag_registry()),
    ensures
        insert_spec(es, ws, fresh) == es.take(p + 1) + crate::passes::fresh_records_events(
            ws,
            fresh,
        ) + es.skip(p + 1),
{
    lemma_insert_ordering_from(es, ws, fresh, 0, p);
    assert(es.skip(0) =~= es);
    assert(es.take(p + 1).skip(0) =~= es.take(p + 1));
}

proof fn lemma_insert_ordering_from(es: Seq<EventV>, ws: Seq<RecordV>, fresh: Set<u16>, i: int, p: int)
    requires
        0 <= i <= p < es.len(),
        es[p] matches EventV::Start(n, _) && n == tag_registry(),
        forall|k: int|
            0 <= k < p ==> !((#[trigger] es[k]) matches EventV::Start(n, _) && n == tag_registry()),
    ensures
        insert_run(es, i, ws, fresh) == es.take(p + 1).skip(i) + crate::passes::fresh_records_events(
            ws,
            fresh,
        ) + es.skip(p + 1),
    decreases p - i,
{
    if i == p {
        assert(es.take(p + 1).skip(p) =~= seq![es[p]]);
        assert(insert_run(es, i, ws, fresh) == seq![es[p]] + crate::passes::fresh_records_events(
            ws,
            fresh,
        ) + es.skip(p + 1));
    } else {
        lemma_insert_ordering_from(es, ws, fresh, i + 1, p);
        assert(seq![es[i]] + es.take(p + 1).skip(i + 1) =~= es.take(p + 1).skip(i));
        assert(seq![es[i]] + (es.take(p + 1).skip(i + 1) + crate::passes::fresh_records_events(
            ws,
            fresh,
        ) + es.skip(p + 1)) =~= es.take(p + 1).skip(i) + crate::passes::fresh_records_events(
            ws,
            fresh,
        ) + es.skip(p + 1));
    }
}

/// Every event the deletion machine emits is a copy of a well-formed input
/// event, so it is well formed itself.
pub proof fn lemma_delete_output_weak_wf(es: Seq<EventV>, i: int, st: DelStV, removed: Set<u16>)
    requires
        0 <= i,
        crate::doc::weak_wf_events(es),
    ensures
        crate::doc::weak_wf_events(delete_run(es, i, st, removed).0),
    decreases es.len() - i,
{
    if i < es.len() {
        let ev = es[i];
        match st {
            DelStV::Copy => {
                if removable_start(ev, removed) {
                    lemma_delete_output_weak_wf(es, i + 1, DelStV::Skip(0), removed);
                } else if removable_empty(ev, removed) {
                    lemma_delete_output_weak_wf(es, i + 1, DelStV::Copy, removed);
                } else {
                    lemma_delete_output_weak_wf(es, i + 1, DelStV::Copy, removed);
                    let rest = delete_run(es, i + 1, DelStV::Copy, removed);
                    assert forall|k: int|
                        0 <= k < delete_run(es, i, st, removed).0.len() implies crate::doc::wf_event(
                        #[trigger] delete_run(es, i, st, removed).0[k],
                    ) by {
                        if k > 0 {
                            assert(delete_run(es, i, st, removed).0[k] == rest.0[k - 1]);
                        } else {
                            assert(crate::doc::wf_event(es[i]));
                        }
                    }
                }
            },
            DelStV::Skip(depth) => {
                match ev {
                    EventV::Start(_, _) => lemma_delete_output_weak_wf(
                        es,
                        i + 1,
                        DelStV::Skip(depth + 1),
                        removed,
                    ),
                    EventV::End(_) => {
                        if depth == 0 {
                            lemma_delete_output_weak_wf(es, i + 1, DelStV::Copy, removed);
                        } else {
                            lemma_delete_output_weak_wf(
                                es,
                                i + 1,
                                DelStV::Skip(depth - 1),
                                removed,
                            );
                        }
                    },
                    _ => lemma_delete_output_weak_wf(es, i + 1, st, removed),
                }
            },
        }
    }
}

/// Merging adjacent texts makes no event removable: tags pass through the
/// merge untouched.
pub proof fn lemma_norm_no_removables(es: Seq<EventV>, removed: Set<u16>)
    requires
        no_removables(es, removed),
    ensures
        no_removables(crate::doc::norm(es), removed),
    decreases es.len(),
{
    if es.len() <= 1 {
    } else {
        match (es[0], es[1]) {
            (EventV::Text(a), EventV::Text(b)) => {
                let merged = seq![EventV::Text(a + b)] + es.skip(2);
                assert(no_removables(merged, removed)) by {
                    assert forall|k: int|
                        0 <= k < merged.len() implies !removable_start(
                        #[trigger] merged[k],
                        removed,
                    ) && !removable_empty(merged[k], removed) by {
                        if k > 0 {
                            assert(merged[k] == es.skip(2)[k - 1]);
                            assert(es.skip(2)[k - 1] == es[k + 1]);
                        }
                    }
                }
                lemma_norm_no_removables(merged, removed);
            },
            _ => {
                assert(no_removables(es.skip(1), removed)) by {
                    assert(forall|k: int| 0 <= k < es.skip(1).len() ==> es.skip(1)[k] == es[k + 1]);
                }
                lemma_norm_no_removables(es.skip(1), removed);
                let out = seq![es[0]] + crate::doc::norm(es.skip(1));
                assert forall|k: int|
                    0 <= k < out.len() implies !removable_start(#[trigger] out[k], removed)
                    && !removable_empty(out[k], removed) by {
                    if k > 0 {
                        assert(out[k] == crate::doc::norm(es.skip(1))[k - 1]);
                    }
                }
            },
        }
    }
}

/// Idempotence of the deletion pass, over document text: running the pass
/// again, with the same removed set, on the text the pass produced reads
/// the text back, removes nothing, and writes the same text out.
pub proof fn lemma_delete_text_idempotent(s: Seq<u8>, removed: Set<u16>)
    requires
        parse_doc(s) is Some,
    ensures
        ({
            let out = render(delete_spec(parse_doc(s)->Some_0, removed).0);
            &&& parse_doc(out) is Some
            &&& delete_spec(parse_doc(out)->Some_0, removed).1 == Seq::<u16>::empty()
            &&& render(delete_spec(parse_doc(out)->Some_0, removed).0) == out
        }),
{
    let evs = parse_doc(s)->Some_0;
    let o = delete_spec(evs, removed).0;
    let out = render(o);
    crate::doc::lemma_parse_wf(s, 0);
    lemma_delete_output_weak_wf(evs, 0, DelStV::Copy, removed);
    let m = crate::doc::norm(o);
    crate::doc::lemma_norm_wf(o);
    crate::doc::lemma_norm_render(o);
    crate::doc::lemma_parse_render(m);
    assert(parse_doc(out) == Some(m));
    lemma_delete_output_clean(evs, 0, DelStV::Copy, removed);
    lemma_norm_no_removables(o, removed);
    lemma_delete_noop(m, 0, removed);
    assert(m.skip(0) =~= m);
}

/// A value fit for serialization: leaf texts carry no whitespace at either
/// end and no tag opener, and nested values hold at least one well-formed
/// field (an empty nesting would serialize as an empty leaf).
pub open spec fn wf_value(v: ValueV) -> bool
    decreases v,
    via wf_value_dec
{
    match v {
        ValueV::Text(t) => (t.len() == 0 || (!is_ws(t[0]) && !is_ws(t.last()))) && (forall|x: int|
            0 <= x < t.len() ==> t[x] != lt_b()),
        ValueV::Nested(fs) => fs.len() > 0 && wf_fields(fs) && keys_unique(fs),
    }
}

#[via_fn]
proof fn wf_value_dec(v: ValueV) {
    match v {
        ValueV::Nested(fs) => {
            assert(decreases_to!(v => fs));
        },
        _ => {},
    }
}

/// A field list fit for serialization: every name and value well formed.
pub open spec fn wf_fields(fs: Seq<(NameV, ValueV)>) -> bool
    decreases fs,
    via wf_fields_dec
{
    if fs.len() == 0 {
        true
    } else {
        wf_name(fs[0].0) && wf_value(fs[0].1) && wf_fields(fs.subrange(1, fs.len() as int))
    }
}

#[via_fn]
proof fn wf_fields_dec(fs: Seq<(NameV, ValueV)>) {
    if fs.len() > 0 {
        assert(decreases_to!(fs => fs[0]));
        assert(decreases_to!(fs[0] => fs[0].1));
        assert(decreases_to!(fs => fs.subrange(1, fs.len() as int)));
    }
}

/// Each field in a well-formed list is well formed.
pub proof fn lemma_wf_fields_index(fs: Seq<(NameV, ValueV)>, k: int)
    requires
        wf_fields(fs),
        0 <= k < fs.len(),
    ensures
        wf_name(fs[k].0),
        wf_value(fs[k].1),
    decreases k,
{
    if k > 0 {
        lemma_wf_fields_index(fs.subrange(1, fs.len() as int), k - 1);
    }
}

/// The tag of a well-formed name is a well-formed tag name.
pub proof fn lemma_tag_of_wf(k: NameV)
    requires
        wf_name(k),
    ensures
        crate::doc::wf_tag_name(tag_of(k)),
{
    assert(forall|x: int| 0 <= x < tag_title().len() ==> is_name_byte(#[trigger] tag_title()[x]));
    assert(forall|x: int|
        0 <= x < tag_description().len() ==> is_name_byte(#[trigger] tag_description()[x]));
    assert(forall|x: int|
        0 <= x < tag_location().len() ==> is_name_byte(#[trigger] tag_location()[x]));
    assert(forall|x: int| 0 <= x < tag_color().len() ==> is_name_byte(#[trigger] tag_color()[x]));
    assert(forall|x: int| 0 <= x < tag_due().len() ==> is_name_byte(#[trigger] tag_due()[x]));
    assert(forall|x: int|
        0 <= x < tag_duration().len() ==> is_name_byte(#[trigger] tag_duration()[x]));
    assert(forall|x: int| 0 <= x < tag_alert().len() ==> is_name_byte(#[trigger] tag_alert()[x]));
}

/// What a well-formed value serializes as is well formed.
pub proof fn lemma_ser_value_wf(v: ValueV)
    requires
        wf_value(v),
    ensures
        wf_events(ser_value_events(v)),
    decreases v,
{
    match v {
        ValueV::Text(t) => {},
        ValueV::Nested(fs) => {
            assert(decreases_to!(v => fs));
            lemma_ser_fields_wf(fs);
        },
    }
}

/// What a well-formed field list serializes as is well formed, and it opens
/// with a start tag and closes with an end tag.
pub proof fn lemma_ser_fields_wf(fs: Seq<(NameV, ValueV)>)
    requires
        wf_fields(fs),
    ensures
        wf_events(ser_fields_events(fs)),
        ser_fields_events(fs).len() > 0 <==> fs.len() > 0,
        fs.len() > 0 ==> (ser_fields_events(fs)[0] is Start && ser_fields_events(
            fs,
        ).last() is End),
    decreases fs,
{
    if fs.len() > 0 {
        let k = fs[0].0;
        let v = fs[0].1;
        let rest = fs.subrange(1, fs.len() as int);
        assert(decreases_to!(fs => fs[0]));
        assert(decreases_to!(fs[0] => fs[0].1));
        assert(decreases_to!(fs => rest));
        lemma_ser_value_wf(v);
        lemma_ser_fields_wf(rest);
        lemma_tag_of_wf(k);
        let hd = seq![EventV::Start(tag_of(k), Seq::<u8>::empty())] + ser_value_events(v) + seq![
            EventV::End(tag_of(k)),
        ];
        let out = hd + ser_fields_events(rest);
        assert(ser_fields_events(fs) == out);
        let vl = ser_value_events(v).len() as int;
        assert forall|x: int| 0 <= x < out.len() implies wf_event(#[trigger] out[x]) by {
            if x == 0 {
                assert(out[x] == EventV::Start(tag_of(k), Seq::<u8>::empty()));
            } else if x < 1 + vl {
                assert(out[x] == ser_value_events(v)[x - 1]);
            } else if x == 1 + vl {
                assert(out[x] == EventV::End(tag_of(k)));
            } else {
                assert(out[x] == ser_fields_events(rest)[x - (2 + vl)]);
            }
        }
        assert forall|x: int| 0 < x < out.len() implies !((#[trigger] out[x]) is Text && out[x - 1]
            is Text) by {
            if x < 1 + vl {
                if 1 < x {
                    assert(out[x] == ser_value_events(v)[x - 1] && out[x - 1] == ser_value_events(
                        v,
                    )[x - 2]);
                } else {
                    assert(!(out[0] is Text));
                }
            } else if x == 1 + vl {
                assert(!(out[x] is Text));
            } else if x == 2 + vl {
                assert(!(out[x - 1] is Text));
            } else {
                assert(out[x] == ser_fields_events(rest)[x - (2 + vl)] && out[x - 1]
                    == ser_fields_events(rest)[x - (3 + vl)]);
            }
        }
        assert(out.last() is End) by {
            if rest.len() == 0 {
                assert(ser_fields_events(rest).len() == 0);
                assert(out.last() == EventV::End(tag_of(k)));
            } else {
                assert(out.last() == ser_fields_events(rest).last());
            }
        }
    }
}

/// Binding a key that is not yet bound appends it.
pub proof fn lemma_insert_missing(acc: Seq<(NameV, ValueV)>, k: NameV, v: ValueV)
    requires
        !has_key(acc, k),
    ensures
        spec_insert(acc, k, v) == acc.push((k, v)),
{
}

/// Reading back what one well-formed value serializes as, up to the closing
/// tag that follows it, gives the value.
pub proof fn lemma_dec_ser_value(es: Seq<EventV>, i: int, ktag: Seq<u8>, v: ValueV)
    requires
        0 <= i,
        wf_value(v),
        i + ser_value_events(v).len() + 1 <= es.len(),
        forall|x: int|
            0 <= x < ser_value_events(v).len() ==> es[i + x] == #[trigger] ser_value_events(v)[x],
        es[i + ser_value_events(v).len()] == EventV::End(ktag),
    ensures
        crate::tree::dec_node(es, i, ktag, Seq::empty(), Seq::empty()) matches Some(res)
            && crate::tree::mk_value(res.0, res.1) == v && res.2 == i + ser_value_events(v).len()
            + 1,
    decreases v,
{
    match v {
        ValueV::Text(t) => {
            if t.len() == 0 {
                assert(t =~= Seq::<u8>::empty());
                assert(es[i] == EventV::End(ktag));
                assert(crate::tree::dec_node(es, i, ktag, Seq::empty(), Seq::empty()) == Some(
                    (Seq::<(NameV, ValueV)>::empty(), Seq::<u8>::empty(), i + 1),
                ));
            } else {
                assert(ser_value_events(v)[0] == EventV::Text(t));
                assert(es[i] == EventV::Text(t));
                assert(es[i + 1] == EventV::End(ktag));
                crate::doc::lemma_trim_id(t);
                assert(crate::tree::dec_node(es, i, ktag, Seq::empty(), Seq::empty())
                    == crate::tree::dec_node(es, i + 1, ktag, Seq::empty(), t));
                assert(crate::tree::dec_node(es, i + 1, ktag, Seq::empty(), t) == Some(
                    (Seq::<(NameV, ValueV)>::empty(), t, i + 2),
                ));
            }
        },
        ValueV::Nested(fs) => {
            assert(decreases_to!(v => fs));
            let L = ser_fields_events(fs).len() as int;
            assert(ser_value_events(v) == ser_fields_events(fs));
            lemma_dec_ser_fields(es, i, ktag, fs, Seq::empty(), Seq::empty());
            assert(Seq::<(NameV, ValueV)>::empty() + fs =~= fs);
            assert(es[i + L] == EventV::End(ktag));
            assert(crate::tree::dec_node(es, i + L, ktag, fs, Seq::empty()) == Some(
                (fs, Seq::<u8>::empty(), i + L + 1),
            ));
        },
    }
}

/// Reading back what a well-formed field list serializes as carries the
/// reader across it, binding each field in order.
pub proof fn lemma_dec_ser_fields(
    es: Seq<EventV>,
    i: int,
    parent: Seq<u8>,
    fs: Seq<(NameV, ValueV)>,
    acc_f: Seq<(NameV, ValueV)>,
    acc_t: Seq<u8>,
)
    requires
        0 <= i,
        wf_fields(fs),
        keys_unique(fs),
        forall|x: int| 0 <= x < fs.len() ==> !has_key(acc_f, (#[trigger] fs[x]).0),
        i + ser_fields_events(fs).len() < es.len(),
        forall|x: int|
            0 <= x < ser_fields_events(fs).len() ==> es[i + x] == #[trigger] ser_fields_events(
                fs,
            )[x],
    ensures
        crate::tree::dec_node(es, i, parent, acc_f, acc_t) == crate::tree::dec_node(
            es,
            i + ser_fields_events(fs).len(),
            parent,
            acc_f + fs,
            acc_t,
        ),
    decreases fs,
{
    if fs.len() == 0 {
        assert(acc_f + fs =~= acc_f);
    } else {
        let k = fs[0].0;
        let v = fs[0].1;
        let rest = fs.subrange(1, fs.len() as int);
        assert(decreases_to!(fs => fs[0]));
        assert(decreases_to!(fs[0] => fs[0].1));
        assert(decreases_to!(fs => rest));
        let vl = ser_value_events(v).len() as int;
        let hd = seq![EventV::Start(tag_of(k), Seq::<u8>::empty())] + ser_value_events(v) + seq![
            EventV::End(tag_of(k)),
        ];
        assert(ser_fields_events(fs) == hd + ser_fields_events(rest));
        assert(es[i] == EventV::Start(tag_of(k), Seq::<u8>::empty())) by {
            assert(ser_fields_events(fs)[0] == hd[0]);
        }
        assert forall|x: int| 0 <= x < vl implies es[i + 1 + x] == #[trigger] ser_value_events(v)[x] by {
            assert(ser_fields_events(fs)[1 + x] == hd[1 + x]);
            assert(hd[1 + x] == ser_value_events(v)[x]);
        }
        assert(es[i + 1 + vl] == EventV::End(tag_of(k))) by {
            assert(ser_fields_events(fs)[1 + vl] == hd[1 + vl]);
        }
        lemma_dec_ser_value(es, i + 1, tag_of(k), v);
        let res = crate::tree::dec_node(es, i + 1, tag_of(k), Seq::empty(), Seq::empty())->Some_0;
        let j = i + 2 + vl;
        assert(res.2 == j);
        lemma_name_roundtrip(k);
        assert(name_of(tag_of(k)) == k);
        lemma_insert_missing(acc_f, k, crate::tree::mk_value(res.0, res.1));
        assert(crate::tree::dec_node(es, i, parent, acc_f, acc_t) == crate::tree::dec_node(
            es,
            j,
            parent,
            acc_f.push((k, v)),
            acc_t,
        ));
        assert forall|x: int| 0 <= x < rest.len() implies !has_key(
            acc_f.push((k, v)),
            (#[trigger] rest[x]).0,
        ) by {
            assert(rest[x] == fs[x + 1]);
            assert(!has_key(acc_f, fs[x + 1].0));
            if has_key(acc_f.push((k, v)), rest[x].0) {
                let w = choose|w: int|
                    0 <= w < acc_f.push((k, v)).len() && acc_f.push((k, v))[w].0 == rest[x].0;
                if w < acc_f.len() {
                    assert(acc_f[w].0 == rest[x].0);
                } else {
                    assert(k == rest[x].0);
                    assert(fs[0].0 == fs[x + 1].0);
                    assert(false);
                }
            }
        }
        assert forall|x: int| 0 <= x < ser_fields_events(rest).len() implies es[j + x]
            == #[trigger] ser_fields_events(rest)[x] by {
            assert(ser_fields_events(fs)[2 + vl + x] == ser_fields_events(rest)[x]);
            assert(es[i + (2 + vl + x)] == ser_fields_events(fs)[2 + vl + x]);
        }
        assert(keys_unique(rest)) by {
            assert(forall|x: int, y: int|
                0 <= x < y < rest.len() ==> (#[trigger] rest[x]).0 != (#[trigger] rest[y]).0);
        }
        lemma_dec_ser_fields(es, j, parent, rest, acc_f.push((k, v)), acc_t);
        assert(acc_f.push((k, v)) + rest =~= acc_f + fs) by {
            assert(fs == seq![(k, v)] + rest);
        }
    }
}

/// Round trip of a record: serializing a well-formed record with the
/// wrapper and decoding the text back gives one record with the same
/// identity and the same field data, clean of local flags.
/// What a record with an identity serializes as, with the wrapper, is well
/// formed: it opens with the record's start tag and closes with its end tag.
pub proof fn lemma_ser_record_wf(r: RecordV)
    requires
        wf_fields(r.fields),
        r.id is Some,
    ensures
        wf_events(ser_record_events(r, true)),
        ser_record_events(r, true).len() == ser_fields_events(r.fields).len() + 2,
        ser_record_events(r, true)[0] == EventV::Start(
            tag_entry(),
            crate::attrs::ser_attrs(r.id->Some_0),
        ),
        ser_record_events(r, true).last() == EventV::End(tag_entry()),
{
    let id = r.id->Some_0;
    let evs = ser_record_events(r, true);
    let fe = ser_fields_events(r.fields);
    let L = fe.len() as int;
    let st = EventV::Start(tag_entry(), crate::attrs::ser_attrs(id));
    let en = EventV::End(tag_entry());
    assert(evs == seq![st] + fe + seq![en]);
    assert(evs.len() == L + 2);
    crate::attrs::lemma_ser_attrs_ok(id);
    lemma_ser_fields_wf(r.fields);
    assert(forall|x: int| 0 <= x < tag_entry().len() ==> is_name_byte(#[trigger] tag_entry()[x]));
    assert(wf_event(st));
    assert(wf_event(en));
    assert forall|x: int| 0 <= x < evs.len() implies wf_event(#[trigger] evs[x]) by {
        if x == 0 {
            assert(evs[x] == st);
        } else if x < 1 + L {
            assert(evs[x] == fe[x - 1]);
        } else {
            assert(evs[x] == en);
        }
    }
    assert forall|x: int| 0 < x < evs.len() implies !((#[trigger] evs[x]) is Text && evs[x - 1]
        is Text) by {
        if 1 < x < 1 + L {
            assert(evs[x] == fe[x - 1] && evs[x - 1] == fe[x - 2]);
        } else if x == 1 + L {
            assert(evs[x] == en);
        } else {
            assert(!(evs[0] is Text));
        }
    }
}

pub proof fn lemma_record_roundtrip(r: RecordV)
    requires
        wf_fields(r.fields),
        keys_unique(r.fields),
        r.id is Some,
    ensures
        crate::tree::decode_doc(render(ser_record_events(r, true))) == Some(
            seq![
                crate::tree::NodeV::Element(
                    RecordV { id: r.id, fields: r.fields, removed: false, modified: false },
                ),
            ],
        ),
{
    let id = r.id->Some_0;
    let evs = ser_record_events(r, true);
    let fe = ser_fields_events(r.fields);
    let L = fe.len() as int;
    let st = EventV::Start(tag_entry(), crate::attrs::ser_attrs(id));
    let en = EventV::End(tag_entry());
    assert(evs == seq![st] + fe + seq![en]);
    assert(evs.len() == L + 2);
    lemma_ser_record_wf(r);
    crate::doc::lemma_parse_render(evs);
    assert(parse_doc(render(evs)) == Some(evs));
    crate::attrs::lemma_id_roundtrip(id);
    assert(evs[0] == st);
    assert forall|x: int| 0 <= x < L implies evs[1 + x] == #[trigger] fe[x] by {
        assert(evs[1 + x] == (seq![st] + fe + seq![en])[1 + x]);
    }
    assert(evs[1 + L] == en);
    lemma_dec_ser_fields(evs, 1, tag_entry(), r.fields, Seq::empty(), Seq::empty());
    assert(crate::tree::dec_node(evs, 1 + L, tag_entry(), Seq::empty() + r.fields, Seq::empty())
        == Some((Seq::empty() + r.fields, Seq::<u8>::empty(), L + 2)));
    assert(Seq::empty() + r.fields =~= r.fields);
    let rec = RecordV { id: Some(id), fields: r.fields, removed: false, modified: false };
    assert(crate::tree::dec_top(evs, L + 2, Seq::empty().push(crate::tree::NodeV::Element(rec)))
        == Some(seq![crate::tree::NodeV::Element(rec)])) by {
        assert(Seq::empty().push(crate::tree::NodeV::Element(rec)) =~= seq![
            crate::tree::NodeV::Element(rec),
        ]);
    }
    assert(crate::tree::dec_top(evs, 0, Seq::empty()) == Some(
        seq![crate::tree::NodeV::Element(rec)],
    ));
}

/// A list whose every entry is well formed is a well-formed list.
pub proof fn lemma_wf_fields_from_index(fs: Seq<(NameV, ValueV)>)
    requires
        forall|x: int| 0 <= x < fs.len() ==> wf_name((#[trigger] fs[x]).0) && wf_value(fs[x].1),
    ensures
        wf_fields(fs),
    decreases fs.len(),
{
    if fs.len() > 0 {
        let rest = fs.subrange(1, fs.len() as int);
        assert(forall|x: int|
            0 <= x < rest.len() ==> wf_name((#[trigger] rest[x]).0) && wf_value(rest[x].1));
        lemma_wf_fields_from_index(rest);
    }
}

/// Binding a well-formed field into a well-formed list keeps the list well
/// formed, with keys still unique.
pub proof fn lemma_insert_wf(acc: Seq<(NameV, ValueV)>, k: NameV, v: ValueV)
    requires
        wf_fields(acc),
        keys_unique(acc),
        wf_name(k),
        wf_value(v),
    ensures
        wf_fields(spec_insert(acc, k, v)),
        keys_unique(spec_insert(acc, k, v)),
{
    let out = spec_insert(acc, k, v);
    if has_key(acc, k) {
        let p = crate::values::spec_key_pos(acc, k);
        assert(0 <= p < acc.len() && acc[p].0 == k && (forall|j: int| 0 <= j < p ==> acc[j].0 != k))
            by {
            let w = choose|w: int| 0 <= w < acc.len() && acc[w].0 == k;
            let q = choose|q: int|
                0 <= q < acc.len() && acc[q].0 == k && (forall|j: int| 0 <= j < q ==> acc[j].0 != k);
            if !(0 <= q < acc.len() && acc[q].0 == k) {
                assert(forall|j: int| 0 <= j < w ==> acc[j].0 != k || exists|m: int|
                    0 <= m < w && acc[m].0 == k);
            }
        }
        assert forall|x: int| 0 <= x < out.len() implies wf_name((#[trigger] out[x]).0) && wf_value(
            out[x].1,
        ) by {
            lemma_wf_fields_index(acc, x);
        }
        lemma_wf_fields_from_index(out);
        assert(keys_unique(out)) by {
            assert(forall|x: int| 0 <= x < out.len() ==> (#[trigger] out[x]).0 == acc[x].0);
        }
    } else {
        assert forall|x: int| 0 <= x < out.len() implies wf_name((#[trigger] out[x]).0) && wf_value(
            out[x].1,
        ) by {
            if x < acc.len() {
                lemma_wf_fields_index(acc, x);
            }
        }
        lemma_wf_fields_from_index(out);
        assert(keys_unique(out)) by {
            assert forall|x: int, y: int| 0 <= x < y < out.len() implies out[x].0 != out[y].0 by {
                if y == acc.len() {
                    if out[x].0 == k {
                        assert(has_key(acc, k));
                    }
                }
            }
        }
    }
}

/// The name a well-formed tag reads as is well formed.
pub proof fn lemma_name_of_wf(n: Seq<u8>)
    requires
        crate::doc::wf_tag_name(n),
    ensures
        wf_name(name_of(n)),
{
    let l = crate::bytes::lower_bytes(n);
    assert(l.len() == n.len());
    assert forall|x: int| 0 <= x < l.len() implies is_name_byte(#[trigger] l[x]) by {
        assert(l[x] == crate::bytes::to_lower_byte(n[x]));
        assert(is_name_byte(n[x]));
    }
    assert(crate::bytes::lower_bytes(l) =~= l) by {
        assert(forall|x: int|
            0 <= x < l.len() ==> crate::bytes::lower_bytes(l)[x] == crate::bytes::to_lower_byte(
                #[trigger] l[x],
            ));
        assert(forall|x: int|
            0 <= x < l.len() ==> crate::bytes::to_lower_byte(#[trigger] l[x]) == l[x]);
    }
}

/// A text event's bytes are a well-formed leaf.
pub open spec fn wf_text(t: Seq<u8>) -> bool {
    (t.len() == 0 || (!is_ws(t[0]) && !is_ws(t.last()))) && (forall|x: int|
        0 <= x < t.len() ==> t[x] != lt_b())
}

/// What the body reader gives back, off well-formed events and well-formed
/// accumulators, is well formed: unique keys, well-formed fields, and a
/// well-formed leaf text.
pub proof fn lemma_dec_node_wf(
    es: Seq<EventV>,
    i: int,
    parent: Seq<u8>,
    acc_f: Seq<(NameV, ValueV)>,
    acc_t: Seq<u8>,
)
    requires
        0 <= i,
        crate::doc::weak_wf_events(es),
        wf_fields(acc_f),
        keys_unique(acc_f),
        wf_text(acc_t),
        crate::tree::dec_node(es, i, parent, acc_f, acc_t) is Some,
    ensures
        ({
            let res = crate::tree::dec_node(es, i, parent, acc_f, acc_t)->Some_0;
            &&& wf_fields(res.0)
            &&& keys_unique(res.0)
            &&& wf_text(res.1)
            &&& wf_value(crate::tree::mk_value(res.0, res.1))
        }),
    decreases es.len() - i,
{
    if i >= es.len() {
    } else {
        match es[i] {
            EventV::Start(k, _) => {
                let child = crate::tree::dec_node(es, i + 1, k, Seq::empty(), Seq::empty());
                lemma_dec_node_wf(es, i + 1, k, Seq::empty(), Seq::empty());
                let (cf, ct, j) = child->Some_0;
                let v = crate::tree::mk_value(cf, ct);
                assert(wf_event(es[i]));
                lemma_name_of_wf(k);
                lemma_insert_wf(acc_f, name_of(k), v);
                lemma_dec_node_wf(es, j, parent, spec_insert(acc_f, name_of(k), v), acc_t);
            },
            EventV::Text(t) => {
                assert(wf_event(es[i]));
                crate::doc::lemma_trim(t);
                assert(wf_text(crate::doc::trim(t))) by {
                    assert forall|x: int|
                        0 <= x < crate::doc::trim(t).len() implies crate::doc::trim(t)[x]
                        != lt_b() by {
                        let k = choose|k: int|
                            0 <= k < t.len() && t[k] == crate::doc::trim(t)[x];
                    }
                }
                lemma_dec_node_wf(es, i + 1, parent, acc_f, crate::doc::trim(t));
            },
            EventV::End(n) => {
                if n != parent {
                    lemma_dec_node_wf(es, i + 1, parent, acc_f, acc_t);
                }
            },
            EventV::Empty(_, _) => {
                lemma_dec_node_wf(es, i + 1, parent, acc_f, acc_t);
            },
        }
    }
}

/// A tree node fit for re-serialization: a record with an identity, clean
/// flags, unique keys and well-formed fields; groups are unconstrained.
pub open spec fn wf_node(n: crate::tree::NodeV) -> bool {
    match n {
        crate::tree::NodeV::Element(r) => r.id is Some && !r.removed && !r.modified && wf_fields(
            r.fields,
        ) && keys_unique(r.fields),
        crate::tree::NodeV::Directory(_, _, _) => true,
    }
}

/// Every node the top-level reader gives back, off well-formed events, is
/// fit for re-serialization.
pub proof fn lemma_dec_top_wf(es: Seq<EventV>, i: int, acc: Seq<crate::tree::NodeV>)
    requires
        0 <= i,
        crate::doc::weak_wf_events(es),
        forall|x: int| 0 <= x < acc.len() ==> wf_node(#[trigger] acc[x]),
        crate::tree::dec_top(es, i, acc) is Some,
    ensures
        forall|x: int|
            0 <= x < crate::tree::dec_top(es, i, acc)->Some_0.len() ==> wf_node(
                #[trigger] crate::tree::dec_top(es, i, acc)->Some_0[x],
            ),
    decreases es.len() - i,
{
    if i >= es.len() {
    } else {
        match es[i] {
            EventV::Start(n, a) => {
                if n == tag_entry() {
                    lemma_dec_node_wf(es, i + 1, tag_entry(), Seq::empty(), Seq::empty());
                    let (f, t, j) = crate::tree::dec_node(
                        es,
                        i + 1,
                        tag_entry(),
                        Seq::empty(),
                        Seq::empty(),
                    )->Some_0;
                    match crate::attrs::id_of_attrs(a) {
                        Some(id) => {
                            let rec = RecordV {
                                id: Some(id),
                                fields: f,
                                removed: false,
                                modified: false,
                            };
                            let acc2 = acc.push(crate::tree::NodeV::Element(rec));
                            assert(forall|x: int|
                                0 <= x < acc2.len() ==> wf_node(#[trigger] acc2[x]));
                            lemma_dec_top_wf(es, j, acc2);
                        },
                        None => {
                            lemma_dec_top_wf(es, j, acc);
                        },
                    }
                } else if n == crate::names::tag_directory() {
                    let (c, f, j) = crate::tree::dec_dir(
                        es,
                        i + 1,
                        Seq::empty(),
                        Seq::empty(),
                    )->Some_0;
                    let acc2 = acc.push(
                        crate::tree::NodeV::Directory(crate::attrs::id_of_attrs(a), f, c),
                    );
                    assert(forall|x: int| 0 <= x < acc2.len() ==> wf_node(#[trigger] acc2[x]));
                    lemma_dec_top_wf(es, j, acc2);
                } else {
                    lemma_dec_top_wf(es, i + 1, acc);
                }
            },
            EventV::End(n) => {
                if n != tag_registry() {
                    lemma_dec_top_wf(es, i + 1, acc);
                }
            },
            _ => {
                lemma_dec_top_wf(es, i + 1, acc);
            },
        }
    }
}

/// Every top-level record of a list of fit nodes is itself fit.
pub proof fn lemma_top_records_wf(ns: Seq<crate::tree::NodeV>, k: int)
    requires
        forall|x: int| 0 <= x < ns.len() ==> wf_node(#[trigger] ns[x]),
        0 <= k < crate::tree::top_records(ns).len(),
    ensures
        ({
            let r = crate::tree::top_records(ns)[k];
            r.id is Some && !r.removed && !r.modified && wf_fields(r.fields) && keys_unique(
                r.fields,
            )
        }),
    decreases ns.len(),
{
    if ns.len() > 0 {
        let rest = ns.drop_first();
        assert(forall|x: int| 0 <= x < rest.len() ==> wf_node(#[trigger] rest[x]));
        match ns[0] {
            crate::tree::NodeV::Element(r) => {
                if k > 0 {
                    lemma_top_records_wf(rest, k - 1);
                }
            },
            crate::tree::NodeV::Directory(_, _, _) => {
                lemma_top_records_wf(rest, k);
            },
        }
    }
}

/// Round trip of a document's records: decode a document, serialize any of
/// its top-level records with the wrapper, and decode that text back — the
/// same identity and the same field data come out.
pub proof fn lemma_decode_serialize_roundtrip(s: Seq<u8>, k: int)
    requires
        crate::tree::decode_doc(s) is Some,
        0 <= k < crate::tree::top_records(crate::tree::decode_doc(s)->Some_0).len(),
    ensures
        ({
            let r = crate::tree::top_records(crate::tree::decode_doc(s)->Some_0)[k];
            crate::tree::decode_doc(render(ser_record_events(r, true))) == Some(
                seq![crate::tree::NodeV::Element(r)],
            )
        }),
{
    let evs = parse_doc(s)->Some_0;
    crate::doc::lemma_parse_wf(s, 0);
    lemma_dec_top_wf(evs, 0, Seq::empty());
    let ns = crate::tree::decode_doc(s)->Some_0;
    lemma_top_records_wf(ns, k);
    let r = crate::tree::top_records(ns)[k];
    lemma_record_roundtrip(r);
    assert((RecordV { id: r.id, fields: r.fields, removed: false, modified: false }) == r);
}

/// No record opens inside another record's span, scanning from `i` with
/// `fl` the open-tag depth inside the current record span (nothing when
/// outside).
pub open spec fn flat_from(es: Seq<EventV>, i: int, fl: Option<int>) -> bool
    decreases es.len() - i,
    when 0 <= i
{
    if i >= es.len() {
        true
    } else {
        match es[i] {
            EventV::Start(n, _) => match fl {
                None => if n == tag_entry() {
                    flat_from(es, i + 1, Some(0))
                } else {
                    flat_from(es, i + 1, None)
                },
                Some(d) => if n == tag_entry() {
                    false
                } else {
                    flat_from(es, i + 1, Some(d + 1))
                },
            },
            EventV::Empty(n, _) => match fl {
                None => flat_from(es, i + 1, None),
                Some(d) => if n == tag_entry() {
                    false
                } else {
                    flat_from(es, i + 1, fl)
                },
            },
            EventV::End(_) => match fl {
                None => flat_from(es, i + 1, None),
                Some(d) => if d == 0 {
                    flat_from(es, i + 1, None)
                } else {
                    flat_from(es, i + 1, Some(d - 1))
                },
            },
            EventV::Text(_) => flat_from(es, i + 1, fl),
        }
    }
}

/// A document whose records never nest inside one another.
pub open spec fn flat_doc(es: Seq<EventV>) -> bool {
    flat_from(es, 0, None)
}

/// The ids the record tags of one event carry.
pub open spec fn event_entry_ids(ev: EventV) -> Seq<u16> {
    match ev {
        EventV::Start(n, a) => if n == tag_entry() {
            match crate::attrs::id_of_attrs(a) {
                Some(id) => seq![id],
                None => Seq::empty(),
            }
        } else {
            Seq::empty()
        },
        EventV::Empty(n, a) => if n == tag_entry() {
            match crate::attrs::id_of_attrs(a) {
                Some(id) => seq![id],
                None => Seq::empty(),
            }
        } else {
            Seq::empty()
        },
        _ => Seq::empty(),
    }
}

/// The ids of every record tag in the events, in document order.
pub open spec fn entry_ids_of(es: Seq<EventV>) -> Seq<u16>
    decreases es.len(),
{
    if es.len() == 0 {
        Seq::empty()
    } else {
        event_entry_ids(es[0]) + entry_ids_of(es.drop_first())
    }
}

/// The ids that belong to the set.
pub open spec fn ids_in(ids: Seq<u16>, r: Set<u16>) -> Seq<u16>
    decreases ids.len(),
{
    if ids.len() == 0 {
        Seq::empty()
    } else if r.contains(ids[0]) {
        seq![ids[0]] + ids_in(ids.drop_first(), r)
    } else {
        ids_in(ids.drop_first(), r)
    }
}

/// The ids outside the set.
pub open spec fn ids_out(ids: Seq<u16>, r: Set<u16>) -> Seq<u16>
    decreases ids.len(),
{
    if ids.len() == 0 {
        Seq::empty()
    } else if r.contains(ids[0]) {
        ids_out(ids.drop_first(), r)
    } else {
        seq![ids[0]] + ids_out(ids.drop_first(), r)
    }
}

/// Prepending one event prepends its ids.
proof fn lemma_entry_ids_cons(ev: EventV, s: Seq<EventV>)
    ensures
        entry_ids_of(seq![ev] + s) == event_entry_ids(ev) + entry_ids_of(s),
{
    assert((seq![ev] + s).drop_first() =~= s);
    assert((seq![ev] + s)[0] == ev);
}

/// Splitting a filtered id list over a prepended chunk.
proof fn lemma_ids_filters_cons(head: Seq<u16>, tail: Seq<u16>, r: Set<u16>)
    ensures
        ids_in(head + tail, r) == ids_in(head, r) + ids_in(tail, r),
        ids_out(head + tail, r) == ids_out(head, r) + ids_out(tail, r),
    decreases head.len(),
{
    if head.len() == 0 {
        assert(head + tail =~= tail);
        assert(ids_in(head, r) + ids_in(tail, r) =~= ids_in(tail, r));
        assert(ids_out(head, r) + ids_out(tail, r) =~= ids_out(tail, r));
    } else {
        assert((head + tail).drop_first() =~= head.drop_first() + tail);
        lemma_ids_filters_cons(head.drop_first(), tail, r);
        if r.contains(head[0]) {
            assert(seq![head[0]] + (ids_in(head.drop_first(), r) + ids_in(tail, r)) =~= ids_in(
                head,
                r,
            ) + ids_in(tail, r));
        } else {
            assert(seq![head[0]] + (ids_out(head.drop_first(), r) + ids_out(tail, r)) =~= ids_out(
                head,
                r,
            ) + ids_out(tail, r));
        }
    }
}

/// Deletion correctness over a flat document: the pass prunes exactly the
/// record tags whose ids are in the removed set, in document order, and the
/// record tags that survive are exactly those whose ids are not.
pub proof fn lemma_delete_counts(es: Seq<EventV>, i: int, st: DelStV, fl: Option<int>, r: Set<u16>)
    requires
        0 <= i <= es.len(),
        flat_from(es, i, fl),
        match fl {
            None => st == DelStV::Copy,
            Some(d) => d >= 0 && (st == DelStV::Copy || st == DelStV::Skip(d)),
        },
    ensures
        delete_run(es, i, st, r).1 == ids_in(entry_ids_of(es.skip(i)), r),
        entry_ids_of(delete_run(es, i, st, r).0) == ids_out(entry_ids_of(es.skip(i)), r),
    decreases es.len() - i,
{
    if i >= es.len() {
        assert(es.skip(i) =~= Seq::<EventV>::empty());
    } else {
        let ev = es[i];
        assert(es.skip(i) =~= seq![ev] + es.skip(i + 1));
        lemma_entry_ids_cons(ev, es.skip(i + 1));
        lemma_ids_filters_cons(event_entry_ids(ev), entry_ids_of(es.skip(i + 1)), r);
        let hd = event_entry_ids(ev);
        let tl = entry_ids_of(es.skip(i + 1));
        assert(ids_in(Seq::<u16>::empty(), r) == Seq::<u16>::empty());
        assert(ids_out(Seq::<u16>::empty(), r) == Seq::<u16>::empty());
        if hd.len() == 1 {
            assert(hd =~= seq![hd[0]]);
            assert(hd.drop_first() =~= Seq::<u16>::empty());
            assert(ids_in(hd.drop_first(), r) == Seq::<u16>::empty());
            assert(ids_out(hd.drop_first(), r) == Seq::<u16>::empty());
            if r.contains(hd[0]) {
                assert(ids_in(hd, r) =~= seq![hd[0]]);
                assert(ids_out(hd, r) =~= Seq::<u16>::empty());
            } else {
                assert(ids_in(hd, r) =~= Seq::<u16>::empty());
                assert(ids_out(hd, r) =~= seq![hd[0]]);
            }
        } else {
            assert(hd =~= Seq::<u16>::empty());
            assert(ids_in(hd, r) =~= Seq::<u16>::empty());
            assert(ids_out(hd, r) =~= Seq::<u16>::empty());
        }
        assert(Seq::<u16>::empty() + ids_in(tl, r) =~= ids_in(tl, r));
        assert(Seq::<u16>::empty() + ids_out(tl, r) =~= ids_out(tl, r));
        match ev {
            EventV::Start(n, _) => {
                if n == tag_entry() {
                    match fl {
                        None => {
                            if removable_start(ev, r) {
                                lemma_delete_counts(es, i + 1, DelStV::Skip(0), Some(0), r);
                            } else {
                                lemma_delete_counts(es, i + 1, DelStV::Copy, Some(0), r);
                                lemma_entry_ids_cons(
                                    ev,
                                    delete_run(es, i + 1, DelStV::Copy, r).0,
                                );
                            }
                        },
                        Some(_) => {
                            assert(false);
                        },
                    }
                } else {
                    match fl {
                        None => {
                            lemma_delete_counts(es, i + 1, DelStV::Copy, None, r);
                            lemma_entry_ids_cons(ev, delete_run(es, i + 1, DelStV::Copy, r).0);
                        },
                        Some(d) => {
                            if st == DelStV::Copy {
                                lemma_delete_counts(es, i + 1, DelStV::Copy, Some(d + 1), r);
                                lemma_entry_ids_cons(
                                    ev,
                                    delete_run(es, i + 1, DelStV::Copy, r).0,
                                );
                            } else {
                                lemma_delete_counts(
                                    es,
                                    i + 1,
                                    DelStV::Skip(d + 1),
                                    Some(d + 1),
                                    r,
                                );
                            }
                        },
                    }
                }
            },
            EventV::Empty(n, _) => {
                match fl {
                    None => {
                        if removable_empty(ev, r) {
                            lemma_delete_counts(es, i + 1, DelStV::Copy, None, r);
                        } else {
                            lemma_delete_counts(es, i + 1, DelStV::Copy, None, r);
                            lemma_entry_ids_cons(ev, delete_run(es, i + 1, DelStV::Copy, r).0);
                        }
                    },
                    Some(d) => {
                        if st == DelStV::Copy {
                            lemma_delete_counts(es, i + 1, DelStV::Copy, Some(d), r);
                            lemma_entry_ids_cons(ev, delete_run(es, i + 1, DelStV::Copy, r).0);
                        } else {
                            lemma_delete_counts(es, i + 1, DelStV::Skip(d), Some(d), r);
                        }
                    },
                }
            },
            EventV::End(_) => {
                match fl {
                    None => {
                        lemma_delete_counts(es, i + 1, DelStV::Copy, None, r);
                        lemma_entry_ids_cons(ev, delete_run(es, i + 1, DelStV::Copy, r).0);
                    },
                    Some(d) => {
                        if st == DelStV::Copy {
                            if d == 0 {
                                lemma_delete_counts(es, i + 1, DelStV::Copy, None, r);
                            } else {
                                lemma_delete_counts(es, i + 1, DelStV::Copy, Some(d - 1), r);
                            }
                            lemma_entry_ids_cons(ev, delete_run(es, i + 1, DelStV::Copy, r).0);
                        } else {
                            if d == 0 {
                                lemma_delete_counts(es, i + 1, DelStV::Copy, None, r);
                            } else {
                                lemma_delete_counts(es, i + 1, DelStV::Skip(d - 1), Some(d - 1), r);
                            }
                        }
                    },
                }
            },
            EventV::Text(_) => {
                match fl {
                    None => {
                        lemma_delete_counts(es, i + 1, DelStV::Copy, None, r);
                        lemma_entry_ids_cons(ev, delete_run(es, i + 1, DelStV::Copy, r).0);
                    },
                    Some(d) => {
                        if st == DelStV::Copy {
                            lemma_delete_counts(es, i + 1, DelStV::Copy, Some(d), r);
                            lemma_entry_ids_cons(ev, delete_run(es, i + 1, DelStV::Copy, r).0);
                        } else {
                            lemma_delete_counts(es, i + 1, DelStV::Skip(d), Some(d), r);
                        }
                    },
                }
            },
        }
    }
}

/// Deletion correctness, stated of a whole flat document: what the pass
/// prunes is exactly the document's record ids that are in the removed set,
/// and what survives is exactly those that are not.
pub proof fn lemma_delete_correct(es: Seq<EventV>, r: Set<u16>)
    requires
        flat_doc(es),
    ensures
        delete_spec(es, r).1 == ids_in(entry_ids_of(es), r),
        entry_ids_of(delete_spec(es, r).0) == ids_out(entry_ids_of(es), r),
{
    lemma_delete_counts(es, 0, DelStV::Copy, None, r);
    assert(es.skip(0) =~= es);
}

/// The id one record start tag carries; self-closing records stand whole
/// and are not edited.
pub open spec fn event_start_ids(ev: EventV) -> Seq<u16> {
    match ev {
        EventV::Start(n, a) => if n == tag_entry() {
            match crate::attrs::id_of_attrs(a) {
                Some(id) => seq![id],
                None => Seq::empty(),
            }
        } else {
            Seq::empty()
        },
        _ => Seq::empty(),
    }
}

/// The ids of every record start tag in the events, in document order.
pub open spec fn entry_start_ids_of(es: Seq<EventV>) -> Seq<u16>
    decreases es.len(),
{
    if es.len() == 0 {
        Seq::empty()
    } else {
        event_start_ids(es[0]) + entry_start_ids_of(es.drop_first())
    }
}

/// Prepending one event prepends its start-tag ids.
proof fn lemma_entry_start_ids_cons(ev: EventV, s: Seq<EventV>)
    ensures
        entry_start_ids_of(seq![ev] + s) == event_start_ids(ev) + entry_start_ids_of(s),
{
    assert((seq![ev] + s).drop_first() =~= s);
    assert((seq![ev] + s)[0] == ev);
}

/// The ids whose record the working set holds as modified.
pub open spec fn ids_modified(ids: Seq<u16>, ws: Seq<RecordV>) -> Seq<u16>
    decreases ids.len(),
{
    if ids.len() == 0 {
        Seq::empty()
    } else {
        let keep = match crate::passes::find_rec(ws, ids[0]) {
            Some(rec) => rec.modified,
            None => false,
        };
        if keep {
            seq![ids[0]] + ids_modified(ids.drop_first(), ws)
        } else {
            ids_modified(ids.drop_first(), ws)
        }
    }
}

/// Splitting the modified-id filter over a prepended chunk.
proof fn lemma_ids_modified_cons(head: Seq<u16>, tail: Seq<u16>, ws: Seq<RecordV>)
    ensures
        ids_modified(head + tail, ws) == ids_modified(head, ws) + ids_modified(tail, ws),
    decreases head.len(),
{
    if head.len() == 0 {
        assert(head + tail =~= tail);
        assert(ids_modified(head, ws) + ids_modified(tail, ws) =~= ids_modified(tail, ws));
    } else {
        assert((head + tail).drop_first() =~= head.drop_first() + tail);
        lemma_ids_modified_cons(head.drop_first(), tail, ws);
        let keep = match crate::passes::find_rec(ws, head[0]) {
            Some(rec) => rec.modified,
            None => false,
        };
        if keep {
            assert(seq![head[0]] + (ids_modified(head.drop_first(), ws) + ids_modified(tail, ws))
                =~= ids_modified(head, ws) + ids_modified(tail, ws));
        }
    }
}

/// Edit-capture correctness over a flat document: what the edit pass
/// captures is exactly the document's record ids whose working-set record
/// carries an unflushed edit, in document order.
pub proof fn lemma_edit_captures(
    es: Seq<EventV>,
    i: int,
    st: EdStV,
    fl: Option<int>,
    fz: Seq<(NameV, ValueV)>,
    ws: Seq<RecordV>,
)
    requires
        0 <= i <= es.len(),
        flat_from(es, i, fl),
        match fl {
            None => st == EdStV::Copy,
            Some(d) => d >= 0 && (st == EdStV::Copy || st == EdStV::In(fz, d) || (d >= 1 && st
                == EdStV::SkipSub(fz, d - 1))),
        },
    ensures
        edit_run(es, i, st, ws).1 == ids_modified(entry_start_ids_of(es.skip(i)), ws),
    decreases es.len() - i,
{
    if i >= es.len() {
        assert(es.skip(i) =~= Seq::<EventV>::empty());
    } else {
        let ev = es[i];
        assert(es.skip(i) =~= seq![ev] + es.skip(i + 1));
        lemma_entry_start_ids_cons(ev, es.skip(i + 1));
        let hd = event_start_ids(ev);
        let tl = entry_start_ids_of(es.skip(i + 1));
        lemma_ids_modified_cons(hd, tl, ws);
        assert(ids_modified(Seq::<u16>::empty(), ws) == Seq::<u16>::empty());
        if hd.len() == 1 {
            assert(hd =~= seq![hd[0]]);
            assert(hd.drop_first() =~= Seq::<u16>::empty());
            assert(ids_modified(hd.drop_first(), ws) == Seq::<u16>::empty());
            let keep = match crate::passes::find_rec(ws, hd[0]) {
                Some(rec) => rec.modified,
                None => false,
            };
            if keep {
                assert(ids_modified(hd, ws) =~= seq![hd[0]]);
            } else {
                assert(ids_modified(hd, ws) =~= Seq::<u16>::empty());
            }
        } else {
            assert(hd =~= Seq::<u16>::empty());
            assert(ids_modified(hd, ws) =~= Seq::<u16>::empty());
        }
        assert(Seq::<u16>::empty() + ids_modified(tl, ws) =~= ids_modified(tl, ws));
        match st {
            EdStV::Copy => {
                match fl {
                    None => {
                        match ev {
                            EventV::Start(n, a) => {
                                if n == tag_entry() {
                                    if crate::passes::editable(ev, ws) {
                                        let id = event_id(ev)->Some_0;
                                        let f = crate::passes::find_rec(ws, id)->Some_0.fields;
                                        lemma_edit_captures(es, i + 1, EdStV::In(f, 0), Some(0), f, ws);
                                    } else {
                                        lemma_edit_captures(es, i + 1, EdStV::Copy, Some(0), fz, ws);
                                    }
                                } else {
                                    lemma_edit_captures(es, i + 1, EdStV::Copy, None, fz, ws);
                                }
                            },
                            _ => {
                                lemma_edit_captures(es, i + 1, EdStV::Copy, fl, fz, ws);
                            },
                        }
                    },
                    Some(d) => {
                        match ev {
                            EventV::Start(_, _) => {
                                lemma_edit_captures(es, i + 1, EdStV::Copy, Some(d + 1), fz, ws);
                            },
                            EventV::End(_) => {
                                if d == 0 {
                                    lemma_edit_captures(es, i + 1, EdStV::Copy, None, fz, ws);
                                } else {
                                    lemma_edit_captures(es, i + 1, EdStV::Copy, Some(d - 1), fz, ws);
                                }
                            },
                            _ => {
                                lemma_edit_captures(es, i + 1, EdStV::Copy, fl, fz, ws);
                            },
                        }
                    },
                }
            },
            EdStV::In(f, d) => {
                let dd = fl->Some_0;
                match ev {
                    EventV::Start(n, _) => {
                        if d == 0 && crate::values::has_key(f, crate::names::name_of(n)) {
                            lemma_edit_captures(es, i + 1, EdStV::SkipSub(f, 0), Some(dd + 1), f, ws);
                        } else {
                            lemma_edit_captures(es, i + 1, EdStV::In(f, d + 1), Some(dd + 1), f, ws);
                        }
                    },
                    EventV::Empty(n, _) => {
                        if d == 0 && crate::values::has_key(f, crate::names::name_of(n)) {
                            lemma_edit_captures(es, i + 1, EdStV::In(f, 0), fl, f, ws);
                        } else {
                            lemma_edit_captures(es, i + 1, EdStV::In(f, d), fl, f, ws);
                        }
                    },
                    EventV::End(_) => {
                        if d == 0 {
                            lemma_edit_captures(es, i + 1, EdStV::Copy, None, fz, ws);
                        } else {
                            lemma_edit_captures(es, i + 1, EdStV::In(f, d - 1), Some(dd - 1), f, ws);
                        }
                    },
                    EventV::Text(_) => {
                        lemma_edit_captures(es, i + 1, EdStV::In(f, d), fl, f, ws);
                    },
                }
            },
            EdStV::SkipSub(f, sd) => {
                let dd = fl->Some_0;
                match ev {
                    EventV::Start(_, _) => {
                        lemma_edit_captures(es, i + 1, EdStV::SkipSub(f, sd + 1), Some(dd + 1), f, ws);
                    },
                    EventV::End(_) => {
                        if sd == 0 {
                            lemma_edit_captures(es, i + 1, EdStV::In(f, 0), Some(dd - 1), f, ws);
                        } else {
                            lemma_edit_captures(es, i + 1, EdStV::SkipSub(f, sd - 1), Some(dd - 1), f, ws);
                        }
                    },
                    _ => {
                        lemma_edit_captures(es, i + 1, EdStV::SkipSub(f, sd), fl, f, ws);
                    },
                }
            },
        }
    }
}

/// Edit-capture correctness, stated of a whole flat document.
pub proof fn lemma_edit_correct(es: Seq<EventV>, ws: Seq<RecordV>)
    requires
        flat_doc(es),
    ensures
        edit_spec(es, ws).1 == ids_modified(entry_start_ids_of(es), ws),
{
    lemma_edit_captures(es, 0, EdStV::Copy, None, Seq::empty(), ws);
    assert(es.skip(0) =~= es);
}

/// The events a record list serializes as: every record with the wrapper,
/// in order.
pub open spec fn ser_records_events(rs: Seq<RecordV>) -> Seq<EventV>
    decreases rs.len(),
{
    if rs.len() == 0 {
        Seq::empty()
    } else {
        ser_record_events(rs[0], true) + ser_records_events(rs.drop_first())
    }
}

/// Every record in the list is fit for serialization with the wrapper.
pub open spec fn wf_records(rs: Seq<RecordV>) -> bool {
    forall|k: int|
        0 <= k < rs.len() ==> wf_fields((#[trigger] rs[k]).fields) && keys_unique(rs[k].fields)
            && rs[k].id is Some
}

/// What a fit record list serializes as is well formed, and where it is not
/// empty it opens with a start tag and closes with an end tag.
proof fn lemma_ser_records_wf(rs: Seq<RecordV>)
    requires
        wf_records(rs),
    ensures
        wf_events(ser_records_events(rs)),
        ser_records_events(rs).len() > 0 <==> rs.len() > 0,
        rs.len() > 0 ==> ser_records_events(rs)[0] is Start && ser_records_events(
            rs,
        ).last() is End,
    decreases rs.len(),
{
    if rs.len() > 0 {
        let hd = ser_record_events(rs[0], true);
        let tl = rs.drop_first();
        assert(wf_records(tl)) by {
            assert(forall|k: int| 0 <= k < tl.len() ==> #[trigger] tl[k] == rs[k + 1]);
        }
        lemma_ser_record_wf(rs[0]);
        lemma_ser_records_wf(tl);
        let out = hd + ser_records_events(tl);
        let hl = hd.len() as int;
        assert forall|x: int| 0 <= x < out.len() implies wf_event(#[trigger] out[x]) by {
            if x < hl {
                assert(out[x] == hd[x]);
            } else {
                assert(out[x] == ser_records_events(tl)[x - hl]);
            }
        }
        assert forall|x: int| 0 < x < out.len() implies !((#[trigger] out[x]) is Text && out[x - 1]
            is Text) by {
            if x < hl {
                assert(out[x] == hd[x] && out[x - 1] == hd[x - 1]);
            } else if x == hl {
                assert(out[x - 1] == hd.last());
            } else {
                assert(out[x] == ser_records_events(tl)[x - hl] && out[x - 1]
                    == ser_records_events(tl)[x - hl - 1]);
                if x == hl + 1 && tl.len() > 0 {
                    assert(!(ser_records_events(tl)[0] is Text));
                }
            }
        }
        assert(out[0] == hd[0]);
        assert(out.last() is End) by {
            if tl.len() == 0 {
                assert(ser_records_events(tl).len() == 0);
                assert(out.last() == hd.last());
            } else {
                assert(out.last() == ser_records_events(tl).last());
            }
        }
    }
}

/// The record a serialized record decodes back to: the same identity and
/// fields, clean of local flags.
pub open spec fn clean(r: RecordV) -> RecordV {
    RecordV { id: r.id, fields: r.fields, removed: false, modified: false }
}

/// The tree nodes a record list decodes back to.
pub open spec fn elements_of(rs: Seq<RecordV>) -> Seq<crate::tree::NodeV> {
    Seq::new(rs.len(), |k: int| crate::tree::NodeV::Element(clean(rs[k])))
}

/// Reading back what a fit record list serializes as carries the top-level
/// reader across it, appending one record node per record, in order.
proof fn lemma_dec_top_ser_records(
    es: Seq<EventV>,
    i: int,
    rs: Seq<RecordV>,
    acc: Seq<crate::tree::NodeV>,
)
    requires
        0 <= i,
        wf_records(rs),
        i + ser_records_events(rs).len() <= es.len(),
        forall|x: int|
            0 <= x < ser_records_events(rs).len() ==> es[i + x] == #[trigger] ser_records_events(
                rs,
            )[x],
    ensures
        crate::tree::dec_top(es, i, acc) == crate::tree::dec_top(
            es,
            i + ser_records_events(rs).len(),
            acc + elements_of(rs),
        ),
    decreases rs.len(),
{
    if rs.len() == 0 {
        assert(acc + elements_of(rs) =~= acc);
    } else {
        let r = rs[0];
        let id = r.id->Some_0;
        let tl = rs.drop_first();
        lemma_ser_record_wf(r);
        let hd = ser_record_events(r, true);
        let fe = ser_fields_events(r.fields);
        let fl = fe.len() as int;
        let hl = hd.len() as int;
        assert(ser_records_events(rs) == hd + ser_records_events(tl));
        assert(es[i] == EventV::Start(tag_entry(), crate::attrs::ser_attrs(id))) by {
            assert(ser_records_events(rs)[0] == hd[0]);
        }
        assert(hd == seq![EventV::Start(tag_entry(), crate::attrs::ser_attrs(id))] + fe + seq![
            EventV::End(tag_entry()),
        ]);
        assert forall|x: int| 0 <= x < fl implies es[i + 1 + x] == #[trigger] fe[x] by {
            assert(ser_records_events(rs)[1 + x] == hd[1 + x]);
            assert(hd[1 + x] == fe[x]);
        }
        assert(es[i + 1 + fl] == EventV::End(tag_entry())) by {
            assert(ser_records_events(rs)[1 + fl] == hd[1 + fl]);
        }
        lemma_dec_ser_fields(es, i + 1, tag_entry(), r.fields, Seq::empty(), Seq::empty());
        assert(crate::tree::dec_node(es, i + 1 + fl, tag_entry(), Seq::empty() + r.fields,
            Seq::empty()) == Some((Seq::empty() + r.fields, Seq::<u8>::empty(), i + hl)));
        assert(Seq::empty() + r.fields =~= r.fields);
        crate::attrs::lemma_id_roundtrip(id);
        let acc2 = acc.push(crate::tree::NodeV::Element(clean(r)));
        assert(crate::tree::dec_top(es, i, acc) == crate::tree::dec_top(es, i + hl, acc2));
        assert(wf_records(tl)) by {
            assert(forall|k: int| 0 <= k < tl.len() ==> #[trigger] tl[k] == rs[k + 1]);
        }
        assert forall|x: int|
            0 <= x < ser_records_events(tl).len() implies es[i + hl + x]
            == #[trigger] ser_records_events(tl)[x] by {
            assert(ser_records_events(rs)[hl + x] == ser_records_events(tl)[x]);
            assert(es[i + (hl + x)] == ser_records_events(rs)[hl + x]);
        }
        lemma_dec_top_ser_records(es, i + hl, tl, acc2);
        assert(acc2 + elements_of(tl) =~= acc + elements_of(rs)) by {
            assert(forall|k: int| 0 <= k < tl.len() ==> #[trigger] tl[k] == rs[k + 1]);
        }
    }
}

/// The top-level records of a list of record nodes are the records.
proof fn lemma_top_records_elements(rs: Seq<RecordV>)
    ensures
        crate::tree::top_records(elements_of(rs)) == Seq::new(rs.len(), |k: int| clean(rs[k])),
    decreases rs.len(),
{
    if rs.len() > 0 {
        let tl = rs.drop_first();
        lemma_top_records_elements(tl);
        assert(elements_of(rs).drop_first() =~= elements_of(tl)) by {
            assert(forall|k: int| 0 <= k < tl.len() ==> #[trigger] tl[k] == rs[k + 1]);
        }
        assert(crate::tree::top_records(elements_of(rs)) =~= Seq::new(
            rs.len(),
            |k: int| clean(rs[k]),
        ));
    } else {
        assert(elements_of(rs) =~= Seq::<crate::tree::NodeV>::empty());
        assert(crate::tree::top_records(elements_of(rs)) =~= Seq::new(
            rs.len(),
            |k: int| clean(rs[k]),
        ));
    }
}

/// Round trip of a whole document: decode it, serialize every top-level
/// record with the wrapper into one fresh registry document, and decode
/// that text back — the same records come out, in the same order.
#[verifier::rlimit(60)]
pub proof fn lemma_document_roundtrip(s: Seq<u8>)
    requires
        crate::tree::decode_doc(s) is Some,
    ensures
        ({
            let rs = crate::tree::top_records(crate::tree::decode_doc(s)->Some_0);
            let doc2 = render(
                seq![EventV::Start(tag_registry(), Seq::empty())] + ser_records_events(rs) + seq![
                    EventV::End(tag_registry()),
                ],
            );
            &&& crate::tree::decode_doc(doc2) is Some
            &&& crate::tree::top_records(crate::tree::decode_doc(doc2)->Some_0) == rs
        }),
{
    let evs0 = parse_doc(s)->Some_0;
    crate::doc::lemma_parse_wf(s, 0);
    lemma_dec_top_wf(evs0, 0, Seq::empty());
    let ns = crate::tree::decode_doc(s)->Some_0;
    let rs = crate::tree::top_records(ns);
    assert forall|k: int|
        0 <= k < rs.len() implies wf_fields((#[trigger] rs[k]).fields) && keys_unique(rs[k].fields)
        && rs[k].id is Some && !rs[k].removed && !rs[k].modified by {
        lemma_top_records_wf(ns, k);
    }
    let st = EventV::Start(tag_registry(), Seq::<u8>::empty());
    let en = EventV::End(tag_registry());
    let body = ser_records_events(rs);
    let bl = body.len() as int;
    let evs = seq![st] + body + seq![en];
    lemma_ser_records_wf(rs);
    assert(forall|x: int|
        0 <= x < tag_registry().len() ==> is_name_byte(#[trigger] tag_registry()[x]));
    assert(wf_event(st));
    assert(wf_event(en));
    assert(wf_events(evs)) by {
        assert forall|x: int| 0 <= x < evs.len() implies wf_event(#[trigger] evs[x]) by {
            if x == 0 {
                assert(evs[x] == st);
            } else if x < 1 + bl {
                assert(evs[x] == body[x - 1]);
            } else {
                assert(evs[x] == en);
            }
        }
        assert forall|x: int| 0 < x < evs.len() implies !((#[trigger] evs[x]) is Text && evs[x - 1]
            is Text) by {
            if 1 < x < 1 + bl {
                assert(evs[x] == body[x - 1] && evs[x - 1] == body[x - 2]);
            } else if x == 1 + bl {
                assert(evs[x] == en);
            } else {
                assert(!(evs[0] is Text));
            }
        }
    }
    crate::doc::lemma_parse_render(evs);
    assert(parse_doc(render(evs)) == Some(evs));
    assert(evs[0] == st);
    assert(tag_registry() != tag_entry() && tag_registry() != crate::names::tag_directory()) by {
        assert(tag_registry().len() != tag_entry().len());
        assert(tag_registry()[0] != crate::names::tag_directory()[0]);
    }
    assert(crate::tree::dec_top(evs, 0, Seq::empty()) == crate::tree::dec_top(
        evs,
        1,
        Seq::empty(),
    ));
    assert forall|x: int| 0 <= x < bl implies evs[1 + x] == #[trigger] body[x] by {
        assert(evs[1 + x] == (seq![st] + body + seq![en])[1 + x]);
    }
    lemma_dec_top_ser_records(evs, 1, rs, Seq::empty());
    assert(evs[1 + bl] == en);
    assert(crate::tree::dec_top(evs, 1 + bl, Seq::empty() + elements_of(rs)) == Some(
        Seq::empty() + elements_of(rs),
    ));
    assert(Seq::empty() + elements_of(rs) =~= elements_of(rs));
    lemma_top_records_elements(rs);
    assert(crate::tree::top_records(elements_of(rs)) =~= rs) by {
        assert(forall|k: int| 0 <= k < rs.len() ==> clean(#[trigger] rs[k]) == rs[k]);
    }
}

/// The position just past the end tag that closes the span open at `i` with
/// `d` tags open inside it; the length where the text runs out first.
pub open spec fn span_end(es: Seq<EventV>, i: int, d: int) -> int
    decreases es.len() - i,
    when 0 <= i
{
    if i >= es.len() {
        i
    } else {
        match es[i] {
            EventV::Start(_, _) => span_end(es, i + 1, d + 1),
            EventV::End(_) => if d == 0 {
                i + 1
            } else {
                span_end(es, i + 1, d - 1)
            },
            _ => span_end(es, i + 1, d),
        }
    }
}

/// Up to the first start tag of a modified record, the edit machine copies
/// events through one for one.
proof fn lemma_edit_copy_until(es: Seq<EventV>, i: int, p: int, ws: Seq<RecordV>)
    requires
        0 <= i <= p <= es.len(),
        forall|j: int| i <= j < p ==> !crate::passes::editable(#[trigger] es[j], ws),
    ensures
        edit_run(es, i, EdStV::Copy, ws).0 == es.subrange(i, p) + edit_run(es, p, EdStV::Copy, ws).0,
        edit_run(es, i, EdStV::Copy, ws).1 == edit_run(es, p, EdStV::Copy, ws).1,
    decreases p - i,
{
    if i < p {
        lemma_edit_copy_until(es, i + 1, p, ws);
        assert(seq![es[i]] + (es.subrange(i + 1, p) + edit_run(es, p, EdStV::Copy, ws).0)
            =~= es.subrange(i, p) + edit_run(es, p, EdStV::Copy, ws).0);
    } else {
        assert(es.subrange(i, p) + edit_run(es, p, EdStV::Copy, ws).0 =~= edit_run(
            es,
            i,
            EdStV::Copy,
            ws,
        ).0);
    }
}

/// Inside a modified record's span, whatever the machine rewrites, it comes
/// back to copying exactly at the span's end: the output from here on ends
/// with the output from the span's end on, and the captured ids from here
/// on are those from the span's end on.
proof fn lemma_edit_span_tail(
    es: Seq<EventV>,
    i: int,
    st: EdStV,
    dsp: int,
    fz: Seq<(NameV, ValueV)>,
    ws: Seq<RecordV>,
)
    requires
        0 <= i <= es.len(),
        match st {
            EdStV::Copy => false,
            EdStV::In(f, d) => f == fz && dsp == d && d >= 0,
            EdStV::SkipSub(f, sd) => f == fz && dsp == sd + 1 && sd >= 0,
        },
    ensures
        ({
            let q = span_end(es, i, dsp);
            let out = edit_run(es, i, st, ws).0;
            let tail = edit_run(es, q, EdStV::Copy, ws).0;
            &&& i <= q <= es.len()
            &&& out.len() >= tail.len()
            &&& out.skip(out.len() - tail.len()) == tail
            &&& edit_run(es, i, st, ws).1 == edit_run(es, q, EdStV::Copy, ws).1
        }),
    decreases es.len() - i,
{
    let q = span_end(es, i, dsp);
    let out = edit_run(es, i, st, ws).0;
    let tail = edit_run(es, q, EdStV::Copy, ws).0;
    if i >= es.len() {
        assert(out.skip(0) =~= tail);
    } else {
        match st {
            EdStV::Copy => {},
            EdStV::In(f, d) => {
                match es[i] {
                    EventV::Start(n, _) => {
                        if d == 0 && crate::values::has_key(f, crate::names::name_of(n)) {
                            lemma_edit_span_tail(es, i + 1, EdStV::SkipSub(f, 0), dsp + 1, f, ws);
                        } else {
                            lemma_edit_span_tail(es, i + 1, EdStV::In(f, d + 1), dsp + 1, f, ws);
                            lemma_skip_prepend(seq![es[i]], edit_run(es, i + 1, EdStV::In(f, d + 1), ws).0, tail);
                        }
                    },
                    EventV::Empty(n, _) => {
                        if d == 0 && crate::values::has_key(f, crate::names::name_of(n)) {
                            lemma_edit_span_tail(es, i + 1, EdStV::In(f, 0), dsp, f, ws);
                        } else {
                            lemma_edit_span_tail(es, i + 1, EdStV::In(f, d), dsp, f, ws);
                            lemma_skip_prepend(seq![es[i]], edit_run(es, i + 1, EdStV::In(f, d), ws).0, tail);
                        }
                    },
                    EventV::End(_) => {
                        if d == 0 {
                            assert(q == i + 1);
                            assert(out == seq![es[i]] + tail);
                            assert(out.skip(out.len() - tail.len()) =~= tail);
                        } else {
                            lemma_edit_span_tail(es, i + 1, EdStV::In(f, d - 1), dsp - 1, f, ws);
                            lemma_skip_prepend(seq![es[i]], edit_run(es, i + 1, EdStV::In(f, d - 1), ws).0, tail);
                        }
                    },
                    EventV::Text(_) => {
                        lemma_edit_span_tail(es, i + 1, EdStV::In(f, d), dsp, f, ws);
                        lemma_skip_prepend(seq![es[i]], edit_run(es, i + 1, EdStV::In(f, d), ws).0, tail);
                    },
                }
            },
            EdStV::SkipSub(f, sd) => {
                match es[i] {
                    EventV::Start(_, _) => {
                        lemma_edit_span_tail(es, i + 1, EdStV::SkipSub(f, sd + 1), dsp + 1, f, ws);
                    },
                    EventV::End(_) => {
                        if sd == 0 {
                            lemma_edit_span_tail(es, i + 1, EdStV::In(f, 0), dsp - 1, f, ws);
                        } else {
                            lemma_edit_span_tail(es, i + 1, EdStV::SkipSub(f, sd - 1), dsp - 1, f, ws);
                        }
                    },
                    _ => {
                        lemma_edit_span_tail(es, i + 1, EdStV::SkipSub(f, sd), dsp, f, ws);
                    },
                }
            },
        }
    }
}

/// A sequence that ends with `tail` still ends with it after something is
/// put in front.
proof fn lemma_skip_prepend(head: Seq<EventV>, mid: Seq<EventV>, tail: Seq<EventV>)
    requires
        mid.len() >= tail.len(),
        mid.skip(mid.len() - tail.len()) == tail,
    ensures
        (head + mid).skip((head + mid).len() - tail.len()) == tail,
{
    let out = head + mid;
    assert forall|x: int| 0 <= x < tail.len() implies out.skip(out.len() - tail.len())[x]
        == tail[x] by {
        assert(out[out.len() - tail.len() + x] == mid[mid.len() - tail.len() + x]);
        assert(mid.skip(mid.len() - tail.len())[x] == tail[x]);
    }
    assert(out.skip(out.len() - tail.len()) =~= tail);
}

/// Edit isolation: where exactly one event of the document opens a modified
/// record, everything before that record's start tag and everything after
/// its span comes out of the edit pass event for event — and so, rendered,
/// byte for byte.
pub proof fn lemma_edit_isolation(es: Seq<EventV>, ws: Seq<RecordV>, p: int)
    requires
        0 <= p < es.len(),
        crate::passes::editable(es[p], ws),
        forall|j: int|
            0 <= j < es.len() && j != p ==> !crate::passes::editable(#[trigger] es[j], ws),
    ensures
        ({
            let out = edit_spec(es, ws).0;
            let q = span_end(es, p + 1, 0);
            &&& p + 1 <= q <= es.len()
            &&& out.len() >= p + (es.len() - q)
            &&& out.take(p) == es.take(p)
            &&& out.skip(out.len() - (es.len() - q)) == es.skip(q)
            &&& render(out) == render(es.take(p)) + render(
                out.subrange(p, out.len() - (es.len() - q)),
            ) + render(es.skip(q))
        }),
{
    let out = edit_spec(es, ws).0;
    let id = event_id(es[p])->Some_0;
    let f = crate::passes::find_rec(ws, id)->Some_0.fields;
    lemma_edit_copy_until(es, 0, p, ws);
    let at_p = edit_run(es, p, EdStV::Copy, ws);
    assert(at_p.0 == seq![es[p]] + ser_fields_events(f) + edit_run(es, p + 1, EdStV::In(f, 0), ws).0);
    lemma_edit_span_tail(es, p + 1, EdStV::In(f, 0), 0, f, ws);
    let q = span_end(es, p + 1, 0);
    let mid = edit_run(es, p + 1, EdStV::In(f, 0), ws).0;
    let tail = edit_run(es, q, EdStV::Copy, ws).0;
    assert(forall|j: int| q <= j < es.len() ==> !crate::passes::editable(#[trigger] es[j], ws));
    lemma_edit_copy_until(es, q, es.len() as int, ws);
    assert(tail =~= es.skip(q)) by {
        assert(edit_run(es, es.len() as int, EdStV::Copy, ws).0 =~= Seq::<EventV>::empty());
        assert(es.subrange(q, es.len() as int) =~= es.skip(q));
    }
    assert(out == es.subrange(0, p) + at_p.0);
    assert(out.take(p) =~= es.take(p)) by {
        assert(forall|x: int| 0 <= x < p ==> out[x] == es.subrange(0, p)[x]);
    }
    lemma_skip_prepend(seq![es[p]] + ser_fields_events(f), mid, tail);
    lemma_skip_prepend(es.subrange(0, p), seq![es[p]] + ser_fields_events(f) + mid, tail);
    assert(es.subrange(0, p) + (seq![es[p]] + ser_fields_events(f) + mid) =~= out);
    assert((seq![es[p]] + ser_fields_events(f)) + mid =~= seq![es[p]] + ser_fields_events(f) + mid);
    assert(out.skip(out.len() - (es.len() - q)) == es.skip(q));
    let cut = out.len() - (es.len() - q);
    assert(out =~= out.take(p) + out.subrange(p, cut) + out.skip(cut));
    crate::doc::lemma_render_concat(out.take(p) + out.subrange(p, cut), out.skip(cut));
    crate::doc::lemma_render_concat(out.take(p), out.subrange(p, cut));
    assert(render(out) == render(es.take(p)) + render(out.subrange(p, cut)) + render(es.skip(q)));
}

} // verus!
