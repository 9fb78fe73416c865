//! The document patcher: three streaming passes (delete, edit, insert) that
//! rewrite a document event by event, copying untouched events through
//! unchanged. Each pass is a single forward scan driven by a small state
//! machine; none ever materializes the document as a tree, so unrecognized
//! structure survives verbatim. A pass over a malformed document is a no-op:
//! the caller gets the original text and no change.

use vstd::prelude::*;
use crate::doc::{EventV, Event, events_view, parse_doc, render, tokenize, write_events};
use crate::attrs::id_of_attrs;
use crate::names::tag_entry;
use crate::records::{RecordV, EntryNode, ser_fields_events, ser_record_events, contains_u16};
use crate::values::{copy_bytes, has_key};

verus! {

/// The deletion machine: copying events through, or skipping the span of a
/// removed record (the count is how many tags are open inside that span).
pub enum DelStV {
    Copy,
    Skip(int),
}

/// A start event that opens a record marked for removal.
pub open spec fn removable_start(ev: EventV, removed: Set<u16>) -> bool {
    match ev {
        EventV::Start(n, a) => n == tag_entry() && (match id_of_attrs(a) {
            Some(id) => removed.contains(id),
            None => false,
        }),
        _ => false,
    }
}

/// A self-closing event that is a whole record marked for removal.
pub open spec fn removable_empty(ev: EventV, removed: Set<u16>) -> bool {
    match ev {
        EventV::Empty(n, a) => n == tag_entry() && (match id_of_attrs(a) {
            Some(id) => removed.contains(id),
            None => false,
        }),
        _ => false,
    }
}

/// The id carried by a start or self-closing event, if any.
pub open spec fn event_id(ev: EventV) -> Option<u16> {
    match ev {
        EventV::Start(n, a) => id_of_attrs(a),
        EventV::Empty(n, a) => id_of_attrs(a),
        _ => None,
    }
}

/// What the deletion pass makes of the events from `i` on, given the
/// machine state: the events it emits and the ids of the records it pruned.
pub open spec fn delete_run(es: Seq<EventV>, i: int, st: DelStV, removed: Set<u16>) -> (
    Seq<EventV>,
    Seq<u16>,
)
    decreases es.len() - i,
    when 0 <= i
{
    if i >= es.len() {
        (Seq::empty(), Seq::empty())
    } else {
        let ev = es[i];
        match st {
            DelStV::Copy => {
                if removable_start(ev, removed) {
                    let rest = delete_run(es, i + 1, DelStV::Skip(0), removed);
                    (rest.0, seq![event_id(ev)->Some_0] + rest.1)
                } else if removable_empty(ev, removed) {
                    let rest = delete_run(es, i + 1, DelStV::Copy, removed);
                    (rest.0, seq![event_id(ev)->Some_0] + rest.1)
                } else {
                    let rest = delete_run(es, i + 1, DelStV::Copy, removed);
                    (seq![ev] + rest.0, rest.1)
                }
            },
            DelStV::Skip(depth) => {
                match ev {
                    EventV::Start(_, _) => delete_run(es, i + 1, DelStV::Skip(depth + 1), removed),
                    EventV::End(_) => if depth == 0 {
                        delete_run(es, i + 1, DelStV::Copy, removed)
                    } else {
                        delete_run(es, i + 1, DelStV::Skip(depth - 1), removed)
                    },
                    _ => delete_run(es, i + 1, st, removed),
                }
            },
        }
    }
}

/// What the deletion pass makes of a whole event sequence.
pub open spec fn delete_spec(es: Seq<EventV>, removed: Set<u16>) -> (Seq<EventV>, Seq<u16>) {
    delete_run(es, 0, DelStV::Copy, removed)
}

/// Whether this start or self-closing event opens a record whose id is in
/// the removed list.
fn removable_exec(ev: &Event, removed: &Vec<u16>) -> (r: (bool, bool, u16))
    ensures
        r.0 == removable_start(ev@, removed@.to_set()),
        r.1 == removable_empty(ev@, removed@.to_set()),
        (r.0 || r.1) ==> event_id(ev@) == Some(r.2),
{
    match ev {
        Event::Start(n, a) => {
            if crate::bytes::bytes_eq(n, &crate::names::tag_entry_bytes()) {
                match crate::attrs::id_of_attrs_exec(a) {
                    Some(id) => (contains_u16(removed, id), false, id),
                    None => (false, false, 0),
                }
            } else {
                (false, false, 0)
            }
        },
        Event::Empty(n, a) => {
            if crate::bytes::bytes_eq(n, &crate::names::tag_entry_bytes()) {
                match crate::attrs::id_of_attrs_exec(a) {
                    Some(id) => (false, contains_u16(removed, id), id),
                    None => (false, false, 0),
                }
            } else {
                (false, false, 0)
            }
        },
        _ => (false, false, 0),
    }
}

/// Runs the deletion machine over events: emits everything but the spans of
/// records whose ids are in `removed`, and reports the pruned ids.
pub fn delete_events(es: &Vec<Event>, removed: &Vec<u16>) -> (r: (Vec<Event>, Vec<u16>))
    ensures
        events_view(r.0@) == delete_spec(events_view(es@), removed@.to_set()).0,
        r.1@ == delete_spec(events_view(es@), removed@.to_set()).1,
{
    let ghost evs = events_view(es@);
    let ghost rset = removed@.to_set();
    let mut out: Vec<Event> = Vec::new();
    let mut pruned: Vec<u16> = Vec::new();
    let mut skipping = false;
    let mut depth: usize = 0;
    let mut i: usize = 0;
    while i < es.len()
        invariant
            i <= es@.len(),
            depth <= i,
            evs == events_view(es@),
            rset == removed@.to_set(),
            ({
                let st = if skipping {
                    DelStV::Skip(depth as int)
                } else {
                    DelStV::Copy
                };
                let rest = delete_run(evs, i as int, st, rset);
                delete_spec(evs, rset) == (events_view(out@) + rest.0, pruned@ + rest.1)
            }),
        decreases es@.len() - i,
    {
        let ghost st = if skipping { DelStV::Skip(depth as int) } else { DelStV::Copy };
        let ghost out0 = events_view(out@);
        let ghost pruned0 = pruned@;
        let ev = &es[i];
        proof {
            assert(evs[i as int] == ev@);
        }
        if !skipping {
            let (rs, re, id) = removable_exec(ev, removed);
            if rs {
                pruned.push(id);
                skipping = true;
                depth = 0;
            } else if re {
                pruned.push(id);
            } else {
                out.push(ev.clone());
                proof {
                    assert(events_view(out@) =~= out0.push(evs[i as int]));
                }
            }
        } else {
            match ev {
                Event::Start(_, _) => {
                    depth = depth + 1;
                },
                Event::End(_) => {
                    if depth == 0 {
                        skipping = false;
                    } else {
                        depth = depth - 1;
                    }
                },
                _ => {},
            }
        }
        proof {
            let st2 = if skipping {
                DelStV::Skip(depth as int)
            } else {
                DelStV::Copy
            };
            let rest = delete_run(evs, i as int + 1, st2, rset);
            let run = delete_run(evs, i as int, st, rset);
            assert(out0 + run.0 =~= events_view(out@) + rest.0);
            assert(pruned0 + run.1 =~= pruned@ + rest.1);
        }
        i = i + 1;
    }
    proof {
        let st = if skipping {
            DelStV::Skip(depth as int)
        } else {
            DelStV::Copy
        };
        assert(delete_run(evs, i as int, st, rset).0 =~= Seq::<EventV>::empty());
        assert(delete_run(evs, i as int, st, rset).1 =~= Seq::<u16>::empty());
        assert(events_view(out@) + Seq::<EventV>::empty() =~= events_view(out@));
        assert(pruned@ + Seq::<u16>::empty() =~= pruned@);
    }
    (out, pruned)
}

/// The deletion pass over document text: removes the spans of records whose
/// ids are in `removed`, copying everything else through. On a document
/// that does not parse, a no-op: the original text, no change, nothing
/// pruned. Returns (changed, new text, pruned ids).
pub fn delete_pass(doc: &Vec<u8>, removed: &Vec<u16>) -> (r: (bool, Vec<u8>, Vec<u16>))
    ensures
        match parse_doc(doc@) {
            Some(evs) => {
                let d = delete_spec(evs, removed@.to_set());
                r.1@ == render(d.0) && r.2@ == d.1 && r.0 == (d.1.len() > 0)
            },
            None => r.1@ == doc@ && r.2@.len() == 0 && r.0 == false,
        },
{
    match tokenize(doc) {
        None => (false, copy_bytes(doc), Vec::new()),
        Some(es) => {
            let (out, pruned) = delete_events(&es, removed);
            let text = write_events(&out);
            let changed = pruned.len() > 0;
            (changed, text, pruned)
        },
    }
}

/// The view of a working set, pairwise.
pub open spec fn recs_view(ws: Seq<EntryNode>) -> Seq<RecordV> {
    Seq::new(ws.len(), |i: int| ws[i]@)
}

/// The first record carrying `id`, if any.
pub open spec fn find_rec(ws: Seq<RecordV>, id: u16) -> Option<RecordV>
    decreases ws.len(),
{
    if ws.len() == 0 {
        None
    } else if ws[0].id == Some(id) {
        Some(ws[0])
    } else {
        find_rec(ws.drop_first(), id)
    }
}

/// Finds the first record carrying `id`.
pub fn find_rec_idx(ws: &Vec<EntryNode>, id: u16) -> (r: Option<usize>)
    ensures
        match r {
            Some(ix) => ix < ws@.len() && find_rec(recs_view(ws@), id) == Some(ws@[ix as int]@)
                && ws@[ix as int]@.id == Some(id),
            None => find_rec(recs_view(ws@), id) is None,
        },
{
    let mut i: usize = 0;
    assert(recs_view(ws@).skip(0) =~= recs_view(ws@));
    while i < ws.len()
        invariant
            i <= ws@.len(),
            find_rec(recs_view(ws@), id) == find_rec(recs_view(ws@).skip(i as int), id),
            forall|j: int| 0 <= j < i ==> recs_view(ws@)[j].id != Some(id),
        decreases ws@.len() - i,
    {
        proof {
            assert(recs_view(ws@).skip(i as int)[0] == recs_view(ws@)[i as int]);
            assert(recs_view(ws@).skip(i as int).drop_first() =~= recs_view(ws@).skip(i as int + 1));
        }
        let rid = ws[i].id();
        match rid {
            Some(x) => {
                if x == id {
                    return Some(i);
                }
            },
            None => {},
        }
        i = i + 1;
    }
    proof {
        assert(recs_view(ws@).skip(ws@.len() as int).len() == 0);
    }
    None
}

/// The edit machine: copying events through; inside a modified record's span
/// at a nesting depth; or skipping the subtree of a sub-tag the local record
/// already defines.
pub enum EdStV {
    Copy,
    In(Seq<(crate::names::NameV, crate::values::ValueV)>, int),
    SkipSub(Seq<(crate::names::NameV, crate::values::ValueV)>, int),
}

/// A start event that opens a record the working set holds as modified.
pub open spec fn editable(ev: EventV, ws: Seq<RecordV>) -> bool {
    match ev {
        EventV::Start(n, a) => n == tag_entry() && (match id_of_attrs(a) {
            Some(id) => match find_rec(ws, id) {
                Some(r) => r.modified,
                None => false,
            },
            None => false,
        }),
        _ => false,
    }
}

/// What the edit pass makes of the events from `i` on, given the machine
/// state: the events it emits and the ids of the records whose edits it
/// captured. On a modified record's start it re-emits the start event,
/// then the record's current field values; for the rest of that span it
/// drops sub-tags the record defines (their values were just written) and
/// forwards sub-tags it does not know, so server-only fields survive.
pub open spec fn edit_run(es: Seq<EventV>, i: int, st: EdStV, ws: Seq<RecordV>) -> (
    Seq<EventV>,
    Seq<u16>,
)
    decreases es.len() - i,
    when 0 <= i
{
    if i >= es.len() {
        (Seq::empty(), Seq::empty())
    } else {
        let ev = es[i];
        match st {
            EdStV::Copy => {
                if editable(ev, ws) {
                    let id = event_id(ev)->Some_0;
                    let f = find_rec(ws, id)->Some_0.fields;
                    let rest = edit_run(es, i + 1, EdStV::In(f, 0), ws);
                    (seq![ev] + ser_fields_events(f) + rest.0, seq![id] + rest.1)
                } else {
                    let rest = edit_run(es, i + 1, EdStV::Copy, ws);
                    (seq![ev] + rest.0, rest.1)
                }
            },
            EdStV::In(f, d) => {
                match ev {
                    EventV::Start(n, _) => {
                        if d == 0 && has_key(f, crate::names::name_of(n)) {
                            edit_run(es, i + 1, EdStV::SkipSub(f, 0), ws)
                        } else {
                            let rest = edit_run(es, i + 1, EdStV::In(f, d + 1), ws);
                            (seq![ev] + rest.0, rest.1)
                        }
                    },
                    EventV::Empty(n, _) => {
                        if d == 0 && has_key(f, crate::names::name_of(n)) {
                            edit_run(es, i + 1, EdStV::In(f, 0), ws)
                        } else {
                            let rest = edit_run(es, i + 1, EdStV::In(f, d), ws);
                            (seq![ev] + rest.0, rest.1)
                        }
                    },
                    EventV::End(_) => {
                        if d == 0 {
                            let rest = edit_run(es, i + 1, EdStV::Copy, ws);
                            (seq![ev] + rest.0, rest.1)
                        } else {
                            let rest = edit_run(es, i + 1, EdStV::In(f, d - 1), ws);
                            (seq![ev] + rest.0, rest.1)
                        }
                    },
                    EventV::Text(_) => {
                        let rest = edit_run(es, i + 1, EdStV::In(f, d), ws);
                        (seq![ev] + rest.0, rest.1)
                    },
                }
            },
            EdStV::SkipSub(f, d) => {
                match ev {
                    EventV::Start(_, _) => edit_run(es, i + 1, EdStV::SkipSub(f, d + 1), ws),
                    EventV::End(_) => if d == 0 {
                        edit_run(es, i + 1, EdStV::In(f, 0), ws)
                    } else {
                        edit_run(es, i + 1, EdStV::SkipSub(f, d - 1), ws)
                    },
                    _ => edit_run(es, i + 1, EdStV::SkipSub(f, d), ws),
                }
            },
        }
    }
}

/// What the edit pass makes of a whole event sequence.
pub open spec fn edit_spec(es: Seq<EventV>, ws: Seq<RecordV>) -> (Seq<EventV>, Seq<u16>) {
    edit_run(es, 0, EdStV::Copy, ws)
}

/// Runs the edit machine over events against the working set: rewrites the
/// field values of records the working set holds as modified, and reports
/// which ids it captured.
pub fn edit_events(es: &Vec<Event>, ws: &Vec<EntryNode>) -> (r: (Vec<Event>, Vec<u16>))
    ensures
        events_view(r.0@) == edit_spec(events_view(es@), recs_view(ws@)).0,
        r.1@ == edit_spec(events_view(es@), recs_view(ws@)).1,
{
    let ghost evs = events_view(es@);
    let ghost wsv = recs_view(ws@);
    let mut out: Vec<Event> = Vec::new();
    let mut edited: Vec<u16> = Vec::new();
    // mode 0: copying; 1: inside a modified record; 2: skipping a known sub-tag
    let mut mode: u8 = 0;
    let mut rec_idx: usize = 0;
    let mut depth: usize = 0;
    let mut i: usize = 0;
    while i < es.len()
        invariant
            i <= es@.len(),
            depth <= i,
            mode == 0 || mode == 1 || mode == 2,
            mode != 0 ==> rec_idx < ws@.len(),
            evs == events_view(es@),
            wsv == recs_view(ws@),
            ({
                let st = if mode == 0 {
                    EdStV::Copy
                } else if mode == 1 {
                    EdStV::In(ws@[rec_idx as int]@.fields, depth as int)
                } else {
                    EdStV::SkipSub(ws@[rec_idx as int]@.fields, depth as int)
                };
                let rest = edit_run(evs, i as int, st, wsv);
                edit_spec(evs, wsv) == (events_view(out@) + rest.0, edited@ + rest.1)
            }),
        decreases es@.len() - i,
    {
        let ghost st = if mode == 0 {
            EdStV::Copy
        } else if mode == 1 {
            EdStV::In(ws@[rec_idx as int]@.fields, depth as int)
        } else {
            EdStV::SkipSub(ws@[rec_idx as int]@.fields, depth as int)
        };
        let ghost out0 = events_view(out@);
        let ghost edited0 = edited@;
        let ev = &es[i];
        proof {
            assert(evs[i as int] == ev@);
        }
        if mode == 0 {
            let mut took = false;
            match ev {
                Event::Start(n, a) => {
                    if crate::bytes::bytes_eq(n, &crate::names::tag_entry_bytes()) {
                        match crate::attrs::id_of_attrs_exec(a) {
                            Some(id) => {
                                match find_rec_idx(ws, id) {
                                    Some(ix) => {
                                        if ws[ix].is_modified() {
                                            out.push(ev.clone());
                                            proof {
                                                assert(events_view(out@) =~= out0.push(
                                                    evs[i as int],
                                                ));
                                            }
                                            let ghost mid = events_view(out@);
                                            crate::records::ser_fields_into(&mut out, &ws[ix].nodes);
                                            edited.push(id);
                                            mode = 1;
                                            rec_idx = ix;
                                            depth = 0;
                                            took = true;
                                            proof {
                                                assert(editable(evs[i as int], wsv));
                                                assert(events_view(out@) =~= out0 + (seq![
                                                    evs[i as int],
                                                ] + ser_fields_events(ws@[ix as int]@.fields)));
                                            }
                                        }
                                    },
                                    None => {},
                                }
                            },
                            None => {},
                        }
                    }
                },
                _ => {},
            }
            if !took {
                proof {
                    assert(!editable(evs[i as int], wsv));
                }
                out.push(ev.clone());
                proof {
                    assert(events_view(out@) =~= out0.push(evs[i as int]));
                }
            }
        } else if mode == 1 {
            match ev {
                Event::Start(n, _) => {
                    if depth == 0 && crate::values::find_field(
                        &ws[rec_idx].nodes,
                        &crate::names::NodeName::from_str(n),
                    ).is_some() {
                        proof {
                            crate::values::lemma_lookup_some(
                                ws@[rec_idx as int]@.fields,
                                crate::names::name_of(n@),
                            );
                        }
                        mode = 2;
                        depth = 0;
                    } else {
                        proof {
                            if depth == 0 {
                                crate::values::lemma_lookup_some(
                                    ws@[rec_idx as int]@.fields,
                                    crate::names::name_of(n@),
                                );
                            }
                        }
                        out.push(ev.clone());
                        proof {
                            assert(events_view(out@) =~= out0.push(evs[i as int]));
                        }
                        depth = depth + 1;
                    }
                },
                Event::Empty(n, _) => {
                    if depth == 0 && crate::values::find_field(
                        &ws[rec_idx].nodes,
                        &crate::names::NodeName::from_str(n),
                    ).is_some() {
                        proof {
                            crate::values::lemma_lookup_some(
                                ws@[rec_idx as int]@.fields,
                                crate::names::name_of(n@),
                            );
                        }
                    } else {
                        proof {
                            if depth == 0 {
                                crate::values::lemma_lookup_some(
                                    ws@[rec_idx as int]@.fields,
                                    crate::names::name_of(n@),
                                );
                            }
                        }
                        out.push(ev.clone());
                        proof {
                            assert(events_view(out@) =~= out0.push(evs[i as int]));
                        }
                    }
                },
                Event::End(_) => {
                    out.push(ev.clone());
                    proof {
                        assert(events_view(out@) =~= out0.push(evs[i as int]));
                    }
                    if depth == 0 {
                        mode = 0;
                    } else {
                        depth = depth - 1;
                    }
                },
                Event::Text(_) => {
                    out.push(ev.clone());
                    proof {
                        assert(events_view(out@) =~= out0.push(evs[i as int]));
                    }
                },
            }
        } else {
            match ev {
                Event::Start(_, _) => {
                    depth = depth + 1;
                },
                Event::End(_) => {
                    if depth == 0 {
                        mode = 1;
                    } else {
                        depth = depth - 1;
                    }
                },
                _ => {},
            }
        }
        proof {
            let st2 = if mode == 0 {
                EdStV::Copy
            } else if mode == 1 {
                EdStV::In(ws@[rec_idx as int]@.fields, depth as int)
            } else {
                EdStV::SkipSub(ws@[rec_idx as int]@.fields, depth as int)
            };
            let rest = edit_run(evs, i as int + 1, st2, wsv);
            let run = edit_run(evs, i as int, st, wsv);
            assert(out0 + run.0 =~= events_view(out@) + rest.0);
            assert(edited0 + run.1 =~= edited@ + rest.1);
        }
        i = i + 1;
    }
    proof {
        let st = if mode == 0 {
            EdStV::Copy
        } else if mode == 1 {
            EdStV::In(ws@[rec_idx as int]@.fields, depth as int)
        } else {
            EdStV::SkipSub(ws@[rec_idx as int]@.fields, depth as int)
        };
        assert(edit_run(evs, i as int, st, wsv).0 =~= Seq::<EventV>::empty());
        assert(edit_run(evs, i as int, st, wsv).1 =~= Seq::<u16>::empty());
        assert(events_view(out@) + Seq::<EventV>::empty() =~= events_view(out@));
        assert(edited@ + Seq::<u16>::empty() =~= edited@);
    }
    (out, edited)
}

/// The edit pass over document text: for each record the working set holds
/// as modified, re-emits its start tag, writes the working set's current
/// field values, drops the document's copies of fields the record defines,
/// and forwards fields it does not know; everything else is copied through.
/// On a document that does not parse, a no-op. Returns (changed, new text,
/// captured ids).
pub fn edit_pass(doc: &Vec<u8>, ws: &Vec<EntryNode>) -> (r: (bool, Vec<u8>, Vec<u16>))
    ensures
        match parse_doc(doc@) {
            Some(evs) => {
                let d = edit_spec(evs, recs_view(ws@));
                r.1@ == render(d.0) && r.2@ == d.1 && r.0 == (d.1.len() > 0)
            },
            None => r.1@ == doc@ && r.2@.len() == 0 && r.0 == false,
        },
{
    match tokenize(doc) {
        None => (false, copy_bytes(doc), Vec::new()),
        Some(es) => {
            let (out, edited) = edit_events(&es, ws);
            let text = write_events(&out);
            let changed = edited.len() > 0;
            (changed, text, edited)
        },
    }
}

/// The events the freshly created records serialize as: every working-set
/// record whose id is in `fresh`, with the wrapper, in working-set order.
pub open spec fn fresh_records_events(ws: Seq<RecordV>, fresh: Set<u16>) -> Seq<EventV>
    decreases ws.len(),
{
    if ws.len() == 0 {
        Seq::empty()
    } else {
        (match ws[0].id {
            Some(id) => if fresh.contains(id) {
                ser_record_events(ws[0], true)
            } else {
                Seq::empty()
            },
            None => Seq::empty(),
        }) + fresh_records_events(ws.drop_first(), fresh)
    }
}

/// What the insertion pass makes of the events from `i` on: events are
/// copied until the document root's start tag; right after it come the
/// fresh records, then the rest of the document unchanged.
pub open spec fn insert_run(es: Seq<EventV>, i: int, ws: Seq<RecordV>, fresh: Set<u16>) -> Seq<
    EventV,
>
    decreases es.len() - i,
    when 0 <= i
{
    if i >= es.len() {
        Seq::empty()
    } else {
        let ev = es[i];
        if (ev matches EventV::Start(n, _) && n == crate::names::tag_registry()) {
            seq![ev] + fresh_records_events(ws, fresh) + es.skip(i + 1)
        } else {
            seq![ev] + insert_run(es, i + 1, ws, fresh)
        }
    }
}

/// What the insertion pass makes of a whole event sequence.
pub open spec fn insert_spec(es: Seq<EventV>, ws: Seq<RecordV>, fresh: Set<u16>) -> Seq<EventV> {
    insert_run(es, 0, ws, fresh)
}

/// Runs the insertion machine over events: emits the fresh records as the
/// root's first children.
pub fn insert_events(es: &Vec<Event>, ws: &Vec<EntryNode>, fresh: &Vec<u16>) -> (r: Vec<Event>)
    ensures
        events_view(r@) == insert_spec(events_view(es@), recs_view(ws@), fresh@.to_set()),
{
    let ghost evs = events_view(es@);
    let ghost wsv = recs_view(ws@);
    let ghost fset = fresh@.to_set();
    let mut out: Vec<Event> = Vec::new();
    let mut i: usize = 0;
    while i < es.len()
        invariant
            i <= es@.len(),
            evs == events_view(es@),
            wsv == recs_view(ws@),
            fset == fresh@.to_set(),
            insert_spec(evs, wsv, fset) == events_view(out@) + insert_run(evs, i as int, wsv, fset),
        decreases es@.len() - i,
    {
        let ghost out0 = events_view(out@);
        let ev = &es[i];
        proof {
            assert(evs[i as int] == ev@);
        }
        let is_root = match ev {
            Event::Start(n, _) => crate::bytes::bytes_eq(n, &crate::names::tag_registry_bytes()),
            _ => false,
        };
        out.push(ev.clone());
        proof {
            assert(events_view(out@) =~= out0.push(evs[i as int]));
        }
        if is_root {
            let ghost mid = events_view(out@);
            let mut w: usize = 0;
            assert(recs_view(ws@).skip(0) =~= recs_view(ws@));
            while w < ws.len()
                invariant
                    w <= ws@.len(),
                    wsv == recs_view(ws@),
                    fset == fresh@.to_set(),
                    mid + fresh_records_events(wsv, fset) == events_view(out@)
                        + fresh_records_events(wsv.skip(w as int), fset),
                decreases ws@.len() - w,
            {
                let ghost before = events_view(out@);
                let rid = ws[w].id();
                let mut put = false;
                match rid {
                    Some(id) => {
                        if contains_u16(fresh, id) {
                            ws[w].ser_record_into(&mut out, true);
                            put = true;
                        }
                    },
                    None => {},
                }
                proof {
                    let tail = wsv.skip(w as int);
                    assert(tail[0] == wsv[w as int]);
                    assert(tail.drop_first() =~= wsv.skip(w as int + 1));
                    if !put {
                        assert(events_view(out@) == before);
                    }
                    assert(mid + fresh_records_events(wsv, fset) =~= events_view(out@)
                        + fresh_records_events(wsv.skip(w as int + 1), fset));
                }
                w = w + 1;
            }
            proof {
                assert(wsv.skip(ws@.len() as int).len() == 0);
                assert(fresh_records_events(wsv.skip(ws@.len() as int), fset)
                    =~= Seq::<EventV>::empty());
            }
            // the rest of the document, unchanged
            let mut k: usize = i + 1;
            let ghost mid2 = events_view(out@);
            while k < es.len()
                invariant
                    i + 1 <= k <= es@.len(),
                    evs == events_view(es@),
                    events_view(out@) == mid2 + evs.subrange(i as int + 1, k as int),
                decreases es@.len() - k,
            {
                let ghost b2 = events_view(out@);
                out.push(es[k].clone());
                proof {
                    assert(events_view(out@) =~= b2.push(evs[k as int]));
                    assert(events_view(out@) =~= mid2 + evs.subrange(i as int + 1, k as int + 1));
                }
                k = k + 1;
            }
            proof {
                assert(evs.subrange(i as int + 1, es@.len() as int) =~= evs.skip(i as int + 1));
                assert(events_view(out@) =~= out0 + (seq![evs[i as int]] + fresh_records_events(
                    wsv,
                    fset,
                ) + evs.skip(i as int + 1)));
            }
            return out;
        }
        i = i + 1;
    }
    proof {
        assert(insert_run(evs, i as int, wsv, fset) =~= Seq::<EventV>::empty());
        assert(events_view(out@) + Seq::<EventV>::empty() =~= events_view(out@));
    }
    out
}

/// The insertion pass over document text: every working-set record whose id
/// is in `fresh` is serialized in full, in working-set order, as the first
/// children of the document root; the rest of the document is copied
/// through unchanged. On a document that does not parse, a no-op.
pub fn insert_pass(doc: &Vec<u8>, ws: &Vec<EntryNode>, fresh: &Vec<u16>) -> (r: Vec<u8>)
    ensures
        match parse_doc(doc@) {
            Some(evs) => r@ == render(insert_spec(evs, recs_view(ws@), fresh@.to_set())),
            None => r@ == doc@,
        },
{
    match tokenize(doc) {
        None => copy_bytes(doc),
        Some(es) => {
            let out = insert_events(&es, ws, fresh);
            write_events(&out)
        },
    }
}

} // verus!
