//! The reconciliation orchestrator. One synchronization is prepared as a
//! pure computation over the fetched document (`prepare_sync`), and applied
//! to the local state only afterwards (`commit_sync`): the caller uploads
//! the prepared document in between, and on transport failure simply drops
//! the plan, so no local flag is cleared and nothing is marked synced.

use vstd::prelude::*;
use crate::records::{EntryNode, RecordV};
use crate::values::fields_view;
use crate::doc::{parse_doc, render, tokenize, write_events};
use crate::passes::{recs_view, delete_spec, edit_spec, insert_spec, delete_events, edit_events,
    insert_events, find_rec, find_rec_idx};
use crate::tree::{Registry, dec_top, top_records};
use crate::state::{AppState, sort_due, sorted_by_due};

verus! {

/// Why a synchronization could not be prepared.
#[derive(Debug, PartialEq, Eq, Structural, Clone, Copy)]
pub enum SyncError {
    /// The document, after the patch passes, does not decode as a tree.
    MalformedDocument,
    /// The remote document leaves no identifier free to allocate.
    IdSpaceExhausted,
}

/// Everything one synchronization decided: the document to upload and the
/// working set to adopt once the upload went through.
#[derive(Debug)]
pub struct SyncPlan {
    /// Whether anything changed, so the document must be uploaded.
    pub needs_upload: bool,
    /// The fully patched document text.
    pub upload_doc: Vec<u8>,
    /// The working set after pruning deletions, capturing edits and
    /// assigning fresh identifiers.
    pub new_elements: Vec<EntryNode>,
    /// The records the remote document holds at its top level.
    pub remote: Vec<EntryNode>,
    /// The identifiers freshly allocated, in working-set order.
    pub fresh: Vec<u16>,
}

/// The ids of the records flagged for deletion, in order.
pub open spec fn removed_seq(ws: Seq<RecordV>) -> Seq<u16>
    decreases ws.len(),
{
    if ws.len() == 0 {
        Seq::empty()
    } else {
        let rest = removed_seq(ws.drop_first());
        match ws[0].id {
            Some(i) => if ws[0].removed {
                seq![i] + rest
            } else {
                rest
            },
            None => rest,
        }
    }
}

/// The working set with the pruned records gone.
pub open spec fn drop_pruned(ws: Seq<RecordV>, pruned: Set<u16>) -> Seq<RecordV>
    decreases ws.len(),
{
    if ws.len() == 0 {
        Seq::empty()
    } else {
        let rest = drop_pruned(ws.drop_first(), pruned);
        if (ws[0].id matches Some(i) && pruned.contains(i)) {
            rest
        } else {
            seq![ws[0]] + rest
        }
    }
}

/// The working set with the modified flag cleared on the captured records.
pub open spec fn clear_edits(ws: Seq<RecordV>, edited: Set<u16>) -> Seq<RecordV> {
    Seq::new(
        ws.len(),
        |k: int|
            if (ws[k].id matches Some(i) && edited.contains(i) && ws[k].modified) {
                RecordV { modified: false, ..ws[k] }
            } else {
                ws[k]
            },
    )
}

/// How many records still lack an identifier.
pub open spec fn count_missing(ws: Seq<RecordV>) -> nat
    decreases ws.len(),
{
    if ws.len() == 0 {
        0
    } else {
        count_missing(ws.drop_last()) + (if ws.last().id is None {
            1nat
        } else {
            0nat
        })
    }
}

/// The ids the records carry, in order.
pub open spec fn rec_ids(rs: Seq<RecordV>) -> Seq<u16>
    decreases rs.len(),
{
    if rs.len() == 0 {
        Seq::empty()
    } else {
        let rest = rec_ids(rs.drop_first());
        match rs[0].id {
            Some(i) => seq![i] + rest,
            None => rest,
        }
    }
}

/// A record carrying `id` is in the set.
pub open spec fn has_id(ws: Seq<RecordV>, id: u16) -> bool {
    exists|k: int| 0 <= k < ws.len() && (#[trigger] ws[k]).id == Some(id)
}

/// The working set with every remote record absent from it (by id)
/// appended, in remote order.
pub open spec fn merge_remote(ws: Seq<RecordV>, remote: Seq<RecordV>) -> Seq<RecordV>
    decreases remote.len(),
{
    if remote.len() == 0 {
        ws
    } else {
        let ws2 = match remote[0].id {
            Some(i) => if has_id(ws, i) {
                ws
            } else {
                ws.push(remote[0])
            },
            None => ws,
        };
        merge_remote(ws2, remote.drop_first())
    }
}

/// The find succeeds exactly on ids the set holds.
pub proof fn lemma_find_rec_has_id(ws: Seq<RecordV>, id: u16)
    ensures
        find_rec(ws, id) is Some <==> has_id(ws, id),
    decreases ws.len(),
{
    if ws.len() > 0 {
        lemma_find_rec_has_id(ws.drop_first(), id);
        if ws[0].id != Some(id) && has_id(ws, id) {
            let k = choose|k: int| 0 <= k < ws.len() && (#[trigger] ws[k]).id == Some(id);
            assert(ws.drop_first()[k - 1].id == Some(id));
        }
        if ws[0].id != Some(id) && has_id(ws.drop_first(), id) {
            let k = choose|k: int|
                0 <= k < ws.drop_first().len() && (#[trigger] ws.drop_first()[k]).id == Some(id);
            assert(ws[k + 1].id == Some(id));
        }
    }
}

/// Collects the ids of the records flagged for deletion.
fn collect_removed(ws: &Vec<EntryNode>) -> (r: Vec<u16>)
    ensures
        r@ == removed_seq(recs_view(ws@)),
{
    let ghost wsv = recs_view(ws@);
    let mut out: Vec<u16> = Vec::new();
    let mut i: usize = 0;
    assert(wsv.skip(0) =~= wsv);
    while i < ws.len()
        invariant
            i <= ws@.len(),
            wsv == recs_view(ws@),
            removed_seq(wsv) == out@ + removed_seq(wsv.skip(i as int)),
        decreases ws@.len() - i,
    {
        let ghost out0 = out@;
        proof {
            let tail = wsv.skip(i as int);
            assert(tail[0] == wsv[i as int]);
            assert(tail.drop_first() =~= wsv.skip(i as int + 1));
        }
        let e = &ws[i];
        if e.is_removed() {
            match e.id() {
                Some(id) => {
                    out.push(id);
                    proof {
                        assert(out@ =~= out0 + seq![id]);
                        assert(removed_seq(wsv) =~= out@ + removed_seq(wsv.skip(i as int + 1)));
                    }
                },
                None => {},
            }
        }
        i = i + 1;
    }
    proof {
        assert(removed_seq(wsv.skip(ws@.len() as int)) =~= Seq::<u16>::empty());
        assert(out@ + Seq::<u16>::empty() =~= out@);
    }
    out
}

/// Clones the working set without the pruned records.
fn apply_pruned(ws: &Vec<EntryNode>, pruned: &Vec<u16>) -> (r: Vec<EntryNode>)
    ensures
        recs_view(r@) == drop_pruned(recs_view(ws@), pruned@.to_set()),
{
    let ghost wsv = recs_view(ws@);
    let ghost pset = pruned@.to_set();
    let mut out: Vec<EntryNode> = Vec::new();
    let mut i: usize = 0;
    assert(wsv.skip(0) =~= wsv);
    while i < ws.len()
        invariant
            i <= ws@.len(),
            wsv == recs_view(ws@),
            pset == pruned@.to_set(),
            drop_pruned(wsv, pset) == recs_view(out@) + drop_pruned(wsv.skip(i as int), pset),
        decreases ws@.len() - i,
    {
        let ghost out0 = recs_view(out@);
        proof {
            let tail = wsv.skip(i as int);
            assert(tail[0] == wsv[i as int]);
            assert(tail.drop_first() =~= wsv.skip(i as int + 1));
        }
        let e = &ws[i];
        let drop = match e.id() {
            Some(id) => crate::records::contains_u16(pruned, id),
            None => false,
        };
        if !drop {
            out.push(e.clone());
            proof {
                assert(recs_view(out@) =~= out0.push(wsv[i as int]));
                assert(drop_pruned(wsv, pset) =~= recs_view(out@) + drop_pruned(
                    wsv.skip(i as int + 1),
                    pset,
                ));
            }
        }
        i = i + 1;
    }
    proof {
        assert(drop_pruned(wsv.skip(ws@.len() as int), pset) =~= Seq::<RecordV>::empty());
        assert(recs_view(out@) + Seq::<RecordV>::empty() =~= recs_view(out@));
    }
    out
}

/// Clears the modified flag on the captured records.
fn apply_edits(ws: &mut Vec<EntryNode>, edited: &Vec<u16>)
    ensures
        recs_view(final(ws)@) == clear_edits(recs_view(old(ws)@), edited@.to_set()),
{
    let ghost wsv = recs_view(old(ws)@);
    let ghost eset = edited@.to_set();
    let mut i: usize = 0;
    while i < ws.len()
        invariant
            i <= ws@.len(),
            ws@.len() == wsv.len(),
            forall|k: int| i <= k < wsv.len() ==> (#[trigger] ws@[k])@ == wsv[k],
            forall|k: int| 0 <= k < i ==> (#[trigger] ws@[k])@ == clear_edits(wsv, eset)[k],
            eset == edited@.to_set(),
        decreases ws@.len() - i,
    {
        let clear = match ws[i].id() {
            Some(id) => crate::records::contains_u16(edited, id) && ws[i].is_modified(),
            None => false,
        };
        if clear {
            let mut e = ws.remove(i);
            e.modified = false;
            ws.insert(i, e);
        }
        i = i + 1;
    }
    proof {
        assert(recs_view(ws@) =~= clear_edits(wsv, eset));
    }
}

/// Collects the ids the records carry.
fn collect_rec_ids(rs: &Vec<EntryNode>) -> (r: Vec<u16>)
    ensures
        r@ == rec_ids(recs_view(rs@)),
{
    let ghost rsv = recs_view(rs@);
    let mut out: Vec<u16> = Vec::new();
    let mut i: usize = 0;
    assert(rsv.skip(0) =~= rsv);
    while i < rs.len()
        invariant
            i <= rs@.len(),
            rsv == recs_view(rs@),
            rec_ids(rsv) == out@ + rec_ids(rsv.skip(i as int)),
        decreases rs@.len() - i,
    {
        let ghost out0 = out@;
        proof {
            let tail = rsv.skip(i as int);
            assert(tail[0] == rsv[i as int]);
            assert(tail.drop_first() =~= rsv.skip(i as int + 1));
        }
        match rs[i].id() {
            Some(id) => {
                out.push(id);
                proof {
                    assert(out@ =~= out0 + seq![id]);
                    assert(rec_ids(rsv) =~= out@ + rec_ids(rsv.skip(i as int + 1)));
                }
            },
            None => {},
        }
        i = i + 1;
    }
    proof {
        assert(rec_ids(rsv.skip(rs@.len() as int)) =~= Seq::<u16>::empty());
        assert(out@ + Seq::<u16>::empty() =~= out@);
    }
    out
}

impl AppState {
    /// Prepares one synchronization against the fetched document: runs the
    /// deletion pass with the flagged ids, the edit pass with the working
    /// set, decodes the patched document, allocates identifiers for every
    /// record still lacking one (excluding every remote id), and runs the
    /// insertion pass for them. Touches no local state; `commit_sync`
    /// applies the plan once the upload went through.
    #[verifier::loop_isolation(false)]
    pub fn prepare_sync(&self, fetched: &Vec<u8>) -> (r: Result<SyncPlan, SyncError>)
        ensures
            ({
                let ws0 = recs_view(self.elements@);
                let rset = removed_seq(ws0).to_set();
                match r {
                    Ok(plan) => parse_doc(fetched@) matches Some(evs) && {
                        let del = delete_spec(evs, rset);
                        let ws1 = drop_pruned(ws0, del.1.to_set());
                        let ed = edit_spec(del.0, ws1);
                        let ws2 = clear_edits(ws1, ed.1.to_set());
                        let added = plan.fresh@.len() > 0;
                        &&& dec_top(ed.0, 0, Seq::empty()) matches Some(nodes) && {
                            let remote = top_records(nodes);
                            &&& recs_view(plan.remote@) == remote
                            &&& plan.fresh@.len() == count_missing(ws2)
                            &&& (forall|a: int, b: int|
                                0 <= a < b < plan.fresh@.len() ==> plan.fresh@[a] != plan.fresh@[b])
                            &&& (forall|a: int|
                                0 <= a < plan.fresh@.len() ==> plan.fresh@[a] != 0 && !rec_ids(
                                    remote,
                                ).contains(#[trigger] plan.fresh@[a]))
                        }
                        &&& plan.new_elements@.len() == ws2.len()
                        &&& (forall|k: int|
                            0 <= k < ws2.len() ==> (#[trigger] plan.new_elements@[k])@ == (
                            if ws2[k].id is None {
                                RecordV {
                                    id: Some(plan.fresh@[count_missing(ws2.take(k)) as int]),
                                    ..ws2[k]
                                }
                            } else {
                                ws2[k]
                            }))
                        &&& plan.upload_doc@ == render(
                            if added {
                                insert_spec(ed.0, recs_view(plan.new_elements@), plan.fresh@.to_set())
                            } else {
                                ed.0
                            },
                        )
                        &&& plan.needs_upload == (del.1.len() > 0 || ed.1.len() > 0 || added)
                    },
                    Err(SyncError::MalformedDocument) => parse_doc(fetched@) is None || (
                    parse_doc(fetched@) matches Some(evs) && {
                        let del = delete_spec(evs, rset);
                        let ws1 = drop_pruned(ws0, del.1.to_set());
                        let ed = edit_spec(del.0, ws1);
                        dec_top(ed.0, 0, Seq::empty()) is None
                    }),
                    Err(SyncError::IdSpaceExhausted) => parse_doc(fetched@) matches Some(evs) && {
                        let del = delete_spec(evs, rset);
                        let ws1 = drop_pruned(ws0, del.1.to_set());
                        let ed = edit_spec(del.0, ws1);
                        &&& dec_top(ed.0, 0, Seq::empty()) matches Some(nodes)
                        &&& rec_ids(top_records(nodes)).len() + count_missing(
                            clear_edits(ws1, ed.1.to_set()),
                        ) > 65535
                    },
                }
            }),
    {
        let ghost ws0 = recs_view(self.elements@);
        let es = match tokenize(fetched) {
            None => {
                return Err(SyncError::MalformedDocument);
            },
            Some(es) => es,
        };
        let removed = collect_removed(&self.elements);
        let (es1, pruned) = delete_events(&es, &removed);
        let ws1 = apply_pruned(&self.elements, &pruned);
        let (es2, edited) = edit_events(&es1, &ws1);
        let mut ws2 = ws1;
        apply_edits(&mut ws2, &edited);
        let registry = match Registry::from_events(&es2) {
            None => {
                return Err(SyncError::MalformedDocument);
            },
            Some(reg) => reg,
        };
        let remote = registry.entries();
        let mut existing = collect_rec_ids(&remote);
        let ghost remote_ids = rec_ids(recs_view(remote@));
        let ghost ws2v = recs_view(ws2@);
        let mut fresh: Vec<u16> = Vec::new();
        let mut k: usize = 0;
        proof {
            assert(ws2v.take(0) =~= Seq::<RecordV>::empty());
            assert(existing@ =~= remote_ids + fresh@);
        }
        while k < ws2.len()
            invariant
                k <= ws2@.len(),
                ws2@.len() == ws2v.len(),
                existing@ == remote_ids + fresh@,
                fresh@.len() == count_missing(ws2v.take(k as int)),
                forall|a: int, b: int| 0 <= a < b < fresh@.len() ==> fresh@[a] != fresh@[b],
                forall|a: int|
                    0 <= a < fresh@.len() ==> fresh@[a] != 0 && !remote_ids.contains(
                        #[trigger] fresh@[a],
                    ),
                forall|j: int| k <= j < ws2v.len() ==> (#[trigger] ws2@[j])@ == ws2v[j],
                forall|j: int|
                    0 <= j < k ==> (#[trigger] ws2@[j])@ == (if ws2v[j].id is None {
                        RecordV { id: Some(fresh@[count_missing(ws2v.take(j)) as int]), ..ws2v[j] }
                    } else {
                        ws2v[j]
                    }),
            decreases ws2@.len() - k,
        {
            proof {
                assert(ws2v.take(k as int + 1).drop_last() =~= ws2v.take(k as int));
                assert(ws2v.take(k as int + 1).last() == ws2v[k as int]);
            }
            let missing = ws2[k].id().is_none();
            if missing {
                if existing.len() >= 65535 {
                    proof {
                        assert(remote_ids.len() + fresh@.len() >= 65535);
                        lemma_count_missing_bound(ws2v, k as int);
                        assert(count_missing(ws2v) > fresh@.len());
                        assert(remote_ids.len() + count_missing(ws2v) > 65535);
                    }
                    return Err(SyncError::IdSpaceExhausted);
                }
                let ghost f0 = fresh@;
                let ghost w0 = ws2@;
                let mut e = ws2.remove(k);
                let id = e.generate_id(&mut existing);
                ws2.insert(k, e);
                fresh.push(id);
                proof {
                    assert(existing@ =~= remote_ids + fresh@);
                    assert(ws2@ =~= w0.update(k as int, ws2@[k as int]));
                    assert(ws2@[k as int]@ == (RecordV { id: Some(id), ..ws2v[k as int] }));
                    assert forall|a: int| 0 <= a < f0.len() implies f0[a] != id by {
                        assert((remote_ids + f0)[remote_ids.len() + a] == f0[a]);
                        if f0[a] == id {
                            assert((remote_ids + f0).contains(id));
                        }
                    }
                    assert(!remote_ids.contains(id)) by {
                        if remote_ids.contains(id) {
                            let w = choose|w: int|
                                0 <= w < remote_ids.len() && remote_ids[w] == id;
                            assert((remote_ids + f0)[w] == id);
                            assert((remote_ids + f0).contains(id));
                        }
                    }
                    assert(fresh@[count_missing(ws2v.take(k as int)) as int] == id);
                    assert(forall|a: int| 0 <= a < f0.len() ==> fresh@[a] == f0[a]);
                    assert(fresh@.len() == count_missing(ws2v.take(k as int + 1)));
                    assert forall|j: int|
                        0 <= j < k + 1 implies (#[trigger] ws2@[j])@ == (if ws2v[j].id is None {
                        RecordV { id: Some(fresh@[count_missing(ws2v.take(j)) as int]), ..ws2v[j] }
                    } else {
                        ws2v[j]
                    }) by {
                        if j == k as int {
                        } else if ws2v[j].id is None {
                            lemma_count_missing_step(ws2v, j, k as int);
                            assert(count_missing(ws2v.take(j)) < f0.len());
                            assert(fresh@[count_missing(ws2v.take(j)) as int] == f0[count_missing(ws2v.take(j)) as int]);
                            assert(ws2@[j] == w0[j]);
                        } else {
                            assert(ws2@[j] == w0[j]);
                        }
                    }
                }
            } else {
                proof {
                    assert(ws2v.take(k as int + 1).last() == ws2v[k as int]);
                    assert(fresh@.len() == count_missing(ws2v.take(k as int + 1)));
                }
            }
            k = k + 1;
        }
        proof {
            assert(ws2v.take(ws2v.len() as int) =~= ws2v);
        }
        let added = fresh.len() > 0;
        let upload_doc = if added {
            let es3 = insert_events(&es2, &ws2, &fresh);
            write_events(&es3)
        } else {
            write_events(&es2)
        };
        let needs_upload = pruned.len() > 0 || edited.len() > 0 || added;
        Ok(
            SyncPlan {
                needs_upload,
                upload_doc,
                new_elements: ws2,
                remote,
                fresh,
            },
        )
    }

    /// Applies a prepared synchronization: adopts the new working set,
    /// appends every remote record absent from it (by id), sorts by due
    /// date, and marks the state synced.
    pub fn commit_sync(&mut self, plan: SyncPlan)
        ensures
            *final(self) == (AppState {
                elements: final(self).elements,
                synced: true,
                ..*old(self)
            }),
            recs_view(final(self).elements@) == sort_due(
                merge_remote(recs_view(plan.new_elements@), recs_view(plan.remote@)),
            ),
            sorted_by_due(recs_view(final(self).elements@)),
    {
        let ghost remv = recs_view(plan.remote@);
        let SyncPlan { new_elements, remote, .. } = plan;
        self.elements = new_elements;
        let ghost base = recs_view(self.elements@);
        let mut j: usize = 0;
        assert(remv.skip(0) =~= remv);
        while j < remote.len()
            invariant
                j <= remote@.len(),
                remv == recs_view(remote@),
                merge_remote(base, remv) == merge_remote(
                    recs_view(self.elements@),
                    remv.skip(j as int),
                ),
                *self == (AppState { elements: self.elements, ..*old(self) }),
            decreases remote@.len() - j,
        {
            let ghost cur = recs_view(self.elements@);
            proof {
                let tail = remv.skip(j as int);
                assert(tail[0] == remv[j as int]);
                assert(tail.drop_first() =~= remv.skip(j as int + 1));
            }
            let e = &remote[j];
            match e.id() {
                Some(id) => {
                    match find_rec_idx(&self.elements, id) {
                        Some(_) => {
                            proof {
                                lemma_find_rec_has_id(cur, id);
                            }
                        },
                        None => {
                            proof {
                                lemma_find_rec_has_id(cur, id);
                            }
                            self.elements.push(e.clone());
                            proof {
                                assert(recs_view(self.elements@) =~= cur.push(remv[j as int]));
                            }
                        },
                    }
                },
                None => {},
            }
            j = j + 1;
        }
        proof {
            assert(remv.skip(remote@.len() as int).len() == 0);
        }
        self.sort_by_due();
        self.synced = true;
    }
}

/// Prefix counts of unassigned records grow strictly past an unassigned
/// record.
proof fn lemma_count_missing_mono(ws: Seq<RecordV>, j: int)
    requires
        0 <= j < ws.len(),
        ws[j].id is None,
    ensures
        forall|m: int| j < m <= ws.len() ==> count_missing(ws.take(j)) < count_missing(ws.take(m)),
{
    assert forall|m: int| j < m <= ws.len() implies count_missing(ws.take(j)) < count_missing(
        ws.take(m),
    ) by {
        lemma_count_missing_step(ws, j, m);
    }
}

/// Counting unassigned records over a longer prefix that covers an
/// unassigned record at `j` gives strictly more.
proof fn lemma_count_missing_step(ws: Seq<RecordV>, j: int, m: int)
    requires
        0 <= j < m <= ws.len(),
        ws[j].id is None,
    ensures
        count_missing(ws.take(j)) < count_missing(ws.take(m)),
    decreases m - j,
{
    if m == j + 1 {
        assert(ws.take(m).drop_last() =~= ws.take(j));
        assert(ws.take(m).last() == ws[j]);
    } else {
        lemma_count_missing_step(ws, j, m - 1);
        assert(ws.take(m).drop_last() =~= ws.take(m - 1));
    }
}

/// A prefix never holds more unassigned records than the whole, and
/// strictly fewer when the record at its end is unassigned.
proof fn lemma_count_missing_bound(ws: Seq<RecordV>, k: int)
    requires
        0 <= k < ws.len(),
        ws[k].id is None,
    ensures
        count_missing(ws) > count_missing(ws.take(k)),
    decreases ws.len(),
{
    if k == ws.len() - 1 {
        assert(ws.drop_last() =~= ws.take(k));
        assert(count_missing(ws) == count_missing(ws.take(k)) + 1);
    } else {
        lemma_count_missing_bound(ws.drop_last(), k);
        assert(ws.drop_last().take(k) =~= ws.take(k));
        assert(count_missing(ws) >= count_missing(ws.drop_last()));
    }
}

} // verus!
