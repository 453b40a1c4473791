//! The reconciliation engine: merge-joins a walker stream against the
//! store's item table for one root and commits the classified result.
//!
//! Both streams are ordered by path, so one linear merge decides every
//! path: present only in the table means deleted, present only in the
//! stream means added, present in both is classified. The whole merge
//! is specified by the recursive functions below, and `reconcile`
//! commits exactly their result.

use vstd::prelude::*;
use crate::changes::ChangeType;
use crate::classify::{
    ItemType, ItemState, ObservedEntry, EntryM, Outcome, classify, classify_spec,
};
use crate::paths::{lex_lt, lemma_lex_asym, lemma_lex_total, bytes_dup, path_cmp, PathOrder};
use crate::store::{Store, Item, ItemM, Change, items_sorted, item_key_lt, latest_complete_in};

verus! {

/// The row a scan writes for a path it (re-)observed: fresh metadata,
/// presence confirmed, nothing carried forward from any old state.
pub open spec fn refreshed_item(id: i64, root_id: i64, e: EntryM, sid: i64) -> ItemM {
    ItemM {
        id,
        root_path_id: root_id,
        path: e.path,
        item_type: e.item_type,
        last_seen_scan_id: sid,
        is_tombstone: false,
        last_modified: e.last_modified,
        file_size: if e.item_type == ItemType::File {
            e.file_size
        } else {
            None
        },
        file_hash: if e.item_type == ItemType::File {
            e.digest
        } else {
            None
        },
    }
}

/// The row after a delete: tombstoned, everything else kept for the
/// audit history (`last_seen_scan_id` still names the last scan that
/// confirmed presence).
pub open spec fn tombstoned_item(it: ItemM) -> ItemM {
    ItemM { is_tombstone: true, ..it }
}

/// The change row recorded for a non-`NoChange` outcome.
pub open spec fn change_for(sid: i64, item_id: i64, o: Outcome) -> Change {
    Change {
        scan_id: sid,
        item_id,
        change_type: o.change_type_spec(),
        metadata_changed: match o {
            Outcome::Modify { metadata_changed, .. } => Some(metadata_changed),
            _ => None,
        },
        hash_changed: match o {
            Outcome::Modify { hash_changed, .. } => hash_changed,
            _ => None,
        },
    }
}

/// The item rows the merge leaves for one root's segment, in path
/// order: `olds` is the root's stored segment, `es` the walker stream,
/// `nid` the next unused item id.
pub open spec fn merge_items(
    olds: Seq<ItemM>,
    es: Seq<EntryM>,
    root_id: i64,
    sid: i64,
    deep: bool,
    nid: i64,
) -> Seq<ItemM>
    decreases olds.len() + es.len(),
{
    if olds.len() == 0 && es.len() == 0 {
        Seq::empty()
    } else if olds.len() > 0 && (es.len() == 0 || lex_lt(olds[0].path, es[0].path)) {
        let head = if olds[0].is_tombstone {
            olds[0]
        } else {
            tombstoned_item(olds[0])
        };
        seq![head] + merge_items(olds.drop_first(), es, root_id, sid, deep, nid)
    } else if olds.len() == 0 || lex_lt(es[0].path, olds[0].path) {
        seq![refreshed_item(nid, root_id, es[0], sid)] + merge_items(
            olds,
            es.drop_first(),
            root_id,
            sid,
            deep,
            (nid + 1) as i64,
        )
    } else {
        let head = if olds[0].is_tombstone {
            refreshed_item(olds[0].id, root_id, es[0], sid)
        } else {
            if classify_spec(Some(olds[0].state()), Some(es[0]), deep) == Outcome::NoChange {
                ItemM { last_seen_scan_id: sid, ..olds[0] }
            } else {
                refreshed_item(olds[0].id, root_id, es[0], sid)
            }
        };
        seq![head] + merge_items(olds.drop_first(), es.drop_first(), root_id, sid, deep, nid)
    }
}

/// The change rows the merge appends, in the merged path order.
pub open spec fn merge_changes(
    olds: Seq<ItemM>,
    es: Seq<EntryM>,
    sid: i64,
    deep: bool,
    nid: i64,
) -> Seq<Change>
    decreases olds.len() + es.len(),
{
    if olds.len() == 0 && es.len() == 0 {
        Seq::empty()
    } else if olds.len() > 0 && (es.len() == 0 || lex_lt(olds[0].path, es[0].path)) {
        let here: Seq<Change> = if olds[0].is_tombstone {
            Seq::empty()
        } else {
            seq![change_for(sid, olds[0].id, Outcome::Delete)]
        };
        here + merge_changes(olds.drop_first(), es, sid, deep, nid)
    } else if olds.len() == 0 || lex_lt(es[0].path, olds[0].path) {
        seq![change_for(sid, nid, Outcome::Add)] + merge_changes(
            olds,
            es.drop_first(),
            sid,
            deep,
            (nid + 1) as i64,
        )
    } else {
        let here: Seq<Change> = if olds[0].is_tombstone {
            seq![change_for(sid, olds[0].id, Outcome::Add)]
        } else {
            let o = classify_spec(Some(olds[0].state()), Some(es[0]), deep);
            if o == Outcome::NoChange {
                Seq::empty()
            } else {
                seq![change_for(sid, olds[0].id, o)]
            }
        };
        here + merge_changes(olds.drop_first(), es.drop_first(), sid, deep, nid)
    }
}

/// The next unused item id once the merge has minted its fresh rows.
pub open spec fn merge_next_id(olds: Seq<ItemM>, es: Seq<EntryM>, nid: i64) -> i64
    decreases olds.len() + es.len(),
{
    if olds.len() == 0 && es.len() == 0 {
        nid
    } else if olds.len() > 0 && (es.len() == 0 || lex_lt(olds[0].path, es[0].path)) {
        merge_next_id(olds.drop_first(), es, nid)
    } else if olds.len() == 0 || lex_lt(es[0].path, olds[0].path) {
        merge_next_id(olds, es.drop_first(), (nid + 1) as i64)
    } else {
        merge_next_id(olds.drop_first(), es.drop_first(), nid)
    }
}

/// Strictly ascending path order, the order every walker stream must
/// deliver.
pub open spec fn entries_sorted(es: Seq<EntryM>) -> bool {
    forall|i: int, j: int| 0 <= i < j < es.len() ==> lex_lt(es[i].path, es[j].path)
}

/// What the engine assumes of a root's stored segment: every row
/// belongs to the root, paths strictly ascend, ids are unique and
/// below the id counter, directories carry no size or hash.
pub open spec fn seg_wf(olds: Seq<ItemM>, root_id: i64, nid: i64) -> bool {
    &&& forall|k: int| 0 <= k < olds.len() ==> (#[trigger] olds[k]).root_path_id == root_id
    &&& forall|k: int, l: int|
        0 <= k < l < olds.len() ==> lex_lt((#[trigger] olds[k]).path, (#[trigger] olds[l]).path)
    &&& forall|k: int| 0 <= k < olds.len() ==> 1 <= (#[trigger] olds[k]).id < nid
    &&& forall|k: int, l: int|
        0 <= k < l < olds.len() ==> (#[trigger] olds[k]).id != (#[trigger] olds[l]).id
    &&& forall|k: int|
        0 <= k < olds.len() ==> ((#[trigger] olds[k]).item_type == ItemType::Directory
            ==> olds[k].file_size is None && olds[k].file_hash is None)
}

/// The merged segment and its change rows are as well-formed as what
/// went in, and every change names an item whose prior presence
/// matches its kind: a `Delete` only ever follows a live row, an `Add`
/// only a tombstone or a freshly minted id.
#[verifier::rlimit(100)]
#[verifier::spinoff_prover]
pub proof fn lemma_merge_props(
    olds: Seq<ItemM>,
    es: Seq<EntryM>,
    root_id: i64,
    sid: i64,
    deep: bool,
    nid: i64,
)
    requires
        seg_wf(olds, root_id, nid),
        entries_sorted(es),
        1 <= nid,
        nid + es.len() <= i64::MAX,
    ensures
        ({
            let r = merge_items(olds, es, root_id, sid, deep, nid);
            let c = merge_changes(olds, es, sid, deep, nid);
            let n2 = merge_next_id(olds, es, nid);
            &&& nid <= n2 <= nid + es.len()
            &&& r.len() <= olds.len() + es.len()
            &&& c.len() <= olds.len() + es.len()
            &&& forall|k: int|
                0 <= k < r.len() ==> (#[trigger] r[k]).root_path_id == root_id && 1 <= r[k].id
                    < n2 && (r[k].item_type == ItemType::Directory ==> r[k].file_size is None
                    && r[k].file_hash is None)
            &&& forall|k: int, l: int|
                0 <= k < l < r.len() ==> lex_lt(
                    (#[trigger] r[k]).path,
                    (#[trigger] r[l]).path,
                )
            &&& forall|k: int, l: int|
                0 <= k < l < r.len() ==> (#[trigger] r[k]).id != (#[trigger] r[l]).id
            &&& forall|k: int|
                0 <= k < r.len() ==> ((#[trigger] r[k]).last_seen_scan_id == sid || exists|j: int|
                    0 <= j < olds.len() && r[k].last_seen_scan_id == (
                    #[trigger] olds[j]).last_seen_scan_id)
            &&& forall|k: int|
                0 <= k < r.len() ==> ((exists|j: int|
                    0 <= j < olds.len() && (#[trigger] r[k]).id == (#[trigger] olds[j]).id)
                    || nid <= r[k].id < n2)
            &&& forall|k: int|
                0 <= k < r.len() ==> ((exists|j: int|
                    0 <= j < olds.len() && (#[trigger] r[k]).path == (#[trigger] olds[j]).path)
                    || (exists|j: int|
                    0 <= j < es.len() && (#[trigger] r[k]).path == (#[trigger] es[j]).path))
            &&& forall|k: int|
                0 <= k < c.len() ==> (#[trigger] c[k]).scan_id == sid && c[k].change_type
                    != ChangeType::NoChange && ((c[k].change_type == ChangeType::Modify) == (
                c[k].metadata_changed is Some)) && (c[k].change_type != ChangeType::Modify
                    ==> c[k].hash_changed is None) && 1 <= c[k].item_id < n2
            &&& forall|k: int|
                0 <= k < c.len() ==> match (#[trigger] c[k]).change_type {
                    ChangeType::Delete => exists|j: int|
                        0 <= j < olds.len() && (#[trigger] olds[j]).id == c[k].item_id
                            && !olds[j].is_tombstone,
                    ChangeType::Add => (nid <= c[k].item_id < n2) || (exists|j: int|
                        0 <= j < olds.len() && (#[trigger] olds[j]).id == c[k].item_id
                            && olds[j].is_tombstone),
                    _ => exists|j: int|
                        0 <= j < olds.len() && (#[trigger] olds[j]).id == c[k].item_id
                            && !olds[j].is_tombstone,
                }
        }),
    decreases olds.len() + es.len(),
{
    let r = merge_items(olds, es, root_id, sid, deep, nid);
    let c = merge_changes(olds, es, sid, deep, nid);
    let n2 = merge_next_id(olds, es, nid);
    if olds.len() == 0 && es.len() == 0 {
    } else if olds.len() > 0 && (es.len() == 0 || lex_lt(olds[0].path, es[0].path)) {
        let olds2 = olds.drop_first();
        assert(seg_wf(olds2, root_id, nid)) by {
            assert(forall|k: int|
                0 <= k < olds2.len() ==> #[trigger] olds2[k] == olds[k + 1]);
        }
        lemma_merge_props(olds2, es, root_id, sid, deep, nid);
        let rr = merge_items(olds2, es, root_id, sid, deep, nid);
        assert(forall|k: int| 1 <= k < r.len() ==> #[trigger] r[k] == rr[k - 1]);
        // The kept head sorts before everything the recursion produced.
        assert forall|l: int| 1 <= l < r.len() implies lex_lt(r[0].path, (
        #[trigger] r[l]).path) by {
            if exists|j: int|
                0 <= j < olds2.len() && (#[trigger] rr[l - 1]).path == (
                #[trigger] olds2[j]).path {
                let j = choose|j: int|
                    0 <= j < olds2.len() && (#[trigger] rr[l - 1]).path == (
                    #[trigger] olds2[j]).path;
                assert(olds2[j] == olds[j + 1]);
                assert(lex_lt(olds[0].path, olds[j + 1].path));
            } else {
                let j = choose|j: int|
                    0 <= j < es.len() && (#[trigger] rr[l - 1]).path == (#[trigger] es[j]).path;
                assert(lex_lt(olds[0].path, es[0].path));
                if j > 0 {
                    assert(lex_lt(es[0].path, es[j].path));
                    crate::paths::lemma_lex_trans(olds[0].path, es[0].path, es[j].path);
                }
            }
        }
    } else if olds.len() == 0 || lex_lt(es[0].path, olds[0].path) {
        let es2 = es.drop_first();
        assert(entries_sorted(es2)) by {
            assert(forall|k: int| 0 <= k < es2.len() ==> #[trigger] es2[k] == es[k + 1]);
        }
        assert(seg_wf(olds, root_id, (nid + 1) as i64)) by {
            assert(forall|k: int| 0 <= k < olds.len() ==> 1 <= (#[trigger] olds[k]).id < nid);
        }
        lemma_merge_props(olds, es2, root_id, sid, deep, (nid + 1) as i64);
        let rr = merge_items(olds, es2, root_id, sid, deep, (nid + 1) as i64);
        assert(forall|k: int| 1 <= k < r.len() ==> #[trigger] r[k] == rr[k - 1]);
        assert forall|l: int| 1 <= l < r.len() implies lex_lt(r[0].path, (
        #[trigger] r[l]).path) by {
            if exists|j: int|
                0 <= j < olds.len() && (#[trigger] rr[l - 1]).path == (#[trigger] olds[j]).path {
                let j = choose|j: int|
                    0 <= j < olds.len() && (#[trigger] rr[l - 1]).path == (
                    #[trigger] olds[j]).path;
                assert(lex_lt(es[0].path, olds[0].path));
                if j > 0 {
                    assert(lex_lt(olds[0].path, olds[j].path));
                    crate::paths::lemma_lex_trans(es[0].path, olds[0].path, olds[j].path);
                }
            } else {
                let j = choose|j: int|
                    0 <= j < es2.len() && (#[trigger] rr[l - 1]).path == (#[trigger] es2[j]).path;
                assert(es2[j] == es[j + 1]);
                assert(lex_lt(es[0].path, es[j + 1].path));
            }
        }
    } else {
        let olds2 = olds.drop_first();
        let es2 = es.drop_first();
        assert(seg_wf(olds2, root_id, nid)) by {
            assert(forall|k: int|
                0 <= k < olds2.len() ==> #[trigger] olds2[k] == olds[k + 1]);
        }
        assert(entries_sorted(es2)) by {
            assert(forall|k: int| 0 <= k < es2.len() ==> #[trigger] es2[k] == es[k + 1]);
        }
        lemma_merge_props(olds2, es2, root_id, sid, deep, nid);
        let rr = merge_items(olds2, es2, root_id, sid, deep, nid);
        assert(forall|k: int| 1 <= k < r.len() ==> #[trigger] r[k] == rr[k - 1]);
        lemma_lex_total(olds[0].path, es[0].path);
        assert(olds[0].path == es[0].path);
        assert forall|l: int| 1 <= l < r.len() implies lex_lt(r[0].path, (
        #[trigger] r[l]).path) by {
            if exists|j: int|
                0 <= j < olds2.len() && (#[trigger] rr[l - 1]).path == (
                #[trigger] olds2[j]).path {
                let j = choose|j: int|
                    0 <= j < olds2.len() && (#[trigger] rr[l - 1]).path == (
                    #[trigger] olds2[j]).path;
                assert(olds2[j] == olds[j + 1]);
                assert(lex_lt(olds[0].path, olds[j + 1].path));
            } else {
                let j = choose|j: int|
                    0 <= j < es2.len() && (#[trigger] rr[l - 1]).path == (#[trigger] es2[j]).path;
                assert(es2[j] == es[j + 1]);
                assert(lex_lt(es[0].path, es[j + 1].path));
            }
        }
    }
}

/// How many item rows sort wholly before a root's segment.
pub open spec fn root_lo(s: Seq<ItemM>, root_id: i64) -> int
    decreases s.len(),
{
    if s.len() == 0 {
        0int
    } else {
        root_lo(s.drop_last(), root_id) + if s.last().root_path_id < root_id {
            1int
        } else {
            0int
        }
    }
}

/// Where a root's segment ends: rows with this or a smaller root id.
pub open spec fn root_hi(s: Seq<ItemM>, root_id: i64) -> int
    decreases s.len(),
{
    if s.len() == 0 {
        0int
    } else {
        root_hi(s.drop_last(), root_id) + if s.last().root_path_id <= root_id {
            1int
        } else {
            0int
        }
    }
}

/// In a sorted item table a root's rows form one contiguous segment,
/// `[root_lo, root_hi)`.
pub proof fn lemma_root_bounds(s: Seq<ItemM>, root_id: i64)
    requires
        items_sorted(s),
    ensures
        0 <= root_lo(s, root_id) <= root_hi(s, root_id) <= s.len(),
        forall|k: int|
            0 <= k < root_lo(s, root_id) ==> (#[trigger] s[k]).root_path_id < root_id,
        forall|k: int|
            root_lo(s, root_id) <= k < root_hi(s, root_id) ==> (#[trigger] s[k]).root_path_id
                == root_id,
        forall|k: int|
            root_hi(s, root_id) <= k < s.len() ==> (#[trigger] s[k]).root_path_id > root_id,
    decreases s.len(),
{
    if s.len() > 0 {
        let d = s.drop_last();
        assert(items_sorted(d)) by {
            assert(forall|k: int| 0 <= k < d.len() ==> #[trigger] d[k] == s[k]);
        }
        lemma_root_bounds(d, root_id);
        let last = s.last();
        let lo = root_lo(d, root_id);
        let hi = root_hi(d, root_id);
        if last.root_path_id < root_id {
            // Everything before the last row sorts at or before it.
            assert forall|k: int| 0 <= k < d.len() implies (#[trigger] d[k]).root_path_id
                < root_id by {
                assert(d[k] == s[k]);
                assert(item_key_lt(s[k], last));
            }
            assert(lo == d.len()) by {
                if lo < d.len() {
                    if lo < hi {
                        assert(d[lo].root_path_id == root_id);
                    } else {
                        assert(d[lo].root_path_id > root_id);
                    }
                }
            }
            assert(hi == d.len()) by {
                if hi < d.len() {
                    assert(d[hi].root_path_id > root_id);
                }
            }
        } else if last.root_path_id == root_id {
            assert forall|k: int| 0 <= k < d.len() implies (#[trigger] d[k]).root_path_id
                <= root_id by {
                assert(d[k] == s[k]);
                assert(item_key_lt(s[k], last));
            }
            assert(hi == d.len()) by {
                if hi < d.len() {
                    assert(d[hi].root_path_id > root_id);
                }
            }
        }
        assert forall|k: int| 0 <= k < root_lo(s, root_id) implies (
        #[trigger] s[k]).root_path_id < root_id by {
            if k < d.len() {
                assert(k < lo);
                assert(d[k].root_path_id < root_id);
                assert(d[k] == s[k]);
            }
        }
        assert forall|k: int|
            root_lo(s, root_id) <= k < root_hi(s, root_id) implies (
        #[trigger] s[k]).root_path_id == root_id by {
            if k < d.len() {
                assert(lo <= k < hi);
                assert(d[k].root_path_id == root_id);
                assert(d[k] == s[k]);
            }
        }
        assert forall|k: int| root_hi(s, root_id) <= k < s.len() implies (
        #[trigger] s[k]).root_path_id > root_id by {
            if k < d.len() {
                assert(hi <= k);
                assert(d[k].root_path_id > root_id);
                assert(d[k] == s[k]);
            }
        }
    }
}

/// One row changed per path, nothing else: the merge keeps exactly one
/// output row per input row plus one per freshly added path.
pub proof fn lemma_merge_len(olds: Seq<ItemM>, es: Seq<EntryM>, root_id: i64, sid: i64,
    deep: bool, nid: i64)
    requires
        nid + es.len() <= i64::MAX,
    ensures
        merge_items(olds, es, root_id, sid, deep, nid).len() == olds.len() + (merge_next_id(
            olds,
            es,
            nid,
        ) - nid),
        merge_next_id(olds, es, nid) - nid <= es.len(),
        nid <= merge_next_id(olds, es, nid),
    decreases olds.len() + es.len(),
{
    if olds.len() == 0 && es.len() == 0 {
    } else if olds.len() > 0 && (es.len() == 0 || lex_lt(olds[0].path, es[0].path)) {
        lemma_merge_len(olds.drop_first(), es, root_id, sid, deep, nid);
    } else if olds.len() == 0 || lex_lt(es[0].path, olds[0].path) {
        lemma_merge_len(olds, es.drop_first(), root_id, sid, deep, (nid + 1) as i64);
    } else {
        lemma_merge_len(olds.drop_first(), es.drop_first(), root_id, sid, deep, nid);
    }
}

fn build_refreshed(id: i64, root_id: i64, e: &ObservedEntry, sid: i64) -> (r: Item)
    ensures
        r@ == refreshed_item(id, root_id, e@, sid),
{
    let is_file = e.item_type == ItemType::File;
    Item {
        id,
        root_path_id: root_id,
        path: bytes_dup(&e.path),
        item_type: e.item_type,
        last_seen_scan_id: sid,
        is_tombstone: false,
        last_modified: e.last_modified,
        file_size: if is_file {
            e.file_size
        } else {
            None
        },
        file_hash: if is_file {
            match &e.digest {
                Some(d) => Some(bytes_dup(d)),
                None => None,
            }
        } else {
            None
        },
    }
}

/// A linear search that stopped at the first row not below (resp.
/// beyond) a root pins the segment bounds.
proof fn lemma_pin_bounds(olds: Seq<ItemM>, root_id: i64, lo: int, hi: int)
    requires
        items_sorted(olds),
        0 <= lo <= hi <= olds.len(),
        forall|k: int| 0 <= k < lo ==> (#[trigger] olds[k]).root_path_id < root_id,
        lo == olds.len() || olds[lo].root_path_id >= root_id,
        forall|k: int| lo <= k < hi ==> (#[trigger] olds[k]).root_path_id == root_id,
        hi == olds.len() || olds[hi].root_path_id != root_id,
    ensures
        lo == root_lo(olds, root_id),
        hi == root_hi(olds, root_id),
{
    lemma_root_bounds(olds, root_id);
    let slo = root_lo(olds, root_id);
    let shi = root_hi(olds, root_id);
    if lo < slo {
        assert(olds[lo].root_path_id < root_id);
    }
    if slo < lo {
        assert(olds[slo].root_path_id < root_id);
        if slo < shi {
            assert(olds[slo].root_path_id == root_id);
        } else {
            assert(olds[slo].root_path_id > root_id);
        }
    }
    if hi < shi {
        assert(olds[hi].root_path_id == root_id);
    }
    if shi < hi {
        assert(olds[shi].root_path_id == root_id);
        assert(olds[shi].root_path_id > root_id);
    }
}

/// Shifts one produced element from the pending side of a merge
/// equation to the produced side.
proof fn lemma_step<A>(full: Seq<A>, prod: Seq<A>, head: A, rest: Seq<A>)
    requires
        full == prod + (seq![head] + rest),
    ensures
        full == prod.push(head) + rest,
{
    assert(prod.push(head) + rest =~= prod + (seq![head] + rest));
}

/// Pushing onto a sequence commutes with dropping a fixed prefix.
proof fn lemma_push_skip<A>(s: Seq<A>, x: A, n: int)
    requires
        0 <= n <= s.len(),
    ensures
        s.push(x).skip(n) == s.skip(n).push(x),
{
    assert(s.push(x).skip(n) =~= s.skip(n).push(x));
}

/// Pushing onto a sequence leaves a fixed prefix untouched.
proof fn lemma_push_take<A>(s: Seq<A>, x: A, n: int)
    requires
        0 <= n <= s.len(),
    ensures
        s.push(x).subrange(0, n) == s.subrange(0, n),
{
    assert(s.push(x).subrange(0, n) =~= s.subrange(0, n));
}

/// Appends one row, tracking the model sequence.
fn push_item(out: &mut Vec<Item>, d: Item)
    ensures
        final(out)@.map_values(|x: Item| x@) == old(out)@.map_values(|x: Item| x@).push(d@),
        final(out)@.len() == old(out)@.len() + 1,
{
    let ghost m0 = out@.map_values(|x: Item| x@);
    let ghost dd = d@;
    out.push(d);
    proof {
        assert(out@.map_values(|x: Item| x@) =~= m0.push(dd));
    }
}

impl Store {
    /// Committing the merged segment, its change rows and the advanced
    /// id counter preserves the store's well-formedness.
    #[verifier::rlimit(100)]
    #[verifier::spinoff_prover]
    proof fn lemma_reconcile_restores(
        self,
        s0: Store,
        scan_id: i64,
        root_id: i64,
        deep: bool,
        es: Seq<EntryM>,
        lo: int,
        hi: int,
    )
        requires
            s0.wf(),
            1 <= scan_id <= s0.scans@.len(),
            s0.scans@[scan_id - 1].root_path_id == root_id,
            lo == root_lo(s0.itemsm(), root_id),
            hi == root_hi(s0.itemsm(), root_id),
            entries_sorted(es),
            s0.next_item_id + es.len() <= i64::MAX,
            s0.changes@.len() + s0.items@.len() + es.len() < i64::MAX,
            self.roots@ == s0.roots@,
            self.scans@ == s0.scans@,
            self.in_progress@ == s0.in_progress@,
            self.itemsm() == s0.itemsm().subrange(0, lo) + merge_items(
                s0.itemsm().subrange(lo, hi),
                es,
                root_id,
                scan_id,
                deep,
                s0.next_item_id,
            ) + s0.itemsm().subrange(hi, s0.itemsm().len() as int),
            self.changes@ == s0.changes@ + merge_changes(
                s0.itemsm().subrange(lo, hi),
                es,
                scan_id,
                deep,
                s0.next_item_id,
            ),
            self.next_item_id == merge_next_id(
                s0.itemsm().subrange(lo, hi),
                es,
                s0.next_item_id,
            ),
        ensures
            self.wf(),
            self.rootsm() == s0.rootsm(),
    {
        let olds = s0.itemsm();
        let nid0 = s0.next_item_id;
        let seg = olds.subrange(lo, hi);
        lemma_root_bounds(olds, root_id);
        assert(seg_wf(seg, root_id, nid0)) by {
            assert(forall|k: int| 0 <= k < seg.len() ==> #[trigger] seg[k] == olds[lo + k]);
            assert forall|k: int, l: int|
                0 <= k < l < seg.len() implies lex_lt(
                (#[trigger] seg[k]).path,
                (#[trigger] seg[l]).path,
            ) by {
                assert(item_key_lt(olds[lo + k], olds[lo + l]));
            }
            assert forall|k: int| 0 <= k < seg.len() implies 1 <= (#[trigger] seg[k]).id < nid0
                && (seg[k].item_type == ItemType::Directory ==> seg[k].file_size is None
                && seg[k].file_hash is None) by {
                assert(s0.item_ok(olds[lo + k]));
            }
            assert forall|k: int, l: int|
                0 <= k < l < seg.len() implies (#[trigger] seg[k]).id != (
            #[trigger] seg[l]).id by {
                assert(olds[lo + k].id != olds[lo + l].id);
            }
        }
        lemma_merge_props(seg, es, root_id, scan_id, deep, nid0);
        lemma_merge_len(seg, es, root_id, scan_id, deep, nid0);
        let merged = merge_items(seg, es, root_id, scan_id, deep, nid0);
        let mch = merge_changes(seg, es, scan_id, deep, nid0);
        let n2 = merge_next_id(seg, es, nid0);
        let news = self.itemsm();
        let l1 = lo + merged.len();
        let nn = news.len() as int;
        assert(nn == lo + merged.len() + (olds.len() - hi));
        assert forall|t: int| 0 <= t < lo implies #[trigger] news[t] == olds[t] by {}
        assert forall|t: int| lo <= t < l1 implies #[trigger] news[t] == merged[t - lo] by {}
        assert forall|t: int| l1 <= t < nn implies #[trigger] news[t] == olds[t - l1 + hi] by {}
        // The table lengths and the id counter stay in step.
        assert(self.items@.len() == self.next_item_id - 1);
        // Roots and scans are untouched.
        assert(self.rootsm() =~= s0.rootsm());
        assert forall|i: int| 0 <= i < self.roots@.len() implies (
        #[trigger] self.rootsm()[i]).id == i + 1 by {
            assert(s0.rootsm()[i].id == i + 1);
        }
        assert forall|i: int, j: int|
            0 <= i < j < self.roots@.len() implies self.rootsm()[i].path
            != self.rootsm()[j].path by {
            assert(s0.rootsm()[i].path != s0.rootsm()[j].path);
        }
        assert forall|i: int| 0 <= i < self.scans@.len() implies (
        #[trigger] self.scans@[i]).id == i + 1 && self.scan_ok(self.scans@[i]) by {
            assert(s0.scans@[i].id == i + 1 && s0.scan_ok(s0.scans@[i]));
        }
        // Sorted order across the three slices of the new table.
        assert forall|a: int, b: int| 0 <= a < b < nn implies item_key_lt(
            #[trigger] news[a],
            #[trigger] news[b],
        ) by {
            if a < lo {
                assert(news[a] == olds[a]);
                assert(olds[a].root_path_id < root_id);
            } else if a < l1 {
                assert(news[a] == merged[a - lo]);
                assert(news[a].root_path_id == root_id);
            } else {
                assert(news[a] == olds[a - l1 + hi]);
                assert(olds[a - l1 + hi].root_path_id > root_id);
            }
            if b < lo {
                assert(news[b] == olds[b]);
                assert(olds[b].root_path_id < root_id);
                assert(item_key_lt(olds[a], olds[b]));
            } else if b < l1 {
                assert(news[b] == merged[b - lo]);
                assert(news[b].root_path_id == root_id);
                if lo <= a {
                    assert(lex_lt(merged[a - lo].path, merged[b - lo].path));
                }
            } else {
                assert(news[b] == olds[b - l1 + hi]);
                assert(olds[b - l1 + hi].root_path_id > root_id);
                if a < lo {
                    assert(item_key_lt(olds[a], olds[b - l1 + hi]));
                }
            }
        }
        // Every row is internally valid.
        assert forall|t: int| 0 <= t < nn implies self.item_ok(#[trigger] news[t]) by {
            if t < lo {
                assert(news[t] == olds[t]);
                assert(s0.item_ok(olds[t]));
            } else if t < l1 {
                assert(news[t] == merged[t - lo]);
                if news[t].last_seen_scan_id != scan_id {
                    let j = choose|j: int|
                        0 <= j < seg.len() && news[t].last_seen_scan_id == (
                        #[trigger] seg[j]).last_seen_scan_id;
                    assert(s0.item_ok(olds[lo + j]));
                    assert(olds[lo + j].root_path_id == root_id);
                }
            } else {
                assert(news[t] == olds[t - l1 + hi]);
                assert(s0.item_ok(olds[t - l1 + hi]));
            }
        }
        // Ids stay globally unique: kept rows keep theirs, fresh rows
        // mint above everything older.
        assert forall|a: int, b: int| 0 <= a < b < nn implies (#[trigger] news[a]).id != (
        #[trigger] news[b]).id by {
            if lo <= a < l1 && lo <= b < l1 {
            } else {
                let ia: int = if a < lo {
                    a
                } else {
                    a - l1 + hi
                };
                let ib: int = if b < lo {
                    b
                } else {
                    b - l1 + hi
                };
                if a < lo || a >= l1 {
                    assert(news[a] == olds[ia]);
                    assert(s0.item_ok(olds[ia]));
                }
                if b < lo || b >= l1 {
                    assert(news[b] == olds[ib]);
                    assert(s0.item_ok(olds[ib]));
                }
                if (a < lo || a >= l1) && (b < lo || b >= l1) {
                    assert(olds[ia].id != olds[ib].id);
                } else if lo <= a < l1 {
                    // a merged, b old (outside the segment)
                    if exists|j: int|
                        0 <= j < seg.len() && (#[trigger] news[a]).id == (
                        #[trigger] seg[j]).id {
                        let j = choose|j: int|
                            0 <= j < seg.len() && (#[trigger] news[a]).id == (
                            #[trigger] seg[j]).id;
                        assert(seg[j] == olds[lo + j]);
                        assert(olds[lo + j].id != olds[ib].id);
                    } else {
                        assert(nid0 <= news[a].id);
                        assert(olds[ib].id < nid0);
                    }
                } else {
                    // b merged, a old (outside the segment)
                    if exists|j: int|
                        0 <= j < seg.len() && (#[trigger] news[b]).id == (
                        #[trigger] seg[j]).id {
                        let j = choose|j: int|
                            0 <= j < seg.len() && (#[trigger] news[b]).id == (
                            #[trigger] seg[j]).id;
                        assert(seg[j] == olds[lo + j]);
                        assert(olds[lo + j].id != olds[ia].id);
                    } else {
                        assert(nid0 <= news[b].id);
                        assert(olds[ia].id < nid0);
                    }
                }
            }
        }
        // The change ledger stays valid.
        assert forall|i: int| 0 <= i < self.changes@.len() implies self.change_ok(
            #[trigger] self.changes@[i],
        ) by {
            if i < s0.changes@.len() {
                assert(self.changes@[i] == s0.changes@[i]);
                assert(s0.change_ok(s0.changes@[i]));
            } else {
                assert(self.changes@[i] == mch[i - s0.changes@.len()]);
            }
        }
        // Leases reference the unchanged scan ledger.
        assert forall|i: int| 0 <= i < self.in_progress@.len() implies 1 <= (
        #[trigger] self.in_progress@[i]) <= self.scans@.len() && !self.scans@[
        self.in_progress@[i] - 1].is_complete by {
            assert(1 <= (#[trigger] s0.in_progress@[i]) <= s0.scans@.len() && !s0.scans@[
            s0.in_progress@[i] - 1].is_complete);
        }
        assert forall|i: int, j: int|
            0 <= i < j < self.in_progress@.len() implies self.scans@[(
        #[trigger] self.in_progress@[i]) - 1].root_path_id != self.scans@[(
        #[trigger] self.in_progress@[j]) - 1].root_path_id by {
            assert(s0.scans@[(#[trigger] s0.in_progress@[i]) - 1].root_path_id != s0.scans@[(
            #[trigger] s0.in_progress@[j]) - 1].root_path_id);
        }
        assert forall|i: int, k2: int|
            0 <= i < self.in_progress@.len() && (#[trigger] self.in_progress@[i]) <= k2
            < self.scans@.len() implies (#[trigger] self.scans@[k2]).root_path_id
            != self.scans@[self.in_progress@[i] - 1].root_path_id by {
            assert(s0.scans@[k2].root_path_id != s0.scans@[(#[trigger] s0.in_progress@[i])
                - 1].root_path_id);
        }
    }

    /// Reconciles an in-progress scan against its walker stream.
    ///
    /// `entries` is everything the walker observed under the scan's
    /// root, in strictly ascending path order, with digests already
    /// computed where the hashing policy required them. The merge
    /// walks the root's stored segment and the stream in lockstep and
    /// commits exactly what the merge specification says: adds insert
    /// or resurrect rows, deletes tombstone rows, classified updates
    /// rewrite rows in place, and one change row is appended per
    /// non-`NoChange` outcome, in path order. The scan row itself is
    /// not touched: it stays incomplete until `scan_finalize`.
    #[verifier::rlimit(100)]
    #[verifier::spinoff_prover]
    pub fn reconcile(&mut self, scan_id: i64, entries: &Vec<ObservedEntry>) -> (r: Result<
        (),
        crate::AuditError,
    >)
        requires
            old(self).wf(),
            entries_sorted(entries@.map_values(|e: ObservedEntry| e@)),
            old(self).next_item_id + entries@.len() <= i64::MAX,
            old(self).changes@.len() + old(self).items@.len() + entries@.len() < i64::MAX,
        ensures
            final(self).wf(),
            final(self).rootsm() == old(self).rootsm(),
            final(self).scans@ == old(self).scans@,
            final(self).in_progress@ == old(self).in_progress@,
            match r {
                Ok(_) => ({
                    let root_id = old(self).scans@[scan_id - 1].root_path_id;
                    let deep = old(self).scans@[scan_id - 1].is_deep;
                    let olds = old(self).itemsm();
                    let lo = root_lo(olds, root_id);
                    let hi = root_hi(olds, root_id);
                    let seg = olds.subrange(lo, hi);
                    let es = entries@.map_values(|e: ObservedEntry| e@);
                    &&& 1 <= scan_id <= old(self).scans@.len()
                    &&& !old(self).scans@[scan_id - 1].is_complete
                    &&& old(self).in_progress@.contains(scan_id)
                    &&& final(self).itemsm() == olds.subrange(0, lo) + merge_items(
                        seg,
                        es,
                        root_id,
                        scan_id,
                        deep,
                        old(self).next_item_id,
                    ) + olds.subrange(hi, olds.len() as int)
                    &&& final(self).changes@ == old(self).changes@ + merge_changes(
                        seg,
                        es,
                        scan_id,
                        deep,
                        old(self).next_item_id,
                    )
                    &&& final(self).next_item_id == merge_next_id(
                        seg,
                        es,
                        old(self).next_item_id,
                    )
                }),
                Err(e) => {
                    &&& final(self).itemsm() == old(self).itemsm()
                    &&& final(self).changes@ == old(self).changes@
                    &&& final(self).next_item_id == old(self).next_item_id
                    &&& if !(1 <= scan_id <= old(self).scans@.len()) {
                        e == (crate::AuditError::ScanNotFound { scan_id })
                    } else if old(self).scans@[scan_id - 1].is_complete {
                        e == (crate::AuditError::ScanAlreadyComplete { scan_id })
                    } else {
                        e == (crate::AuditError::ScanNotInProgress { scan_id })
                            && !old(self).in_progress@.contains(scan_id)
                    }
                },
            },
    {
        if scan_id < 1 || scan_id > self.scans.len() as i64 {
            return Err(crate::AuditError::ScanNotFound { scan_id });
        }
        let sidx: usize = (scan_id - 1) as usize;
        if self.scans[sidx].is_complete {
            return Err(crate::AuditError::ScanAlreadyComplete { scan_id });
        }
        match self.find_lease(scan_id) {
            None => {
                return Err(crate::AuditError::ScanNotInProgress { scan_id });
            },
            Some(lease_at) => {
                proof {
                    assert(old(self).in_progress@.contains(scan_id)) by {
                        assert(old(self).in_progress@[lease_at as int] == scan_id);
                    }
                }
            },
        }
        let root_id: i64 = self.scans[sidx].root_path_id;
        let deep: bool = self.scans[sidx].is_deep;
        let ghost s0 = *old(self);
        let ghost olds_all = self.itemsm();
        let ghost es = entries@.map_values(|e: ObservedEntry| e@);
        let ghost nid0 = self.next_item_id;
        let ghost ch0 = self.changes@;
        proof {
            lemma_root_bounds(olds_all, root_id);
        }
        let n: usize = self.items.len();
        let m: usize = entries.len();
        let mut lo: usize = 0;
        while lo < n && self.items[lo].root_path_id < root_id
            invariant
                olds_all == self.itemsm(),
                n == self.items@.len(),
                lo <= n,
                forall|k: int| 0 <= k < lo ==> (#[trigger] olds_all[k]).root_path_id < root_id,
            decreases n - lo,
        {
            lo = lo + 1;
        }
        let mut hi: usize = lo;
        while hi < n && self.items[hi].root_path_id == root_id
            invariant
                olds_all == self.itemsm(),
                n == self.items@.len(),
                lo <= hi <= n,
                forall|k: int| lo <= k < hi ==> (#[trigger] olds_all[k]).root_path_id == root_id,
            decreases n - hi,
        {
            hi = hi + 1;
        }
        proof {
            lemma_pin_bounds(olds_all, root_id, lo as int, hi as int);
        }
        let ghost seg = olds_all.subrange(lo as int, hi as int);
        let ghost merged = merge_items(seg, es, root_id, scan_id, deep, nid0);
        let ghost merged_ch = merge_changes(seg, es, scan_id, deep, nid0);
        let ghost nid_end = merge_next_id(seg, es, nid0);
        let mut out: Vec<Item> = Vec::new();
        let mut i: usize = 0;
        while i < lo
            invariant
                olds_all == self.itemsm(),
                n == self.items@.len(),
                lo <= hi <= n,
                i <= lo,
                out@.map_values(|x: Item| x@) == olds_all.subrange(0, i as int),
            decreases lo - i,
        {
            let d = self.items[i].duplicate();
            let ghost out0 = out@.map_values(|x: Item| x@);
            push_item(&mut out, d);
            proof {
                assert(out0.push(olds_all[i as int]) =~= olds_all.subrange(0, i + 1));
            }
            i = i + 1;
        }
        proof {
            assert(out@.map_values(|x: Item| x@).skip(lo as int) =~= Seq::<ItemM>::empty());
            assert(seg.skip(0) =~= seg);
            assert(es.skip(0) =~= es);
            assert(Seq::<ItemM>::empty() + merged =~= merged);
            assert(self.changes@.skip(ch0.len() as int) =~= Seq::<Change>::empty());
            assert(Seq::<Change>::empty() + merged_ch =~= merged_ch);
            assert(out@.map_values(|x: Item| x@).subrange(0, lo as int) =~= olds_all.subrange(
                0,
                lo as int,
            ));
            assert(self.changes@.subrange(0, ch0.len() as int) =~= ch0);
        }
        let mut j: usize = lo;
        let mut k: usize = 0;
        while j < hi || k < m
            invariant
                self.roots@ == s0.roots@,
                self.scans@ == s0.scans@,
                self.items@ == s0.items@,
                self.in_progress@ == s0.in_progress@,
                olds_all == self.itemsm(),
                es == entries@.map_values(|e: ObservedEntry| e@),
                seg == olds_all.subrange(lo as int, hi as int),
                n == self.items@.len(),
                m == entries@.len(),
                lo <= j <= hi <= n,
                k <= m,
                nid0 + m <= i64::MAX,
                nid0 <= self.next_item_id <= nid0 + k,
                self.changes@.len() >= ch0.len(),
                self.changes@.subrange(0, ch0.len() as int) == ch0,
                out@.len() >= lo,
                out@.map_values(|x: Item| x@).subrange(0, lo as int) == olds_all.subrange(
                    0,
                    lo as int,
                ),
                merged == out@.map_values(|x: Item| x@).skip(lo as int) + merge_items(
                    seg.skip(j as int - lo as int),
                    es.skip(k as int),
                    root_id,
                    scan_id,
                    deep,
                    self.next_item_id,
                ),
                merged_ch == self.changes@.skip(ch0.len() as int) + merge_changes(
                    seg.skip(j as int - lo as int),
                    es.skip(k as int),
                    scan_id,
                    deep,
                    self.next_item_id,
                ),
                nid_end == merge_next_id(
                    seg.skip(j as int - lo as int),
                    es.skip(k as int),
                    self.next_item_id,
                ),
            decreases (hi - j) + (m - k),
        {
            let ghost rem_o = seg.skip(j as int - lo as int);
            let ghost rem_e = es.skip(k as int);
            let ghost out0 = out@.map_values(|x: Item| x@);
            let ghost ch_pre = self.changes@;
            let ghost nid_pre = self.next_item_id;
            proof {
                assert(rem_o.len() == hi - j);
                assert(rem_e.len() == m - k);
                if j < hi {
                    assert(rem_o[0] == olds_all[j as int]);
                    assert(olds_all[j as int] == self.items@[j as int]@);
                }
                if k < m {
                    assert(rem_e[0] == entries@[k as int]@);
                }
            }
            let take_old: bool;
            let take_new: bool;
            if j >= hi {
                take_old = false;
                take_new = true;
            } else if k >= m {
                take_old = true;
                take_new = false;
            } else {
                match path_cmp(&self.items[j].path, &entries[k].path) {
                    PathOrder::Before => {
                        take_old = true;
                        take_new = false;
                    },
                    PathOrder::After => {
                        take_old = false;
                        take_new = true;
                    },
                    PathOrder::Same => {
                        take_old = true;
                        take_new = true;
                    },
                }
            }
            if take_old && !take_new {
                proof {
                    if k < m {
                        assert(lex_lt(rem_o[0].path, rem_e[0].path));
                    }
                }
                let it = &self.items[j];
                if it.is_tombstone {
                    let d = it.duplicate();
                    push_item(&mut out, d);
                    proof {
                        assert(rem_o.drop_first() =~= seg.skip(j + 1 - lo as int));
                        lemma_push_skip(out0, rem_o[0], lo as int);
                        lemma_push_take(out0, rem_o[0], lo as int);
                        lemma_step(
                            merged,
                            out0.skip(lo as int),
                            rem_o[0],
                            merge_items(
                                rem_o.drop_first(),
                                rem_e,
                                root_id,
                                scan_id,
                                deep,
                                nid_pre,
                            ),
                        );
                    }
                } else {
                    let mut d = it.duplicate();
                    d.is_tombstone = true;
                    let it_id = d.id;
                    push_item(&mut out, d);
                    self.changes.push(
                        Change {
                            scan_id,
                            item_id: it_id,
                            change_type: ChangeType::Delete,
                            metadata_changed: None,
                            hash_changed: None,
                        },
                    );
                    proof {
                        assert(rem_o.drop_first() =~= seg.skip(j + 1 - lo as int));
                        lemma_push_skip(out0, tombstoned_item(rem_o[0]), lo as int);
                        lemma_push_take(out0, tombstoned_item(rem_o[0]), lo as int);
                        lemma_step(
                            merged,
                            out0.skip(lo as int),
                            tombstoned_item(rem_o[0]),
                            merge_items(
                                rem_o.drop_first(),
                                rem_e,
                                root_id,
                                scan_id,
                                deep,
                                nid_pre,
                            ),
                        );
                        let c = change_for(scan_id, rem_o[0].id, Outcome::Delete);
                        lemma_push_skip(ch_pre, c, ch0.len() as int);
                        lemma_push_take(ch_pre, c, ch0.len() as int);
                        lemma_step(
                            merged_ch,
                            ch_pre.skip(ch0.len() as int),
                            c,
                            merge_changes(rem_o.drop_first(), rem_e, scan_id, deep, nid_pre),
                        );
                    }
                }
                j = j + 1;
            } else if !take_old {
                proof {
                    if j < hi {
                        assert(lex_lt(rem_e[0].path, rem_o[0].path));
                    }
                }
                proof {
                    assert(k < m);
                    assert(nid0 + m <= i64::MAX);
                }
                let id = self.next_item_id;
                let fresh = build_refreshed(id, root_id, &entries[k], scan_id);
                push_item(&mut out, fresh);
                self.changes.push(
                    Change {
                        scan_id,
                        item_id: id,
                        change_type: ChangeType::Add,
                        metadata_changed: None,
                        hash_changed: None,
                    },
                );
                self.next_item_id = self.next_item_id + 1;
                proof {
                    assert(rem_e.drop_first() =~= es.skip(k + 1));
                    lemma_push_skip(out0, refreshed_item(id, root_id, rem_e[0], scan_id),
                        lo as int);
                    lemma_push_take(out0, refreshed_item(id, root_id, rem_e[0], scan_id),
                        lo as int);
                    lemma_step(
                        merged,
                        out0.skip(lo as int),
                        refreshed_item(id, root_id, rem_e[0], scan_id),
                        merge_items(
                            rem_o,
                            rem_e.drop_first(),
                            root_id,
                            scan_id,
                            deep,
                            self.next_item_id,
                        ),
                    );
                    let c = change_for(scan_id, id, Outcome::Add);
                    lemma_push_skip(ch_pre, c, ch0.len() as int);
                    lemma_push_take(ch_pre, c, ch0.len() as int);
                    lemma_step(
                        merged_ch,
                        ch_pre.skip(ch0.len() as int),
                        c,
                        merge_changes(rem_o, rem_e.drop_first(), scan_id, deep,
                            self.next_item_id),
                    );
                }
                k = k + 1;
            } else {
                proof {
                    assert(rem_o[0].path == rem_e[0].path);
                    crate::paths::lemma_lex_irrefl(rem_o[0].path);
                    assert(rem_o.drop_first() =~= seg.skip(j + 1 - lo as int));
                    assert(rem_e.drop_first() =~= es.skip(k + 1));
                }
                let it_id = self.items[j].id;
                let it_tomb = self.items[j].is_tombstone;
                if it_tomb {
                    let fresh = build_refreshed(it_id, root_id, &entries[k], scan_id);
                    push_item(&mut out, fresh);
                    self.changes.push(
                        Change {
                            scan_id,
                            item_id: it_id,
                            change_type: ChangeType::Add,
                            metadata_changed: None,
                            hash_changed: None,
                        },
                    );
                    proof {
                        let h = refreshed_item(it_id, root_id, rem_e[0], scan_id);
                        lemma_push_skip(out0, h, lo as int);
                        lemma_push_take(out0, h, lo as int);
                        lemma_step(
                            merged,
                            out0.skip(lo as int),
                            h,
                            merge_items(
                                rem_o.drop_first(),
                                rem_e.drop_first(),
                                root_id,
                                scan_id,
                                deep,
                                nid_pre,
                            ),
                        );
                        let c = change_for(scan_id, it_id, Outcome::Add);
                        lemma_push_skip(ch_pre, c, ch0.len() as int);
                        lemma_push_take(ch_pre, c, ch0.len() as int);
                        lemma_step(
                            merged_ch,
                            ch_pre.skip(ch0.len() as int),
                            c,
                            merge_changes(
                                rem_o.drop_first(),
                                rem_e.drop_first(),
                                scan_id,
                                deep,
                                nid_pre,
                            ),
                        );
                    }
                } else {
                    let it = &self.items[j];
                    let st = ItemState {
                        item_type: it.item_type,
                        last_modified: it.last_modified,
                        file_size: it.file_size,
                        file_hash: match &it.file_hash {
                            Some(h) => Some(bytes_dup(h)),
                            None => None,
                        },
                    };
                    proof {
                        assert(st@ == rem_o[0].state());
                    }
                    let o = classify(Some(&st), Some(&entries[k]), deep);
                    let nochange = match o {
                        Outcome::NoChange => true,
                        _ => false,
                    };
                    if nochange {
                        let mut d = self.items[j].duplicate();
                        d.last_seen_scan_id = scan_id;
                        push_item(&mut out, d);
                        proof {
                            let h = ItemM { last_seen_scan_id: scan_id, ..rem_o[0] };
                            lemma_push_skip(out0, h, lo as int);
                            lemma_push_take(out0, h, lo as int);
                            lemma_step(
                                merged,
                                out0.skip(lo as int),
                                h,
                                merge_items(
                                    rem_o.drop_first(),
                                    rem_e.drop_first(),
                                    root_id,
                                    scan_id,
                                    deep,
                                    nid_pre,
                                ),
                            );
                        }
                    } else {
                        let fresh = build_refreshed(it_id, root_id, &entries[k], scan_id);
                        push_item(&mut out, fresh);
                        let ct = o.change_type();
                        let mc: Option<bool>;
                        let hc: Option<bool>;
                        match o {
                            Outcome::Modify { metadata_changed, hash_changed } => {
                                mc = Some(metadata_changed);
                                hc = hash_changed;
                            },
                            _ => {
                                mc = None;
                                hc = None;
                            },
                        }
                        self.changes.push(
                            Change {
                                scan_id,
                                item_id: it_id,
                                change_type: ct,
                                metadata_changed: mc,
                                hash_changed: hc,
                            },
                        );
                        proof {
                            let h = refreshed_item(it_id, root_id, rem_e[0], scan_id);
                            lemma_push_skip(out0, h, lo as int);
                            lemma_push_take(out0, h, lo as int);
                            lemma_step(
                                merged,
                                out0.skip(lo as int),
                                h,
                                merge_items(
                                    rem_o.drop_first(),
                                    rem_e.drop_first(),
                                    root_id,
                                    scan_id,
                                    deep,
                                    nid_pre,
                                ),
                            );
                            let c = change_for(scan_id, it_id, o);
                            lemma_push_skip(ch_pre, c, ch0.len() as int);
                            lemma_push_take(ch_pre, c, ch0.len() as int);
                            lemma_step(
                                merged_ch,
                                ch_pre.skip(ch0.len() as int),
                                c,
                                merge_changes(
                                    rem_o.drop_first(),
                                    rem_e.drop_first(),
                                    scan_id,
                                    deep,
                                    nid_pre,
                                ),
                            );
                        }
                    }
                }
                j = j + 1;
                k = k + 1;
            }
        }
        proof {
            assert(seg.skip(j as int - lo as int) =~= Seq::<ItemM>::empty());
            assert(es.skip(k as int) =~= Seq::<EntryM>::empty());
            assert(merged == out@.map_values(|x: Item| x@).skip(lo as int));
            assert(merged_ch == self.changes@.skip(ch0.len() as int));
            assert(nid_end == self.next_item_id);
            assert(self.changes@ =~= ch0 + merged_ch);
        }
        let mut i2: usize = hi;
        while i2 < n
            invariant
                olds_all == self.itemsm(),
                n == self.items@.len(),
                hi <= i2 <= n,
                out@.map_values(|x: Item| x@) == olds_all.subrange(0, lo as int) + merged
                    + olds_all.subrange(hi as int, i2 as int),
            decreases n - i2,
        {
            let d = self.items[i2].duplicate();
            let ghost out0 = out@.map_values(|x: Item| x@);
            push_item(&mut out, d);
            proof {
                assert(out0.push(olds_all[i2 as int]) =~= olds_all.subrange(0, lo as int)
                    + merged + olds_all.subrange(hi as int, i2 + 1));
            }
            i2 = i2 + 1;
        }
        self.items = out;
        proof {
            self.lemma_reconcile_restores(
                s0,
                scan_id,
                root_id,
                deep,
                es,
                lo as int,
                hi as int,
            );
        }
        Ok(())
    }
}

} // verus!
