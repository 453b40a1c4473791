//! The snapshot store: root registrations, scans, items and changes.
//!
//! The store is the relational model the engine reconciles against:
//! an append-only scan ledger, an item table sorted by (root, path)
//! holding one row per path ever observed under a root (tombstoned
//! rather than deleted, and reused on resurrection, so a path's whole
//! change history forms one lineage), and an append-only change
//! ledger. Callers persist it however they like; the engine only
//! requires the well-formedness invariant `wf`.

use vstd::prelude::*;
use crate::changes::{ChangeType, ChangeCounts};
use crate::classify::{ItemType, ItemState, ItemStateM, opt_bytes_view};
use crate::paths::{lex_lt, bytes_eq, bytes_dup, path_cmp, PathOrder};

verus! {

/// One registered directory under audit.
#[derive(Debug)]
pub struct RootPath {
    pub id: i64,
    pub path: Vec<u8>,
}

/// Mathematical model of a registered root.
pub struct RootM {
    pub id: i64,
    pub path: Seq<u8>,
}

impl View for RootPath {
    type V = RootM;

    open spec fn view(&self) -> RootM {
        RootM { id: self.id, path: self.path@ }
    }
}

/// One reconciliation run against a root.
///
/// Counts are unset until the scan completes; a scan row is never
/// mutated again once `is_complete` holds.
#[derive(Debug, Copy, Clone)]
pub struct Scan {
    pub id: i64,
    pub root_path_id: i64,
    pub time_of_scan: i64,
    pub is_deep: bool,
    pub is_complete: bool,
    pub file_count: Option<i64>,
    pub folder_count: Option<i64>,
}

/// The durable record of one filesystem entry's last-known state.
#[derive(Debug)]
pub struct Item {
    pub id: i64,
    pub root_path_id: i64,
    pub path: Vec<u8>,
    pub item_type: ItemType,
    pub last_seen_scan_id: i64,
    pub is_tombstone: bool,
    pub last_modified: i64,
    pub file_size: Option<i64>,
    pub file_hash: Option<Vec<u8>>,
}

/// Mathematical model of an item row.
pub struct ItemM {
    pub id: i64,
    pub root_path_id: i64,
    pub path: Seq<u8>,
    pub item_type: ItemType,
    pub last_seen_scan_id: i64,
    pub is_tombstone: bool,
    pub last_modified: i64,
    pub file_size: Option<i64>,
    pub file_hash: Option<Seq<u8>>,
}

impl View for Item {
    type V = ItemM;

    open spec fn view(&self) -> ItemM {
        ItemM {
            id: self.id,
            root_path_id: self.root_path_id,
            path: self.path@,
            item_type: self.item_type,
            last_seen_scan_id: self.last_seen_scan_id,
            is_tombstone: self.is_tombstone,
            last_modified: self.last_modified,
            file_size: self.file_size,
            file_hash: opt_bytes_view(self.file_hash),
        }
    }
}

impl ItemM {
    /// The slice of this row the classifier compares against.
    pub open spec fn state(self) -> ItemStateM {
        ItemStateM {
            item_type: self.item_type,
            last_modified: self.last_modified,
            file_size: self.file_size,
            file_hash: self.file_hash,
        }
    }
}

/// One persisted delta: produced by exactly one scan for exactly one
/// item, immutable once written.
#[derive(Debug, Copy, Clone)]
pub struct Change {
    pub scan_id: i64,
    pub item_id: i64,
    pub change_type: ChangeType,
    pub metadata_changed: Option<bool>,
    pub hash_changed: Option<bool>,
}

/// Strict (root, path) order on item rows.
pub open spec fn item_key_lt(a: ItemM, b: ItemM) -> bool {
    a.root_path_id < b.root_path_id || (a.root_path_id == b.root_path_id && lex_lt(
        a.path,
        b.path,
    ))
}

pub open spec fn items_sorted(s: Seq<ItemM>) -> bool {
    forall|i: int, j: int| 0 <= i < j < s.len() ==> item_key_lt(s[i], s[j])
}

/// The latest complete scan for a root within a scan ledger, by
/// position; incomplete (failed or in-progress) scans are skipped.
pub open spec fn latest_complete_in(scans: Seq<Scan>, root_id: i64) -> Option<int>
    decreases scans.len(),
{
    if scans.len() == 0 {
        None
    } else if scans.last().root_path_id == root_id && scans.last().is_complete {
        Some(scans.len() - 1)
    } else {
        latest_complete_in(scans.drop_last(), root_id)
    }
}

/// The snapshot store.
pub struct Store {
    pub roots: Vec<RootPath>,
    pub scans: Vec<Scan>,
    pub items: Vec<Item>,
    pub changes: Vec<Change>,
    pub next_item_id: i64,
    pub in_progress: Vec<i64>,
}

impl Store {
    pub open spec fn rootsm(self) -> Seq<RootM> {
        self.roots@.map_values(|r: RootPath| r@)
    }

    pub open spec fn itemsm(self) -> Seq<ItemM> {
        self.items@.map_values(|it: Item| it@)
    }

    pub open spec fn roots_wf(self) -> bool {
        &&& self.roots@.len() < i64::MAX
        &&& forall|i: int| 0 <= i < self.roots@.len() ==> (#[trigger] self.rootsm()[i]).id == i + 1
        &&& forall|i: int, j: int|
            0 <= i < j < self.roots@.len() ==> self.rootsm()[i].path != self.rootsm()[j].path
    }

    pub open spec fn scan_ok(self, s: Scan) -> bool {
        &&& 1 <= s.root_path_id <= self.roots@.len()
        &&& s.is_complete ==> s.file_count is Some && s.folder_count is Some
        &&& !s.is_complete ==> s.file_count is None && s.folder_count is None
    }

    pub open spec fn scans_wf(self) -> bool {
        &&& self.scans@.len() < i64::MAX
        &&& forall|i: int|
            0 <= i < self.scans@.len() ==> (#[trigger] self.scans@[i]).id == i + 1
                && self.scan_ok(self.scans@[i])
    }

    pub open spec fn item_ok(self, it: ItemM) -> bool {
        &&& 1 <= it.root_path_id <= self.roots@.len()
        &&& 1 <= it.last_seen_scan_id <= self.scans@.len()
        &&& self.scans@[it.last_seen_scan_id - 1].root_path_id == it.root_path_id
        &&& 1 <= it.id < self.next_item_id
        &&& it.item_type == ItemType::Directory ==> it.file_size is None && it.file_hash is None
    }

    pub open spec fn items_wf(self) -> bool {
        &&& 1 <= self.next_item_id <= i64::MAX
        &&& self.items@.len() == self.next_item_id - 1
        &&& items_sorted(self.itemsm())
        &&& forall|i: int| 0 <= i < self.items@.len() ==> self.item_ok(#[trigger] self.itemsm()[i])
        &&& forall|i: int, j: int|
            0 <= i < j < self.items@.len() ==> (#[trigger] self.itemsm()[i]).id != (
            #[trigger] self.itemsm()[j]).id
    }

    pub open spec fn change_ok(self, c: Change) -> bool {
        &&& 1 <= c.scan_id <= self.scans@.len()
        &&& 1 <= c.item_id < self.next_item_id
        &&& c.change_type != ChangeType::NoChange
        &&& (c.change_type == ChangeType::Modify) == (c.metadata_changed is Some)
        &&& c.change_type != ChangeType::Modify ==> c.hash_changed is None
    }

    pub open spec fn changes_wf(self) -> bool {
        &&& self.changes@.len() < i64::MAX
        &&& forall|i: int|
            0 <= i < self.changes@.len() ==> self.change_ok(#[trigger] self.changes@[i])
    }

    /// A scan in progress holds the lease on its root: it is a valid,
    /// incomplete scan, no two leased scans share a root, and nothing
    /// was scanned against that root since (a leased scan is its
    /// root's newest scan).
    pub open spec fn leases_wf(self) -> bool {
        &&& forall|i: int|
            0 <= i < self.in_progress@.len() ==> 1 <= (#[trigger] self.in_progress@[i])
                <= self.scans@.len() && !self.scans@[self.in_progress@[i] - 1].is_complete
        &&& forall|i: int, j: int|
            0 <= i < j < self.in_progress@.len()
                ==> self.scans@[(#[trigger] self.in_progress@[i]) - 1].root_path_id
                != self.scans@[(#[trigger] self.in_progress@[j]) - 1].root_path_id
        &&& forall|i: int, k: int|
            0 <= i < self.in_progress@.len() && (#[trigger] self.in_progress@[i]) <= k
                < self.scans@.len() ==> (#[trigger] self.scans@[k]).root_path_id
                != self.scans@[self.in_progress@[i] - 1].root_path_id
    }

    pub open spec fn wf(self) -> bool {
        &&& self.roots_wf()
        &&& self.scans_wf()
        &&& self.items_wf()
        &&& self.changes_wf()
        &&& self.leases_wf()
    }

    /// Whether some scan of this root is in progress.
    pub open spec fn lease_held(self, root_id: i64) -> bool {
        exists|i: int|
            0 <= i < self.in_progress@.len() && self.scans@[(#[trigger] self.in_progress@[i])
                - 1].root_path_id == root_id
    }

    /// Every well-formedness component but the lease discipline is a
    /// property of the four tables and the id counter alone.
    proof fn lemma_wf_frame(pre: Store, post: Store)
        requires
            pre.wf(),
            post.roots@ == pre.roots@,
            post.scans@ == pre.scans@,
            post.items@ == pre.items@,
            post.changes@ == pre.changes@,
            post.next_item_id == pre.next_item_id,
        ensures
            post.roots_wf(),
            post.scans_wf(),
            post.items_wf(),
            post.changes_wf(),
            post.rootsm() == pre.rootsm(),
            post.itemsm() == pre.itemsm(),
    {
        assert(post.rootsm() =~= pre.rootsm());
        assert(post.itemsm() =~= pre.itemsm());
        assert forall|i: int| 0 <= i < post.roots@.len() implies (
        #[trigger] post.rootsm()[i]).id == i + 1 by {
            assert(pre.rootsm()[i].id == i + 1);
        }
        assert forall|i: int, j: int|
            0 <= i < j < post.roots@.len() implies post.rootsm()[i].path
            != post.rootsm()[j].path by {
            assert(pre.rootsm()[i].path != pre.rootsm()[j].path);
        }
        assert forall|i: int| 0 <= i < post.scans@.len() implies (
        #[trigger] post.scans@[i]).id == i + 1 && post.scan_ok(post.scans@[i]) by {
            assert(pre.scans@[i].id == i + 1 && pre.scan_ok(pre.scans@[i]));
        }
        assert forall|i: int| 0 <= i < post.items@.len() implies post.item_ok(
            #[trigger] post.itemsm()[i],
        ) by {
            assert(pre.item_ok(pre.itemsm()[i]));
        }
        assert forall|i: int, j: int|
            0 <= i < j < post.items@.len() implies (#[trigger] post.itemsm()[i]).id != (
        #[trigger] post.itemsm()[j]).id by {
            assert(pre.itemsm()[i].id != pre.itemsm()[j].id);
        }
        assert forall|i: int| 0 <= i < post.changes@.len() implies post.change_ok(
            #[trigger] post.changes@[i],
        ) by {
            assert(pre.change_ok(pre.changes@[i]));
        }
    }

    /// An empty store.
    pub fn new() -> (r: Store)
        ensures
            r.wf(),
            r.rootsm() =~= Seq::<RootM>::empty(),
            r.scans@ =~= Seq::<Scan>::empty(),
            r.itemsm() =~= Seq::<ItemM>::empty(),
            r.changes@ =~= Seq::<Change>::empty(),
            r.in_progress@ =~= Seq::<i64>::empty(),
    {
        Store {
            roots: Vec::new(),
            scans: Vec::new(),
            items: Vec::new(),
            changes: Vec::new(),
            next_item_id: 1,
            in_progress: Vec::new(),
        }
    }

    /// Registers a directory for auditing. Each root is registered
    /// once: a path equal to an existing registration is refused.
    pub fn register_root(&mut self, path: Vec<u8>) -> (r: Result<i64, crate::AuditError>)
        requires
            old(self).wf(),
            old(self).roots@.len() + 1 < i64::MAX,
        ensures
            final(self).wf(),
            final(self).scans@ == old(self).scans@,
            final(self).itemsm() == old(self).itemsm(),
            final(self).changes@ == old(self).changes@,
            final(self).in_progress@ == old(self).in_progress@,
            final(self).next_item_id == old(self).next_item_id,
            match r {
                Ok(id) => {
                    &&& !(exists|i: int|
                        0 <= i < old(self).roots@.len() && (#[trigger] old(self).rootsm()[i]).path
                            == path@)
                    &&& id == old(self).roots@.len() + 1
                    &&& final(self).rootsm() == old(self).rootsm().push(
                        RootM { id, path: path@ },
                    )
                },
                Err(e) => {
                    &&& e == crate::AuditError::DuplicateRootPath
                    &&& (exists|i: int|
                        0 <= i < old(self).roots@.len() && (#[trigger] old(self).rootsm()[i]).path
                            == path@)
                    &&& final(self).rootsm() == old(self).rootsm()
                },
            },
    {
        let mut i: usize = 0;
        while i < self.roots.len()
            invariant
                old(self) == self,
                self.wf(),
                i <= self.roots@.len(),
                forall|k: int| 0 <= k < i ==> (#[trigger] self.rootsm()[k]).path != path@,
            decreases self.roots@.len() - i,
        {
            if bytes_eq(&self.roots[i].path, &path) {
                proof {
                    assert((#[trigger] self.rootsm()[i as int]).path == path@);
                }
                return Err(crate::AuditError::DuplicateRootPath);
            }
            i = i + 1;
        }
        let id: i64 = (self.roots.len() as i64) + 1;
        let ghost p: Seq<u8> = path@;
        self.roots.push(RootPath { id, path });
        proof {
            assert(self.rootsm() =~= old(self).rootsm().push(RootM { id, path: p }));
            assert(self.itemsm() =~= old(self).itemsm());
            assert forall|k: int| 0 <= k < self.items@.len() implies self.item_ok(
                #[trigger] self.itemsm()[k],
            ) by {
                assert(old(self).item_ok(old(self).itemsm()[k]));
            }
            assert forall|k: int| 0 <= k < self.scans@.len() implies self.scan_ok(
                #[trigger] self.scans@[k],
            ) by {
                assert(old(self).scan_ok(old(self).scans@[k]));
            }
        }
        Ok(id)
    }
}

/// How many live (non-tombstone) items of one kind a root has.
pub open spec fn count_live(s: Seq<ItemM>, root_id: i64, t: ItemType) -> int
    decreases s.len(),
{
    if s.len() == 0 {
        0
    } else {
        count_live(s.drop_last(), root_id, t) + if s.last().root_path_id == root_id
            && !s.last().is_tombstone && s.last().item_type == t {
            1int
        } else {
            0int
        }
    }
}

/// How many live (non-tombstone) items of any kind a root has.
pub open spec fn count_live_any(s: Seq<ItemM>, root_id: i64) -> int
    decreases s.len(),
{
    if s.len() == 0 {
        0
    } else {
        count_live_any(s.drop_last(), root_id) + if s.last().root_path_id == root_id
            && !s.last().is_tombstone {
            1int
        } else {
            0int
        }
    }
}

/// Every live item is a file or a directory, so the two per-kind
/// counts partition the live count.
pub proof fn lemma_counts_partition(s: Seq<ItemM>, root_id: i64)
    ensures
        count_live(s, root_id, ItemType::File) + count_live(s, root_id, ItemType::Directory)
            == count_live_any(s, root_id),
    decreases s.len(),
{
    if s.len() > 0 {
        lemma_counts_partition(s.drop_last(), root_id);
    }
}

/// Appending a scan that is not a complete scan of `root_id` leaves
/// that root's latest complete scan as it was.
proof fn lemma_latest_complete_push(s: Seq<Scan>, x: Scan, root_id: i64)
    requires
        !x.is_complete || x.root_path_id != root_id,
    ensures
        latest_complete_in(s.push(x), root_id) == latest_complete_in(s, root_id),
{
    assert(s.push(x).drop_last() =~= s);
}

/// If everything after position `idx` belongs to other roots, and
/// `idx` holds a complete scan of `root_id`, that scan is the latest.
proof fn lemma_latest_complete_at(s: Seq<Scan>, idx: int, root_id: i64)
    requires
        0 <= idx < s.len(),
        s[idx].root_path_id == root_id,
        s[idx].is_complete,
        forall|k: int| idx < k < s.len() ==> (#[trigger] s[k]).root_path_id != root_id,
    ensures
        latest_complete_in(s, root_id) == Some(idx),
    decreases s.len(),
{
    if idx == s.len() - 1 {
    } else {
        assert(s.last().root_path_id != root_id);
        assert(s.drop_last()[idx] == s[idx]);
        lemma_latest_complete_at(s.drop_last(), idx, root_id);
    }
}

/// Rewriting a scan row of some other root does not move `root_id`'s
/// latest complete scan.
proof fn lemma_latest_complete_update_other(s: Seq<Scan>, idx: int, x: Scan, root_id: i64)
    requires
        0 <= idx < s.len(),
        s[idx].root_path_id != root_id,
        x.root_path_id != root_id,
    ensures
        latest_complete_in(s.update(idx, x), root_id) == latest_complete_in(s, root_id),
    decreases s.len(),
{
    let su = s.update(idx, x);
    if idx == s.len() - 1 {
        assert(su.drop_last() =~= s.drop_last());
    } else {
        assert(su.last() == s.last());
        assert(su.drop_last() =~= s.drop_last().update(idx, x));
        lemma_latest_complete_update_other(s.drop_last(), idx, x, root_id);
    }
}

impl Store {
    /// Index of the lease entry naming `scan_id`, if one exists.
    pub(crate) fn find_lease(&self, scan_id: i64) -> (r: Option<usize>)
        ensures
            match r {
                Some(k) => k < self.in_progress@.len() && self.in_progress@[k as int] == scan_id,
                None => !self.in_progress@.contains(scan_id),
            },
    {
        let mut k: usize = 0;
        while k < self.in_progress.len()
            invariant
                k <= self.in_progress@.len(),
                forall|j: int| 0 <= j < k ==> self.in_progress@[j] != scan_id,
            decreases self.in_progress@.len() - k,
        {
            if self.in_progress[k] == scan_id {
                return Some(k);
            }
            k = k + 1;
        }
        None
    }

    /// Opens a new scan of `root_id` and takes the root's lease.
    ///
    /// Exactly one scan may be in progress per root: a second request
    /// is refused outright, creating no partial state. The new scan
    /// starts incomplete with unset counts, and no root's latest
    /// complete scan moves.
    pub fn scan_begin(&mut self, root_id: i64, is_deep: bool, time_of_scan: i64) -> (r: Result<
        i64,
        crate::AuditError,
    >)
        requires
            old(self).wf(),
            old(self).scans@.len() + 1 < i64::MAX,
        ensures
            final(self).wf(),
            final(self).rootsm() == old(self).rootsm(),
            final(self).itemsm() == old(self).itemsm(),
            final(self).changes@ == old(self).changes@,
            final(self).next_item_id == old(self).next_item_id,
            forall|rid: i64|
                latest_complete_in(final(self).scans@, rid) == latest_complete_in(
                    old(self).scans@,
                    rid,
                ),
            match r {
                Ok(sid) => {
                    &&& 1 <= root_id <= old(self).roots@.len()
                    &&& !old(self).lease_held(root_id)
                    &&& sid == old(self).scans@.len() + 1
                    &&& final(self).scans@ == old(self).scans@.push(
                        (Scan {
                            id: sid,
                            root_path_id: root_id,
                            time_of_scan,
                            is_deep,
                            is_complete: false,
                            file_count: None,
                            folder_count: None,
                        }),
                    )
                    &&& final(self).in_progress@ == old(self).in_progress@.push(sid)
                    &&& final(self).lease_held(root_id)
                },
                Err(e) => {
                    &&& final(self).scans@ == old(self).scans@
                    &&& final(self).in_progress@ == old(self).in_progress@
                    &&& if !(1 <= root_id <= old(self).roots@.len()) {
                        e == (crate::AuditError::RootNotFound { root_path_id: root_id })
                    } else {
                        e == (crate::AuditError::ScanInProgress { root_path_id: root_id })
                            && old(self).lease_held(root_id)
                    }
                },
            },
    {
        if root_id < 1 || root_id > self.roots.len() as i64 {
            return Err(crate::AuditError::RootNotFound { root_path_id: root_id });
        }
        let mut k: usize = 0;
        while k < self.in_progress.len()
            invariant
                self.wf(),
                k <= self.in_progress@.len(),
                forall|j: int|
                    0 <= j < k ==> self.scans@[(#[trigger] self.in_progress@[j])
                        - 1].root_path_id != root_id,
            decreases self.in_progress@.len() - k,
        {
            let leased: i64 = self.in_progress[k];
            proof {
                assert(1 <= self.in_progress@[k as int] <= self.scans@.len()
                    && !self.scans@[self.in_progress@[k as int] - 1].is_complete);
            }
            let nscans: usize = self.scans.len();
            let idx: usize = (leased - 1) as usize;
            let lease_root: i64 = self.scans[idx].root_path_id;
            proof {
                assert(leased as int <= nscans as int);
                assert(idx as int == self.in_progress@[k as int] - 1);
                assert(lease_root == self.scans@[self.in_progress@[k as int]
                    - 1].root_path_id);
            }
            if lease_root == root_id {
                proof {
                    assert(old(self).scans@[old(self).in_progress@[k as int]
                        - 1].root_path_id == root_id);
                    assert(old(self).lease_held(root_id));
                }
                return Err(crate::AuditError::ScanInProgress { root_path_id: root_id });
            }
            k = k + 1;
        }
        let sid: i64 = (self.scans.len() as i64) + 1;
        let row = Scan {
            id: sid,
            root_path_id: root_id,
            time_of_scan,
            is_deep,
            is_complete: false,
            file_count: None,
            folder_count: None,
        };
        self.scans.push(row);
        self.in_progress.push(sid);
        proof {
            let olds = old(self).scans@;
            assert forall|rid: i64|
                latest_complete_in(self.scans@, rid) == latest_complete_in(olds, rid) by {
                lemma_latest_complete_push(olds, row, rid);
            }
            assert(self.itemsm() =~= old(self).itemsm());
            assert(self.rootsm() =~= old(self).rootsm());
            assert forall|i: int| 0 <= i < self.roots@.len() implies (
            #[trigger] self.rootsm()[i]).id == i + 1 by {
                assert(old(self).rootsm()[i].id == i + 1);
            }
            assert forall|i: int, j: int|
                0 <= i < j < self.roots@.len() implies self.rootsm()[i].path
                != self.rootsm()[j].path by {
                assert(old(self).rootsm()[i].path != old(self).rootsm()[j].path);
            }
            assert forall|i: int, j: int|
                0 <= i < j < self.items@.len() implies item_key_lt(
                #[trigger] self.itemsm()[i],
                #[trigger] self.itemsm()[j],
            ) by {
                assert(item_key_lt(old(self).itemsm()[i], old(self).itemsm()[j]));
            }
            assert forall|i: int, j: int|
                0 <= i < j < self.items@.len() implies (#[trigger] self.itemsm()[i]).id != (
            #[trigger] self.itemsm()[j]).id by {
                assert(old(self).itemsm()[i].id != old(self).itemsm()[j].id);
            }
            assert forall|i: int| 0 <= i < self.items@.len() implies self.item_ok(
                #[trigger] self.itemsm()[i],
            ) by {
                assert(old(self).item_ok(old(self).itemsm()[i]));
                assert(self.itemsm()[i] == old(self).itemsm()[i]);
                assert(self.scans@[self.itemsm()[i].last_seen_scan_id - 1] == old(
                    self,
                ).scans@[self.itemsm()[i].last_seen_scan_id - 1]);
            }
            assert forall|i: int| 0 <= i < self.scans@.len() implies (
            #[trigger] self.scans@[i]).id == i + 1 && self.scan_ok(self.scans@[i]) by {
                if i < olds.len() {
                    assert(old(self).scan_ok(olds[i]));
                }
            }
            assert forall|i: int| 0 <= i < self.changes@.len() implies self.change_ok(
                #[trigger] self.changes@[i],
            ) by {
                assert(old(self).change_ok(old(self).changes@[i]));
            }
            let ip0 = old(self).in_progress@;
            let ipn = self.in_progress@;
            assert(ipn.last() == sid);
            assert(self.scans@[sid - 1].root_path_id == root_id);
            // Every pre-existing lease names the same (unchanged) scan row.
            assert forall|i: int| 0 <= i < ip0.len() implies ipn[i] == ip0[i] && 1 <= ip0[i]
                <= olds.len() && self.scans@[ip0[i] - 1] == olds[ip0[i] - 1] by {
                assert(1 <= (#[trigger] ip0[i]) <= olds.len() && !olds[ip0[i]
                    - 1].is_complete);
            }
            // No pre-existing lease is on the new scan's root.
            assert forall|i: int| 0 <= i < ip0.len() implies self.scans@[(#[trigger] ipn[i])
                - 1].root_path_id != root_id by {
                if self.scans@[ipn[i] - 1].root_path_id == root_id {
                    assert(old(self).lease_held(root_id)) by {
                        assert(old(self).scans@[(#[trigger] ip0[i]) - 1].root_path_id
                            == root_id);
                    }
                }
            }
            assert forall|i: int, j: int|
                0 <= i < j < ipn.len() implies self.scans@[(#[trigger] ipn[i])
                - 1].root_path_id != self.scans@[(#[trigger] ipn[j]) - 1].root_path_id by {
                if j < ip0.len() {
                    assert(old(self).scans@[(#[trigger] ip0[i]) - 1].root_path_id != old(
                        self,
                    ).scans@[(#[trigger] ip0[j]) - 1].root_path_id);
                } else {
                    assert(self.scans@[ipn[j] - 1].root_path_id == root_id);
                }
            }
            // A leased scan stays its root's newest scan: the only new
            // ledger position holds the new scan, whose root is leased
            // by nobody else.
            assert forall|i: int, k2: int|
                0 <= i < ipn.len() && (#[trigger] ipn[i]) <= k2 < self.scans@.len() implies (
            #[trigger] self.scans@[k2]).root_path_id != self.scans@[ipn[i]
                - 1].root_path_id by {
                if i < ip0.len() {
                    if k2 < olds.len() {
                        assert(olds[k2].root_path_id != olds[ip0[i] - 1].root_path_id);
                    } else {
                        assert(self.scans@[k2].root_path_id == root_id);
                    }
                }
            }
            assert(self.lease_held(root_id)) by {
                assert(self.scans@[(#[trigger] ipn[ipn.len() - 1]) - 1].root_path_id
                    == root_id);
            }
        }
        Ok(sid)
    }

    /// Abandons an in-progress scan after an unrecoverable failure.
    ///
    /// The scan row stays permanently incomplete — it is never a
    /// valid baseline — and only the root's lease is released;
    /// whatever item and change rows were already committed remain,
    /// preserving partial progress for the audit trail.
    pub fn scan_abort(&mut self, scan_id: i64) -> (r: Result<(), crate::AuditError>)
        requires
            old(self).wf(),
        ensures
            final(self).wf(),
            final(self).rootsm() == old(self).rootsm(),
            final(self).scans@ == old(self).scans@,
            final(self).itemsm() == old(self).itemsm(),
            final(self).changes@ == old(self).changes@,
            final(self).next_item_id == old(self).next_item_id,
            match r {
                Ok(_) => {
                    &&& 1 <= scan_id <= old(self).scans@.len()
                    &&& !old(self).scans@[scan_id - 1].is_complete
                    &&& old(self).in_progress@.contains(scan_id)
                    &&& forall|rid: i64|
                        final(self).lease_held(rid) == (old(self).lease_held(rid) && rid != old(
                            self,
                        ).scans@[scan_id - 1].root_path_id)
                },
                Err(e) => {
                    &&& final(self).in_progress@ == old(self).in_progress@
                    &&& if !(1 <= scan_id <= old(self).scans@.len()) {
                        e == (crate::AuditError::ScanNotFound { scan_id })
                    } else if old(self).scans@[scan_id - 1].is_complete {
                        e == (crate::AuditError::ScanAlreadyComplete { scan_id })
                    } else {
                        e == (crate::AuditError::ScanNotInProgress { scan_id })
                            && !old(self).in_progress@.contains(scan_id)
                    }
                },
            },
    {
        if scan_id < 1 || scan_id > self.scans.len() as i64 {
            return Err(crate::AuditError::ScanNotFound { scan_id });
        }
        if self.scans[(scan_id - 1) as usize].is_complete {
            return Err(crate::AuditError::ScanAlreadyComplete { scan_id });
        }
        match self.find_lease(scan_id) {
            None => Err(crate::AuditError::ScanNotInProgress { scan_id }),
            Some(k) => {
                proof {
                    assert(old(self).in_progress@.contains(scan_id)) by {
                        assert(old(self).in_progress@[k as int] == scan_id);
                    }
                }
                self.in_progress.remove(k);
                proof {
                    self.lemma_lease_removed(*old(self), k as int, scan_id);
                    Self::lemma_wf_frame(*old(self), *self);
                }
                Ok(())
            },
        }
    }

    /// Completes an in-progress scan: stores the root's live file and
    /// folder counts on the scan row, marks it complete, and releases
    /// the root's lease. The completed scan becomes the root's latest
    /// complete scan, and its counts partition the root's live items.
    pub fn scan_finalize(&mut self, scan_id: i64) -> (r: Result<(), crate::AuditError>)
        requires
            old(self).wf(),
        ensures
            final(self).wf(),
            final(self).rootsm() == old(self).rootsm(),
            final(self).itemsm() == old(self).itemsm(),
            final(self).changes@ == old(self).changes@,
            final(self).next_item_id == old(self).next_item_id,
            match r {
                Ok(_) => {
                    &&& 1 <= scan_id <= old(self).scans@.len()
                    &&& !old(self).scans@[scan_id - 1].is_complete
                    &&& old(self).in_progress@.contains(scan_id)
                    &&& final(self).scans@ == old(self).scans@.update(
                        scan_id - 1,
                        (Scan {
                            is_complete: true,
                            file_count: Some(
                                count_live(
                                    old(self).itemsm(),
                                    old(self).scans@[scan_id - 1].root_path_id,
                                    ItemType::File,
                                ) as i64,
                            ),
                            folder_count: Some(
                                count_live(
                                    old(self).itemsm(),
                                    old(self).scans@[scan_id - 1].root_path_id,
                                    ItemType::Directory,
                                ) as i64,
                            ),
                            ..old(self).scans@[scan_id - 1]
                        }),
                    )
                    &&& count_live(
                        old(self).itemsm(),
                        old(self).scans@[scan_id - 1].root_path_id,
                        ItemType::File,
                    ) + count_live(
                        old(self).itemsm(),
                        old(self).scans@[scan_id - 1].root_path_id,
                        ItemType::Directory,
                    ) == count_live_any(
                        old(self).itemsm(),
                        old(self).scans@[scan_id - 1].root_path_id,
                    )
                    &&& latest_complete_in(
                        final(self).scans@,
                        old(self).scans@[scan_id - 1].root_path_id,
                    ) == Some(scan_id - 1)
                    &&& forall|rid: i64|
                        rid != old(self).scans@[scan_id - 1].root_path_id
                            ==> latest_complete_in(final(self).scans@, rid)
                            == latest_complete_in(old(self).scans@, rid)
                    &&& forall|rid: i64|
                        final(self).lease_held(rid) == (old(self).lease_held(rid) && rid != old(
                            self,
                        ).scans@[scan_id - 1].root_path_id)
                },
                Err(e) => {
                    &&& final(self).scans@ == old(self).scans@
                    &&& final(self).in_progress@ == old(self).in_progress@
                    &&& if !(1 <= scan_id <= old(self).scans@.len()) {
                        e == (crate::AuditError::ScanNotFound { scan_id })
                    } else if old(self).scans@[scan_id - 1].is_complete {
                        e == (crate::AuditError::ScanAlreadyComplete { scan_id })
                    } else {
                        e == (crate::AuditError::ScanNotInProgress { scan_id })
                            && !old(self).in_progress@.contains(scan_id)
                    }
                },
            },
    {
        if scan_id < 1 || scan_id > self.scans.len() as i64 {
            return Err(crate::AuditError::ScanNotFound { scan_id });
        }
        let idx: usize = (scan_id - 1) as usize;
        if self.scans[idx].is_complete {
            return Err(crate::AuditError::ScanAlreadyComplete { scan_id });
        }
        let k = match self.find_lease(scan_id) {
            None => {
                return Err(crate::AuditError::ScanNotInProgress { scan_id });
            },
            Some(k) => k,
        };
        proof {
            assert(old(self).in_progress@.contains(scan_id)) by {
                assert(old(self).in_progress@[k as int] == scan_id);
            }
        }
        let root_id: i64 = self.scans[idx].root_path_id;
        let ghost items = self.itemsm();
        let mut fc: i64 = 0;
        let mut dc: i64 = 0;
        let mut i: usize = 0;
        while i < self.items.len()
            invariant
                *self == *old(self),
                self.wf(),
                items == self.itemsm(),
                i <= self.items@.len(),
                fc == count_live(items.subrange(0, i as int), root_id, ItemType::File),
                dc == count_live(items.subrange(0, i as int), root_id, ItemType::Directory),
                fc + dc <= i,
                0 <= fc,
                0 <= dc,
            decreases self.items@.len() - i,
        {
            proof {
                assert(items.subrange(0, i + 1).drop_last() =~= items.subrange(0, i as int));
                assert(items.subrange(0, i + 1).last() == items[i as int]);
            }
            let it = &self.items[i];
            if it.root_path_id == root_id && !it.is_tombstone {
                if it.item_type == ItemType::File {
                    fc = fc + 1;
                } else {
                    dc = dc + 1;
                }
            }
            i = i + 1;
        }
        proof {
            assert(items.subrange(0, self.items@.len() as int) =~= items);
            lemma_counts_partition(items, root_id);
        }
        let s0 = self.scans[idx];
        let s1 = Scan {
            id: s0.id,
            root_path_id: s0.root_path_id,
            time_of_scan: s0.time_of_scan,
            is_deep: s0.is_deep,
            is_complete: true,
            file_count: Some(fc),
            folder_count: Some(dc),
        };
        self.in_progress.remove(k);
        proof {
            self.lemma_lease_removed(*old(self), k as int, scan_id);
            Self::lemma_wf_frame(*old(self), *self);
        }
        let ghost mid = *self;
        self.scans[idx] = s1;
        proof {
            self.lemma_finalize_restores(*old(self), mid, k as int, scan_id, s1);
        }
        Ok(())
    }

    /// Completing the scan row after the lease release restores
    /// well-formedness and pins every root's latest complete scan.
    proof fn lemma_finalize_restores(self, pre: Store, mid: Store, k: int, scan_id: i64, s1: Scan)
        requires
            pre.wf(),
            mid.wf(),
            1 <= scan_id <= pre.scans@.len(),
            !pre.scans@[scan_id - 1].is_complete,
            0 <= k < pre.in_progress@.len(),
            pre.in_progress@[k] == scan_id,
            mid.roots@ == pre.roots@,
            mid.scans@ == pre.scans@,
            mid.items@ == pre.items@,
            mid.changes@ == pre.changes@,
            mid.next_item_id == pre.next_item_id,
            mid.in_progress@ == pre.in_progress@.remove(k),
            forall|rid: i64|
                mid.lease_held(rid) == (pre.lease_held(rid) && rid != pre.scans@[scan_id
                    - 1].root_path_id),
            self == (Store { scans: self.scans, ..mid }),
            self.scans@ == mid.scans@.update(scan_id - 1, s1),
            s1.id == pre.scans@[scan_id - 1].id,
            s1.root_path_id == pre.scans@[scan_id - 1].root_path_id,
            s1.is_complete,
            s1.file_count is Some,
            s1.folder_count is Some,
        ensures
            self.wf(),
            self.rootsm() == pre.rootsm(),
            self.itemsm() == pre.itemsm(),
            latest_complete_in(self.scans@, pre.scans@[scan_id - 1].root_path_id) == Some(
                scan_id - 1,
            ),
            forall|rid: i64|
                rid != pre.scans@[scan_id - 1].root_path_id ==> latest_complete_in(
                    self.scans@,
                    rid,
                ) == latest_complete_in(pre.scans@, rid),
            forall|rid: i64|
                self.lease_held(rid) == (pre.lease_held(rid) && rid != pre.scans@[scan_id
                    - 1].root_path_id),
    {
        let root_id = pre.scans@[scan_id - 1].root_path_id;
        let idx = scan_id - 1;
        assert(self.rootsm() =~= pre.rootsm());
        assert(self.itemsm() =~= pre.itemsm());
        assert forall|i: int| 0 <= i < self.roots@.len() implies (
        #[trigger] self.rootsm()[i]).id == i + 1 by {
            assert(pre.rootsm()[i].id == i + 1);
        }
        assert forall|i: int, j: int|
            0 <= i < j < self.roots@.len() implies self.rootsm()[i].path
            != self.rootsm()[j].path by {
            assert(pre.rootsm()[i].path != pre.rootsm()[j].path);
        }
        assert forall|i: int| 0 <= i < self.scans@.len() implies (
        #[trigger] self.scans@[i]).id == i + 1 && self.scan_ok(self.scans@[i]) by {
            assert(pre.scans@[i].id == i + 1 && pre.scan_ok(pre.scans@[i]));
            if i == idx {
                assert(self.scans@[i] == s1);
            } else {
                assert(self.scans@[i] == pre.scans@[i]);
            }
        }
        assert forall|i: int, j: int|
            0 <= i < j < self.items@.len() implies item_key_lt(
            #[trigger] self.itemsm()[i],
            #[trigger] self.itemsm()[j],
        ) by {
            assert(item_key_lt(pre.itemsm()[i], pre.itemsm()[j]));
        }
        assert forall|i: int, j: int|
            0 <= i < j < self.items@.len() implies (#[trigger] self.itemsm()[i]).id != (
        #[trigger] self.itemsm()[j]).id by {
            assert(pre.itemsm()[i].id != pre.itemsm()[j].id);
        }
        assert forall|i: int| 0 <= i < self.items@.len() implies self.item_ok(
            #[trigger] self.itemsm()[i],
        ) by {
            assert(pre.item_ok(pre.itemsm()[i]));
            assert(self.itemsm()[i] == pre.itemsm()[i]);
            assert(self.scans@[pre.itemsm()[i].last_seen_scan_id - 1].root_path_id == pre.scans@[
                pre.itemsm()[i].last_seen_scan_id - 1].root_path_id);
        }
        assert forall|i: int| 0 <= i < self.changes@.len() implies self.change_ok(
            #[trigger] self.changes@[i],
        ) by {
            assert(pre.change_ok(pre.changes@[i]));
        }
        // No remaining lease names the completed scan: its root's lease
        // was just released.
        assert forall|i: int| 0 <= i < self.in_progress@.len() implies (
        #[trigger] self.in_progress@[i]) != scan_id by {
            if self.in_progress@[i] == scan_id {
                assert(mid.scans@[(#[trigger] mid.in_progress@[i]) - 1].root_path_id == root_id);
                assert(mid.lease_held(root_id));
            }
        }
        assert forall|i: int| 0 <= i < self.in_progress@.len() implies 1 <= (
        #[trigger] self.in_progress@[i]) <= self.scans@.len() && !self.scans@[self.in_progress@[i]
            - 1].is_complete by {
            assert(1 <= (#[trigger] mid.in_progress@[i]) <= mid.scans@.len()
                && !mid.scans@[mid.in_progress@[i] - 1].is_complete);
            assert(self.in_progress@[i] != scan_id);
            assert(self.scans@[self.in_progress@[i] - 1] == mid.scans@[mid.in_progress@[i] - 1]);
        }
        assert forall|i: int, j: int|
            0 <= i < j < self.in_progress@.len() implies self.scans@[(
        #[trigger] self.in_progress@[i]) - 1].root_path_id != self.scans@[(
        #[trigger] self.in_progress@[j]) - 1].root_path_id by {
            assert(mid.scans@[(#[trigger] mid.in_progress@[i]) - 1].root_path_id != mid.scans@[(
            #[trigger] mid.in_progress@[j]) - 1].root_path_id);
        }
        assert forall|i: int, k2: int|
            0 <= i < self.in_progress@.len() && (#[trigger] self.in_progress@[i]) <= k2
            < self.scans@.len() implies (#[trigger] self.scans@[k2]).root_path_id
            != self.scans@[self.in_progress@[i] - 1].root_path_id by {
            assert(mid.scans@[k2].root_path_id != mid.scans@[(#[trigger] mid.in_progress@[i])
                - 1].root_path_id);
            assert(self.scans@[k2].root_path_id == mid.scans@[k2].root_path_id);
        }
        // The completed scan is now its root's latest complete scan.
        assert forall|k2: int| idx < k2 < self.scans@.len() implies (
        #[trigger] self.scans@[k2]).root_path_id != root_id by {
            assert(pre.scans@[k2].root_path_id != pre.scans@[(#[trigger] pre.in_progress@[k])
                - 1].root_path_id);
        }
        lemma_latest_complete_at(self.scans@, idx, root_id);
        assert forall|rid: i64|
            rid != root_id implies latest_complete_in(self.scans@, rid) == latest_complete_in(
            pre.scans@,
            rid,
        ) by {
            lemma_latest_complete_update_other(pre.scans@, idx, s1, rid);
        }
        assert forall|rid: i64|
            self.lease_held(rid) == (pre.lease_held(rid) && rid != root_id) by {
            assert(mid.lease_held(rid) == (pre.lease_held(rid) && rid != root_id));
            if self.lease_held(rid) {
                let i = choose|i: int|
                    0 <= i < self.in_progress@.len() && self.scans@[(
                    #[trigger] self.in_progress@[i]) - 1].root_path_id == rid;
                assert(mid.scans@[(#[trigger] mid.in_progress@[i]) - 1].root_path_id == rid);
            }
            if mid.lease_held(rid) {
                let i = choose|i: int|
                    0 <= i < mid.in_progress@.len() && mid.scans@[(
                    #[trigger] mid.in_progress@[i]) - 1].root_path_id == rid;
                assert(mid.in_progress@[i] != scan_id);
                assert(self.scans@[(#[trigger] self.in_progress@[i]) - 1].root_path_id == rid);
            }
        }
    }

    /// After removing lease position `k` (naming `scan_id`), each root
    /// keeps its lease except `scan_id`'s root, which loses its.
    proof fn lemma_lease_removed(self, prev: Store, k: int, scan_id: i64)
        requires
            prev.wf(),
            0 <= k < prev.in_progress@.len(),
            prev.in_progress@[k] == scan_id,
            self.in_progress@ == prev.in_progress@.remove(k),
            self.scans@ == prev.scans@,
        ensures
            self.leases_wf(),
            forall|rid: i64|
                self.lease_held(rid) == (prev.lease_held(rid) && rid != prev.scans@[scan_id
                    - 1].root_path_id),
    {
        let aborted_root = prev.scans@[scan_id - 1].root_path_id;
        prev.in_progress@.remove_ensures(k);
        let ip0 = prev.in_progress@;
        let ipn = self.in_progress@;
        assert forall|i: int| 0 <= i < ipn.len() implies 1 <= (#[trigger] ipn[i])
            <= self.scans@.len() && !self.scans@[ipn[i] - 1].is_complete by {
            let j: int = if i < k {
                i
            } else {
                i + 1
            };
            assert(1 <= (#[trigger] ip0[j]) <= prev.scans@.len() && !prev.scans@[ip0[j]
                - 1].is_complete);
        }
        assert forall|i: int, j: int|
            0 <= i < j < ipn.len() implies self.scans@[(#[trigger] ipn[i]) - 1].root_path_id
            != self.scans@[(#[trigger] ipn[j]) - 1].root_path_id by {
            let i2: int = if i < k {
                i
            } else {
                i + 1
            };
            let j2: int = if j < k {
                j
            } else {
                j + 1
            };
            assert(prev.scans@[(#[trigger] ip0[i2]) - 1].root_path_id != prev.scans@[(
            #[trigger] ip0[j2]) - 1].root_path_id);
        }
        assert forall|i: int, k2: int|
            0 <= i < ipn.len() && (#[trigger] ipn[i]) <= k2 < self.scans@.len() implies (
        #[trigger] self.scans@[k2]).root_path_id != self.scans@[ipn[i] - 1].root_path_id by {
            let j: int = if i < k {
                i
            } else {
                i + 1
            };
            assert(prev.scans@[k2].root_path_id != prev.scans@[(#[trigger] ip0[j])
                - 1].root_path_id);
        }
        assert forall|i: int| 0 <= i < self.in_progress@.len() implies prev.in_progress@.contains(
            #[trigger] self.in_progress@[i],
        ) by {
            if i < k {
                assert(prev.in_progress@[i] == self.in_progress@[i]);
            } else {
                assert(prev.in_progress@[i + 1] == self.in_progress@[i]);
            }
        }
        assert forall|rid: i64|
            self.lease_held(rid) == (prev.lease_held(rid) && rid != aborted_root) by {
            if self.lease_held(rid) {
                let i = choose|i: int|
                    0 <= i < self.in_progress@.len() && self.scans@[(
                    #[trigger] self.in_progress@[i]) - 1].root_path_id == rid;
                let j: int = if i < k {
                    i
                } else {
                    i + 1
                };
                assert(prev.scans@[(#[trigger] prev.in_progress@[j]) - 1].root_path_id == rid);
                if rid == aborted_root {
                    assert(j != k);
                    assert(prev.scans@[prev.in_progress@[k] - 1].root_path_id == aborted_root);
                }
            }
            if prev.lease_held(rid) && rid != aborted_root {
                let j = choose|j: int|
                    0 <= j < prev.in_progress@.len() && prev.scans@[(
                    #[trigger] prev.in_progress@[j]) - 1].root_path_id == rid;
                assert(j != k);
                let i: int = if j < k {
                    j
                } else {
                    j - 1
                };
                assert(self.scans@[(#[trigger] self.in_progress@[i]) - 1].root_path_id == rid);
            }
        }
    }
}

/// How many change rows a scan produced of one kind.
pub open spec fn count_changes(s: Seq<Change>, scan_id: i64, ct: ChangeType) -> int
    decreases s.len(),
{
    if s.len() == 0 {
        0int
    } else {
        count_changes(s.drop_last(), scan_id, ct) + if s.last().scan_id == scan_id
            && s.last().change_type == ct {
            1int
        } else {
            0int
        }
    }
}

impl Item {
    /// A field-for-field copy of this row.
    pub fn duplicate(&self) -> (r: Item)
        ensures
            r@ == self@,
    {
        Item {
            id: self.id,
            root_path_id: self.root_path_id,
            path: bytes_dup(&self.path),
            item_type: self.item_type,
            last_seen_scan_id: self.last_seen_scan_id,
            is_tombstone: self.is_tombstone,
            last_modified: self.last_modified,
            file_size: self.file_size,
            file_hash: match &self.file_hash {
                Some(h) => Some(bytes_dup(h)),
                None => None,
            },
        }
    }
}

impl Store {
    /// The newest complete scan of a root: the baseline reports and
    /// the next reconciliation compare against. Incomplete scans —
    /// failed or still running — are never returned.
    pub fn latest_complete_scan(&self, root_id: i64) -> (r: Option<Scan>)
        requires
            self.wf(),
        ensures
            match r {
                Some(s) => {
                    &&& latest_complete_in(self.scans@, root_id) == Some(s.id - 1)
                    &&& 1 <= s.id <= self.scans@.len()
                    &&& s == self.scans@[s.id - 1]
                    &&& s.is_complete
                    &&& s.root_path_id == root_id
                },
                None => latest_complete_in(self.scans@, root_id) is None,
            },
    {
        let ghost full = self.scans@;
        let mut i: usize = self.scans.len();
        proof {
            assert(full.subrange(0, i as int) =~= full);
        }
        while i > 0
            invariant
                self.wf(),
                full == self.scans@,
                i <= self.scans@.len(),
                latest_complete_in(full, root_id) == latest_complete_in(
                    full.subrange(0, i as int),
                    root_id,
                ),
            decreases i,
        {
            i = i - 1;
            proof {
                assert(full.subrange(0, i + 1).drop_last() =~= full.subrange(0, i as int));
                assert(full.subrange(0, i + 1).last() == full[i as int]);
            }
            let s = self.scans[i];
            if s.root_path_id == root_id && s.is_complete {
                return Some(s);
            }
        }
        proof {
            assert(full.subrange(0, 0) =~= Seq::<Scan>::empty());
        }
        None
    }

    /// Tallies one scan's persisted change rows by kind. The unchanged
    /// count is not stored and reads as zero here; unchanged entries
    /// never persist a row.
    pub fn change_counts(&self, scan_id: i64) -> (r: Result<ChangeCounts, crate::AuditError>)
        requires
            self.wf(),
        ensures
            match r {
                Ok(cc) => {
                    &&& 1 <= scan_id <= self.scans@.len()
                    &&& forall|ct: ChangeType|
                        ct != ChangeType::NoChange ==> cc.count_of(ct) == count_changes(
                            self.changes@,
                            scan_id,
                            ct,
                        )
                    &&& cc.count_of(ChangeType::NoChange) == 0
                },
                Err(e) => {
                    &&& e == (crate::AuditError::ScanNotFound { scan_id })
                    &&& !(1 <= scan_id <= self.scans@.len())
                },
            },
    {
        if scan_id < 1 || scan_id > self.scans.len() as i64 {
            return Err(crate::AuditError::ScanNotFound { scan_id });
        }
        let ghost full = self.changes@;
        let mut cc = ChangeCounts::new();
        let mut i: usize = 0;
        while i < self.changes.len()
            invariant
                self.wf(),
                full == self.changes@,
                i <= self.changes@.len(),
                forall|ct: ChangeType| 0 <= #[trigger] cc.count_of(ct) <= i,
                forall|ct: ChangeType|
                    ct != ChangeType::NoChange ==> cc.count_of(ct) == count_changes(
                        full.subrange(0, i as int),
                        scan_id,
                        ct,
                    ),
                cc.count_of(ChangeType::NoChange) == 0,
            decreases self.changes@.len() - i,
        {
            proof {
                assert(full.subrange(0, i + 1).drop_last() =~= full.subrange(0, i as int));
                assert(full.subrange(0, i + 1).last() == full[i as int]);
                assert(self.change_ok(self.changes@[i as int]));
            }
            let c = self.changes[i];
            if c.scan_id == scan_id {
                cc.increment(c.change_type);
            }
            i = i + 1;
        }
        proof {
            assert(full.subrange(0, full.len() as int) =~= full);
        }
        Ok(cc)
    }

    /// The stored state of the live item at (root, path), if any:
    /// what the classifier and the hashing decision compare against.
    pub fn live_item_state(&self, root_id: i64, path: &Vec<u8>) -> (r: Option<ItemState>)
        requires
            self.wf(),
        ensures
            match r {
                Some(st) => exists|k: int|
                    0 <= k < self.itemsm().len() && (#[trigger] self.itemsm()[k]).root_path_id
                        == root_id && self.itemsm()[k].path == path@
                        && !self.itemsm()[k].is_tombstone && st@ == self.itemsm()[k].state(),
                None => forall|k: int|
                    0 <= k < self.itemsm().len() ==> !((#[trigger] self.itemsm()[k]).root_path_id
                        == root_id && self.itemsm()[k].path == path@
                        && !self.itemsm()[k].is_tombstone),
            },
    {
        let mut i: usize = 0;
        while i < self.items.len()
            invariant
                self.wf(),
                i <= self.items@.len(),
                forall|k: int|
                    0 <= k < i ==> !((#[trigger] self.itemsm()[k]).root_path_id == root_id
                        && self.itemsm()[k].path == path@ && !self.itemsm()[k].is_tombstone),
            decreases self.items@.len() - i,
        {
            let it = &self.items[i];
            if it.root_path_id == root_id && !it.is_tombstone && bytes_eq(&it.path, path) {
                let st = ItemState {
                    item_type: it.item_type,
                    last_modified: it.last_modified,
                    file_size: it.file_size,
                    file_hash: match &it.file_hash {
                        Some(h) => Some(bytes_dup(h)),
                        None => None,
                    },
                };
                proof {
                    assert((#[trigger] self.itemsm()[i as int]).root_path_id == root_id
                        && self.itemsm()[i as int].path == path@
                        && !self.itemsm()[i as int].is_tombstone && st@ == self.itemsm()[
                        i as int].state());
                }
                return Some(st);
            }
            i = i + 1;
        }
        None
    }

    /// The items a scan confirmed: rows whose `last_seen_scan_id` is
    /// this scan, in the table's (root, path) order.
    pub fn items_seen_by(&self, scan_id: i64) -> (r: Vec<Item>)
        requires
            self.wf(),
        ensures
            r@.map_values(|it: Item| it@) == self.itemsm().filter(
                |it: ItemM| it.last_seen_scan_id == scan_id,
            ),
    {
        let ghost p = |it: ItemM| it.last_seen_scan_id == scan_id;
        let mut r: Vec<Item> = Vec::new();
        let mut i: usize = 0;
        while i < self.items.len()
            invariant
                self.wf(),
                i <= self.items@.len(),
                r@.map_values(|it: Item| it@) == self.itemsm().subrange(0, i as int).filter(p),
                p == (|it: ItemM| it.last_seen_scan_id == scan_id),
            decreases self.items@.len() - i,
        {
            proof {
                reveal_with_fuel(Seq::<ItemM>::filter, 2);
                assert(self.itemsm().subrange(0, i + 1).drop_last() =~= self.itemsm().subrange(
                    0,
                    i as int,
                ));
                assert(self.itemsm().subrange(0, i + 1).last() == self.itemsm()[i as int]);
            }
            let it = &self.items[i];
            if it.last_seen_scan_id == scan_id {
                let d = it.duplicate();
                let ghost r0 = r@;
                r.push(d);
                proof {
                    assert(r@.map_values(|x: Item| x@) =~= r0.map_values(|x: Item| x@).push(
                        self.itemsm()[i as int],
                    ));
                }
            }
            i = i + 1;
        }
        proof {
            assert(self.itemsm().subrange(0, self.itemsm().len() as int) =~= self.itemsm());
        }
        r
    }

    /// One scan's persisted change rows, in the order they were
    /// committed.
    pub fn changes_of_scan(&self, scan_id: i64) -> (r: Vec<Change>)
        requires
            self.wf(),
        ensures
            r@ == self.changes@.filter(|c: Change| c.scan_id == scan_id),
    {
        let ghost p = |c: Change| c.scan_id == scan_id;
        let mut r: Vec<Change> = Vec::new();
        let mut i: usize = 0;
        while i < self.changes.len()
            invariant
                self.wf(),
                i <= self.changes@.len(),
                r@ == self.changes@.subrange(0, i as int).filter(p),
                p == (|c: Change| c.scan_id == scan_id),
            decreases self.changes@.len() - i,
        {
            proof {
                reveal_with_fuel(Seq::<Change>::filter, 2);
                assert(self.changes@.subrange(0, i + 1).drop_last() =~= self.changes@.subrange(
                    0,
                    i as int,
                ));
                assert(self.changes@.subrange(0, i + 1).last() == self.changes@[i as int]);
            }
            let c = self.changes[i];
            if c.scan_id == scan_id {
                r.push(c);
            }
            i = i + 1;
        }
        proof {
            assert(self.changes@.subrange(0, self.changes@.len() as int) =~= self.changes@);
        }
        r
    }

    /// The item row with a given id, if any.
    pub fn item_by_id(&self, item_id: i64) -> (r: Option<Item>)
        requires
            self.wf(),
        ensures
            match r {
                Some(it) => exists|k: int|
                    0 <= k < self.itemsm().len() && (#[trigger] self.itemsm()[k]).id == item_id
                        && it@ == self.itemsm()[k],
                None => forall|k: int|
                    0 <= k < self.itemsm().len() ==> (#[trigger] self.itemsm()[k]).id != item_id,
            },
    {
        let mut i: usize = 0;
        while i < self.items.len()
            invariant
                self.wf(),
                i <= self.items@.len(),
                forall|k: int| 0 <= k < i ==> (#[trigger] self.itemsm()[k]).id != item_id,
            decreases self.items@.len() - i,
        {
            let it = &self.items[i];
            if it.id == item_id {
                let d = it.duplicate();
                proof {
                    assert((#[trigger] self.itemsm()[i as int]).id == item_id && d@
                        == self.itemsm()[i as int]);
                }
                return Some(d);
            }
            i = i + 1;
        }
        None
    }
}

} // verus!
