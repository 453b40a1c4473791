//! The change classifier: a pure decision from (stored state,
//! observation, scan mode) to an outcome.
//!
//! The classifier consults nothing but its arguments. Ambiguity never
//! yields `NoChange`: an entry is confirmed unchanged only when its
//! metadata matches and, if content was (or had to be) checked, its
//! digest matches too.

use vstd::prelude::*;
use crate::changes::ChangeType;

verus! {

/// The kind of a filesystem entry.
#[derive(Debug, PartialEq, Eq, Copy, Clone, Structural)]
pub enum ItemType {
    File,
    Directory,
}

/// One entry of a walker stream: what a scan observed at one path.
///
/// `digest` is `Some` exactly when the content was hashed for this
/// scan; a hashing failure leaves it `None`.
#[derive(Debug)]
pub struct ObservedEntry {
    pub path: Vec<u8>,
    pub item_type: ItemType,
    pub last_modified: i64,
    pub file_size: Option<i64>,
    pub digest: Option<Vec<u8>>,
}

/// The slice of a stored item the classifier compares against.
#[derive(Debug)]
pub struct ItemState {
    pub item_type: ItemType,
    pub last_modified: i64,
    pub file_size: Option<i64>,
    pub file_hash: Option<Vec<u8>>,
}

/// Mathematical image of an optional byte string.
pub open spec fn opt_bytes_view(o: Option<Vec<u8>>) -> Option<Seq<u8>> {
    match o {
        Some(v) => Some(v@),
        None => None,
    }
}

/// Mathematical model of an observed entry.
pub struct EntryM {
    pub path: Seq<u8>,
    pub item_type: ItemType,
    pub last_modified: i64,
    pub file_size: Option<i64>,
    pub digest: Option<Seq<u8>>,
}

/// Mathematical model of a stored item state.
pub struct ItemStateM {
    pub item_type: ItemType,
    pub last_modified: i64,
    pub file_size: Option<i64>,
    pub file_hash: Option<Seq<u8>>,
}

impl View for ObservedEntry {
    type V = EntryM;

    open spec fn view(&self) -> EntryM {
        EntryM {
            path: self.path@,
            item_type: self.item_type,
            last_modified: self.last_modified,
            file_size: self.file_size,
            digest: opt_bytes_view(self.digest),
        }
    }
}

impl View for ItemState {
    type V = ItemStateM;

    open spec fn view(&self) -> ItemStateM {
        ItemStateM {
            item_type: self.item_type,
            last_modified: self.last_modified,
            file_size: self.file_size,
            file_hash: opt_bytes_view(self.file_hash),
        }
    }
}

/// What the classifier decided for one path.
#[derive(Debug, PartialEq, Eq, Copy, Clone, Structural)]
pub enum Outcome {
    Add,
    Delete,
    Modify { metadata_changed: bool, hash_changed: Option<bool> },
    TypeChange,
    NoChange,
}

impl Outcome {
    /// The change kind a persisted change row carries for this outcome.
    pub open spec fn change_type_spec(self) -> ChangeType {
        match self {
            Outcome::Add => ChangeType::Add,
            Outcome::Delete => ChangeType::Delete,
            Outcome::Modify { .. } => ChangeType::Modify,
            Outcome::TypeChange => ChangeType::TypeChange,
            Outcome::NoChange => ChangeType::NoChange,
        }
    }

    pub fn change_type(&self) -> (r: ChangeType)
        ensures
            r == self.change_type_spec(),
    {
        match self {
            Outcome::Add => ChangeType::Add,
            Outcome::Delete => ChangeType::Delete,
            Outcome::Modify { .. } => ChangeType::Modify,
            Outcome::TypeChange => ChangeType::TypeChange,
            Outcome::NoChange => ChangeType::NoChange,
        }
    }
}

/// Whether timestamp or size differ between stored state and observation.
pub open spec fn metadata_differs_spec(old: ItemStateM, entry: EntryM) -> bool {
    old.last_modified != entry.last_modified
        || (entry.item_type == ItemType::File && old.file_size != entry.file_size)
}

/// The content comparison, where one was possible: `Some(differs)` when
/// both a fresh digest and a stored hash exist, `None` otherwise.
pub open spec fn hash_comparison_spec(old: ItemStateM, entry: EntryM) -> Option<bool> {
    match (entry.digest, old.file_hash) {
        (Some(d), Some(h)) => Some(d != h),
        _ => None,
    }
}

/// The decision table.
///
/// - no stored state: `Add`; no observation: `Delete`;
/// - kinds differ: `TypeChange`;
/// - metadata differs: `Modify`, with the content comparison recorded
///   when one was possible;
/// - metadata matches: `NoChange` only when content is confirmed equal
///   or was legitimately not checked (shallow mode, nothing computed);
///   a computed-but-incomparable digest, or a deep scan whose hashing
///   failed, counts as changed with `hash_changed` left open.
pub open spec fn classify_spec(
    old: Option<ItemStateM>,
    entry: Option<EntryM>,
    deep: bool,
) -> Outcome {
    match (old, entry) {
        (None, None) => Outcome::NoChange,
        (None, Some(_)) => Outcome::Add,
        (Some(_), None) => Outcome::Delete,
        (Some(o), Some(e)) => {
            if o.item_type != e.item_type {
                Outcome::TypeChange
            } else if metadata_differs_spec(o, e) {
                Outcome::Modify {
                    metadata_changed: true,
                    hash_changed: hash_comparison_spec(o, e),
                }
            } else {
                match hash_comparison_spec(o, e) {
                    Some(true) => Outcome::Modify {
                        metadata_changed: false,
                        hash_changed: Some(true),
                    },
                    Some(false) => Outcome::NoChange,
                    None => {
                        if e.digest is Some || deep {
                            Outcome::Modify { metadata_changed: false, hash_changed: None }
                        } else {
                            Outcome::NoChange
                        }
                    },
                }
            }
        },
    }
}

/// Whether a scan must hash this entry's content before classifying:
/// always for files in a deep scan, and in a shallow scan when the
/// file's metadata already differs from its stored state.
pub open spec fn hash_needed_spec(old: Option<ItemStateM>, entry: EntryM, deep: bool) -> bool {
    entry.item_type == ItemType::File && (deep || (match old {
        Some(o) => o.item_type == ItemType::File && metadata_differs_spec(o, entry),
        None => false,
    }))
}

pub open spec fn opt_state_view(old: Option<&ItemState>) -> Option<ItemStateM> {
    match old {
        Some(o) => Some(o@),
        None => None,
    }
}

pub open spec fn opt_entry_view(entry: Option<&ObservedEntry>) -> Option<EntryM> {
    match entry {
        Some(e) => Some(e@),
        None => None,
    }
}

fn opt_bytes_exec_eq(a: &Option<Vec<u8>>, b: &Option<Vec<u8>>) -> (r: bool)
    ensures
        r == (opt_bytes_view(*a) == opt_bytes_view(*b)),
{
    match (a, b) {
        (None, None) => true,
        (Some(x), Some(y)) => crate::paths::bytes_eq(x, y),
        _ => false,
    }
}

/// Classifies one path per the decision table; pure in its arguments.
pub fn classify(old: Option<&ItemState>, entry: Option<&ObservedEntry>, deep: bool) -> (r:
    Outcome)
    ensures
        r == classify_spec(opt_state_view(old), opt_entry_view(entry), deep),
{
    match (old, entry) {
        (None, None) => Outcome::NoChange,
        (None, Some(_)) => Outcome::Add,
        (Some(_), None) => Outcome::Delete,
        (Some(o), Some(e)) => {
            if o.item_type != e.item_type {
                Outcome::TypeChange
            } else {
                let metadata_changed = o.last_modified != e.last_modified
                    || (e.item_type == ItemType::File && o.file_size != e.file_size);
                let comparable = o.file_hash.is_some() && e.digest.is_some();
                let hashes_equal = opt_bytes_exec_eq(&o.file_hash, &e.digest);
                if metadata_changed {
                    let hash_changed: Option<bool> = if comparable {
                        Some(!hashes_equal)
                    } else {
                        None
                    };
                    Outcome::Modify { metadata_changed: true, hash_changed }
                } else if comparable {
                    if hashes_equal {
                        Outcome::NoChange
                    } else {
                        Outcome::Modify { metadata_changed: false, hash_changed: Some(true) }
                    }
                } else if e.digest.is_some() || deep {
                    Outcome::Modify { metadata_changed: false, hash_changed: None }
                } else {
                    Outcome::NoChange
                }
            }
        },
    }
}

/// Decides whether content hashing is required for this entry.
pub fn hash_is_needed(old: Option<&ItemState>, entry: &ObservedEntry, deep: bool) -> (r: bool)
    ensures
        r == hash_needed_spec(opt_state_view(old), entry@, deep),
{
    if entry.item_type != ItemType::File {
        false
    } else if deep {
        true
    } else {
        match old {
            Some(o) => {
                o.item_type == ItemType::File
                    && (o.last_modified != entry.last_modified || o.file_size != entry.file_size)
            },
            None => false,
        }
    }
}

} // verus!
