//! Change kinds and per-scan change accounting.

use vstd::prelude::*;
use vstd::string::StringSliceAdditionalSpecFns;

verus! {

/// The classification a scan gives to one filesystem entry.
///
/// `NoChange` is never persisted as a change row; it exists so the
/// classifier can report "nothing to record" and so unchanged entries
/// can still be counted.
#[derive(Debug, PartialEq, Eq, Copy, Clone, Structural)]
pub enum ChangeType {
    Add,
    Delete,
    Modify,
    TypeChange,
    NoChange,
}

impl ChangeType {
    /// The single-character code under which this kind is persisted.
    pub open spec fn db_str_spec(self) -> Seq<char> {
        match self {
            ChangeType::Add => seq!['A'],
            ChangeType::Delete => seq!['D'],
            ChangeType::Modify => seq!['M'],
            ChangeType::TypeChange => seq!['T'],
            ChangeType::NoChange => seq!['N'],
        }
    }

    /// The single-byte code under which this kind is persisted.
    pub open spec fn db_byte_spec(self) -> u8 {
        match self {
            ChangeType::Add => 65u8,
            ChangeType::Delete => 68u8,
            ChangeType::Modify => 77u8,
            ChangeType::TypeChange => 84u8,
            ChangeType::NoChange => 78u8,
        }
    }

    /// Which kind, if any, a persisted byte sequence decodes to.
    pub open spec fn from_bytes_spec(s: Seq<u8>) -> Option<ChangeType> {
        if s == seq![65u8] {
            Some(ChangeType::Add)
        } else if s == seq![68u8] {
            Some(ChangeType::Delete)
        } else if s == seq![77u8] {
            Some(ChangeType::Modify)
        } else if s == seq![84u8] {
            Some(ChangeType::TypeChange)
        } else if s == seq![78u8] {
            Some(ChangeType::NoChange)
        } else {
            None
        }
    }

    pub fn as_db_str(&self) -> (r: &'static str)
        ensures
            r@ == self.db_str_spec(),
    {
        proof {
            reveal_strlit("A");
            reveal_strlit("D");
            reveal_strlit("M");
            reveal_strlit("T");
            reveal_strlit("N");
        }
        match self {
            ChangeType::Add => "A",
            ChangeType::Delete => "D",
            ChangeType::Modify => "M",
            ChangeType::TypeChange => "T",
            ChangeType::NoChange => "N",
        }
    }

    /// Decodes a persisted change-type code; `None` on anything else.
    pub fn from_db_str(s: &str) -> (r: Option<ChangeType>)
        ensures
            r == Self::from_bytes_spec(s.spec_bytes()),
    {
        let b = s.as_bytes();
        if b.len() != 1 {
            assert(forall|c: ChangeType| s.spec_bytes() != seq![c.db_byte_spec()]);
            None
        } else {
            assert(s.spec_bytes() =~= seq![s.spec_bytes()[0]]);
            match b[0] {
                65u8 => Some(ChangeType::Add),
                68u8 => Some(ChangeType::Delete),
                77u8 => Some(ChangeType::Modify),
                84u8 => Some(ChangeType::TypeChange),
                78u8 => Some(ChangeType::NoChange),
                _ => None,
            }
        }
    }
}

/// How many changes of each kind one scan produced.
///
/// The unchanged count is derived at reconciliation time; unchanged
/// entries never persist a change row.
#[derive(Debug)]
pub struct ChangeCounts {
    add_count: i64,
    modify_count: i64,
    delete_count: i64,
    type_change_count: i64,
    unchanged_count: i64,
}

impl ChangeCounts {
    /// The count this tally holds for a given kind.
    pub closed spec fn count_of(self, change_type: ChangeType) -> i64 {
        match change_type {
            ChangeType::Add => self.add_count,
            ChangeType::Delete => self.delete_count,
            ChangeType::Modify => self.modify_count,
            ChangeType::TypeChange => self.type_change_count,
            ChangeType::NoChange => self.unchanged_count,
        }
    }

    pub open spec fn all_zero(self) -> bool {
        forall|c: ChangeType| self.count_of(c) == 0
    }

    pub fn new() -> (r: ChangeCounts)
        ensures
            r.all_zero(),
    {
        ChangeCounts {
            add_count: 0,
            modify_count: 0,
            delete_count: 0,
            type_change_count: 0,
            unchanged_count: 0,
        }
    }

    pub fn get(&self, change_type: ChangeType) -> (r: i64)
        ensures
            r == self.count_of(change_type),
    {
        match change_type {
            ChangeType::Add => self.add_count,
            ChangeType::Delete => self.delete_count,
            ChangeType::Modify => self.modify_count,
            ChangeType::TypeChange => self.type_change_count,
            ChangeType::NoChange => self.unchanged_count,
        }
    }

    pub fn increment(&mut self, change_type: ChangeType)
        requires
            old(self).count_of(change_type) < i64::MAX,
        ensures
            final(self).count_of(change_type) == old(self).count_of(change_type) + 1,
            forall|c: ChangeType|
                c != change_type ==> final(self).count_of(c) == old(self).count_of(c),
    {
        match change_type {
            ChangeType::Add => self.add_count = self.add_count + 1,
            ChangeType::Delete => self.delete_count = self.delete_count + 1,
            ChangeType::Modify => self.modify_count = self.modify_count + 1,
            ChangeType::TypeChange => self.type_change_count = self.type_change_count + 1,
            ChangeType::NoChange => self.unchanged_count = self.unchanged_count + 1,
        }
    }

    pub fn set(&mut self, change_type: ChangeType, count: i64)
        ensures
            final(self).count_of(change_type) == count,
            forall|c: ChangeType|
                c != change_type ==> final(self).count_of(c) == old(self).count_of(c),
    {
        match change_type {
            ChangeType::Add => self.add_count = count,
            ChangeType::Delete => self.delete_count = count,
            ChangeType::Modify => self.modify_count = count,
            ChangeType::TypeChange => self.type_change_count = count,
            ChangeType::NoChange => self.unchanged_count = count,
        }
    }
}

impl Default for ChangeCounts {
    fn default() -> (r: ChangeCounts)
        ensures
            r.all_zero(),
    {
        ChangeCounts::new()
    }
}

} // verus!
