//! Byte-wise lexicographic order on relative paths.
//!
//! The engine stores every path as its raw bytes and keeps both the
//! item table and every walker stream sorted by this order; the
//! reconciliation merge depends on the two streams agreeing on it.

use vstd::prelude::*;

verus! {

/// Strict byte-lexicographic order: `a` sorts before `b`.
pub open spec fn lex_lt(a: Seq<u8>, b: Seq<u8>) -> bool
    decreases a.len(),
{
    if b.len() == 0 {
        false
    } else if a.len() == 0 {
        true
    } else if a[0] < b[0] {
        true
    } else if a[0] > b[0] {
        false
    } else {
        lex_lt(a.drop_first(), b.drop_first())
    }
}

pub open spec fn lex_le(a: Seq<u8>, b: Seq<u8>) -> bool {
    lex_lt(a, b) || a == b
}

pub proof fn lemma_lex_irrefl(a: Seq<u8>)
    ensures
        !lex_lt(a, a),
    decreases a.len(),
{
    if a.len() > 0 {
        lemma_lex_irrefl(a.drop_first());
    }
}

pub proof fn lemma_lex_trans(a: Seq<u8>, b: Seq<u8>, c: Seq<u8>)
    requires
        lex_lt(a, b),
        lex_lt(b, c),
    ensures
        lex_lt(a, c),
    decreases a.len() + b.len() + c.len(),
{
    if a.len() > 0 && b.len() > 0 && c.len() > 0 {
        if a[0] == b[0] && b[0] == c[0] {
            lemma_lex_trans(a.drop_first(), b.drop_first(), c.drop_first());
        }
    }
}

pub proof fn lemma_lex_asym(a: Seq<u8>, b: Seq<u8>)
    requires
        lex_lt(a, b),
    ensures
        !lex_lt(b, a),
        a != b,
{
    lemma_lex_irrefl(a);
    if lex_lt(b, a) {
        lemma_lex_trans(a, b, a);
    }
}

/// The order is total: two paths are ordered one way, the other, or equal.
pub proof fn lemma_lex_total(a: Seq<u8>, b: Seq<u8>)
    ensures
        lex_lt(a, b) || lex_lt(b, a) || a == b,
    decreases a.len(),
{
    if a.len() == 0 && b.len() == 0 {
        assert(a =~= b);
    } else if a.len() > 0 && b.len() > 0 {
        if a[0] == b[0] {
            lemma_lex_total(a.drop_first(), b.drop_first());
            if a.drop_first() == b.drop_first() {
                assert(a =~= b) by {
                    assert(a.len() == 1 + a.drop_first().len());
                    assert(b.len() == 1 + b.drop_first().len());
                    assert(forall|k: int| 1 <= k < a.len() ==> a[k] == a.drop_first()[k - 1]);
                    assert(forall|k: int| 1 <= k < b.len() ==> b[k] == b.drop_first()[k - 1]);
                }
            }
        }
    }
}

/// A shared proper prefix followed by a smaller byte (or exhaustion of
/// `a`) puts `a` strictly before `b`.
proof fn lemma_lex_from_prefix(a: Seq<u8>, b: Seq<u8>, i: int)
    requires
        0 <= i <= a.len(),
        i <= b.len(),
        a.subrange(0, i) == b.subrange(0, i),
        (i == a.len() && i < b.len()) || (i < a.len() && i < b.len() && a[i] < b[i]),
    ensures
        lex_lt(a, b),
    decreases i,
{
    if i == 0 {
        // Either a is empty and b is not, or the very first bytes differ.
    } else {
        assert(a.subrange(0, i)[0] == a[0]);
        assert(b.subrange(0, i)[0] == b[0]);
        assert(a[0] == b[0]);
        assert(a.drop_first().subrange(0, i - 1) =~= b.drop_first().subrange(0, i - 1)) by {
            assert(forall|k: int|
                0 <= k < i - 1 ==> a.drop_first()[k] == a.subrange(0, i)[k + 1]
                    && b.drop_first()[k] == b.subrange(0, i)[k + 1]);
        }
        lemma_lex_from_prefix(a.drop_first(), b.drop_first(), i - 1);
    }
}

/// The three ways two paths can compare.
#[derive(Debug, PartialEq, Eq, Copy, Clone, Structural)]
pub enum PathOrder {
    Before,
    Same,
    After,
}

/// Compares two paths in byte-lexicographic order.
pub fn path_cmp(a: &Vec<u8>, b: &Vec<u8>) -> (r: PathOrder)
    ensures
        (r == PathOrder::Before) == lex_lt(a@, b@),
        (r == PathOrder::Same) == (a@ == b@),
        (r == PathOrder::After) == lex_lt(b@, a@),
{
    let mut i: usize = 0;
    loop
        invariant
            i <= a.len(),
            i <= b.len(),
            a@.subrange(0, i as int) == b@.subrange(0, i as int),
        decreases a.len() - i,
    {
        if i == a.len() && i == b.len() {
            proof {
                assert(a@ =~= a@.subrange(0, i as int));
                assert(b@ =~= b@.subrange(0, i as int));
                lemma_lex_irrefl(a@);
            }
            return PathOrder::Same;
        } else if i == a.len() {
            proof {
                lemma_lex_from_prefix(a@, b@, i as int);
                lemma_lex_asym(a@, b@);
            }
            return PathOrder::Before;
        } else if i == b.len() {
            proof {
                lemma_lex_from_prefix(b@, a@, i as int);
                lemma_lex_asym(b@, a@);
            }
            return PathOrder::After;
        } else {
            let x = a[i];
            let y = b[i];
            if x < y {
                proof {
                    lemma_lex_from_prefix(a@, b@, i as int);
                    lemma_lex_asym(a@, b@);
                }
                return PathOrder::Before;
            } else if y < x {
                proof {
                    lemma_lex_from_prefix(b@, a@, i as int);
                    lemma_lex_asym(b@, a@);
                }
                return PathOrder::After;
            } else {
                proof {
                    assert(a@.subrange(0, i + 1) =~= b@.subrange(0, i + 1)) by {
                        assert(forall|k: int|
                            0 <= k < i ==> a@.subrange(0, i + 1)[k] == a@.subrange(0, i as int)[k]
                                && b@.subrange(0, i + 1)[k] == b@.subrange(0, i as int)[k]);
                    }
                }
                i = i + 1;
            }
        }
    }
}

/// Whether two byte strings are equal.
pub fn bytes_eq(a: &Vec<u8>, b: &Vec<u8>) -> (r: bool)
    ensures
        r == (a@ == b@),
{
    match path_cmp(a, b) {
        PathOrder::Same => true,
        _ => false,
    }
}

/// Copies a byte string.
pub fn bytes_dup(a: &Vec<u8>) -> (r: Vec<u8>)
    ensures
        r@ == a@,
{
    let mut r: Vec<u8> = Vec::new();
    let mut i: usize = 0;
    while i < a.len()
        invariant
            i <= a.len(),
            r@ == a@.subrange(0, i as int),
        decreases a.len() - i,
    {
        r.push(a[i]);
        proof {
            assert(r@ =~= a@.subrange(0, i + 1));
        }
        i = i + 1;
    }
    proof {
        assert(a@.subrange(0, a@.len() as int) =~= a@);
    }
    r
}

} // verus!
