//! Lexicographic order on byte-string keys.

use vstd::prelude::*;

verus! {

/// Strict lexicographic order on byte sequences: `a` comes before `b`.
pub open spec fn lex_less(a: Seq<u8>, b: Seq<u8>) -> bool
    decreases a.len(),
{
    if b.len() == 0 {
        false
    } else if a.len() == 0 {
        true
    } else if a[0] < b[0] {
        true
    } else if a[0] > b[0] {
        false
    } else {
        lex_less(a.skip(1), b.skip(1))
    }
}

/// `a ≤ b` in the lexicographic order.
pub open spec fn lex_leq(a: Seq<u8>, b: Seq<u8>) -> bool {
    lex_less(a, b) || a == b
}

/// The outcome of comparing two keys.
#[derive(Debug, Clone, Copy, PartialEq, Eq, Structural)]
pub enum KeyCmp {
    Lt,
    Eq,
    Gt,
}

/// The lexicographic order is total: two keys compare one way or the other,
/// or they are equal — and only one of the three holds.
pub proof fn lemma_lex_total(a: Seq<u8>, b: Seq<u8>)
    ensures
        lex_less(a, b) || lex_less(b, a) || a == b,
        lex_less(a, b) ==> !lex_less(b, a) && a != b,
        lex_less(b, a) ==> !lex_less(a, b) && a != b,
    decreases a.len(),
{
    if a.len() == 0 || b.len() == 0 {
        if a.len() == 0 && b.len() == 0 {
            assert(a =~= b);
        }
    } else {
        lemma_lex_total(a.skip(1), b.skip(1));
        if a[0] == b[0] {
            if a.skip(1) == b.skip(1) {
                assert(a.len() == b.len());
                assert forall|i: int| 0 <= i < a.len() implies a[i] == b[i] by {
                    if i >= 1 {
                        assert(a[i] == a.skip(1)[i - 1]);
                        assert(b[i] == b.skip(1)[i - 1]);
                    }
                }
                assert(a =~= b);
            }
            if a == b {
                assert(a.skip(1) =~= b.skip(1));
            }
        }
    }
}

/// The lexicographic order is transitive.
pub proof fn lemma_lex_trans(a: Seq<u8>, b: Seq<u8>, c: Seq<u8>)
    requires
        lex_less(a, b),
        lex_less(b, c),
    ensures
        lex_less(a, c),
    decreases a.len(),
{
    if b.len() == 0 || c.len() == 0 {
    } else if a.len() == 0 {
    } else {
        if a[0] == b[0] && b[0] == c[0] {
            lemma_lex_trans(a.skip(1), b.skip(1), c.skip(1));
        }
    }
}

/// Compare two keys byte for byte.
pub fn compare_keys(a: &Vec<u8>, b: &Vec<u8>) -> (c: KeyCmp)
    ensures
        c is Lt <==> lex_less(a@, b@),
        c is Eq <==> a@ == b@,
        c is Gt <==> lex_less(b@, a@),
{
    proof {
        lemma_lex_total(a@, b@);
    }
    let a_len = a.len();
    let b_len = b.len();
    let n = if a_len < b_len {
        a_len
    } else {
        b_len
    };
    let mut i: usize = 0;
    proof {
        assert(a@.skip(0) =~= a@);
        assert(b@.skip(0) =~= b@);
    }
    while i < n
        invariant
            n <= a@.len(),
            n <= b@.len(),
            n == if a@.len() < b@.len() {
                a@.len()
            } else {
                b@.len()
            },
            i <= n,
            forall|j: int| 0 <= j < i ==> a@[j] == b@[j],
            lex_less(a@, b@) == lex_less(a@.skip(i as int), b@.skip(i as int)),
            lex_less(b@, a@) == lex_less(b@.skip(i as int), a@.skip(i as int)),
            (a@ == b@) <==> (a@.skip(i as int) =~= b@.skip(i as int)),
        decreases n - i,
    {
        let x = a[i];
        let y = b[i];
        if x < y {
            return KeyCmp::Lt;
        }
        if x > y {
            return KeyCmp::Gt;
        }
        proof {
            assert(a@.skip(i as int).skip(1) =~= a@.skip(i as int + 1));
            assert(b@.skip(i as int).skip(1) =~= b@.skip(i as int + 1));
            if a@ == b@ {
                assert(a@.skip(i as int + 1) =~= b@.skip(i as int + 1));
            }
            if a@.skip(i as int + 1) =~= b@.skip(i as int + 1) {
                assert(a@.len() == b@.len());
                assert forall|j: int| 0 <= j < a@.len() implies a@[j] == b@[j] by {
                    if j > i {
                        assert(a@[j] == a@.skip(i as int + 1)[j - i - 1]);
                        assert(b@[j] == b@.skip(i as int + 1)[j - i - 1]);
                    }
                }
                assert(a@ =~= b@);
            }
        }
        i = i + 1;
    }
    if a_len == b_len {
        proof {
            assert(a@ =~= b@);
        }
        KeyCmp::Eq
    } else if a_len < b_len {
        KeyCmp::Lt
    } else {
        KeyCmp::Gt
    }
}

} // verus!
