//! String comparison helpers: equality and the code-point order the store
//! uses to keep secrets sorted by key.

use vstd::prelude::*;

verus! {

/// Strict lexicographic order on character sequences by code point, which for
/// UTF-8 encoded text coincides with byte order.
pub open spec fn lex_lt(a: Seq<char>, b: Seq<char>) -> bool
    decreases a.len(),
{
    if b.len() == 0 {
        false
    } else if a.len() == 0 {
        true
    } else if (a[0] as u32) < (b[0] as u32) {
        true
    } else if (b[0] as u32) < (a[0] as u32) {
        false
    } else {
        lex_lt(a.skip(1), b.skip(1))
    }
}

/// Non-strict companion of [`lex_lt`].
pub open spec fn lex_le(a: Seq<char>, b: Seq<char>) -> bool {
    lex_lt(a, b) || a == b
}

/// Code-point order is total: of two sequences, the first is at most the
/// second, or the second is strictly before the first — never both ways.
pub proof fn lemma_lex_order(a: Seq<char>, b: Seq<char>)
    ensures
        lex_le(a, b) || lex_lt(b, a),
        !(lex_lt(a, b) && lex_lt(b, a)),
        lex_lt(a, b) ==> a != b,
    decreases a.len(),
{
    if b.len() == 0 {
        if a.len() == 0 {
            assert(a =~= b);
        }
    } else if a.len() == 0 {
    } else {
        let au = a[0] as u32;
        let bu = b[0] as u32;
        if au < bu || bu < au {
            if a == b {
                assert(a[0] == b[0]);
            }
        } else {
            vstd::utf8::char_u32_cast(a[0], au);
            vstd::utf8::char_u32_cast(b[0], bu);
            assert(a[0] == b[0]);
            lemma_lex_order(a.skip(1), b.skip(1));
            if a.skip(1) == b.skip(1) {
                assert(a =~= b) by {
                    assert forall|k: int| 0 <= k < a.len() implies a[k] == b[k] by {
                        if k > 0 {
                            assert(a.skip(1)[k - 1] == a[k]);
                            assert(b.skip(1)[k - 1] == b[k]);
                        }
                    }
                }
            }
            if a == b {
                assert(a.skip(1) == b.skip(1));
            }
        }
    }
}

/// Strict code-point order is transitive.
pub proof fn lemma_lex_lt_trans(a: Seq<char>, b: Seq<char>, c: Seq<char>)
    requires
        lex_lt(a, b),
        lex_lt(b, c),
    ensures
        lex_lt(a, c),
    decreases a.len(),
{
    if a.len() == 0 {
        assert(c.len() > 0);
    } else {
        assert(b.len() > 0 && c.len() > 0);
        let au = a[0] as u32;
        let bu = b[0] as u32;
        let cu = c[0] as u32;
        if au == bu && bu == cu {
            lemma_lex_lt_trans(a.skip(1), b.skip(1), c.skip(1));
        }
    }
}

/// Character-for-character equality of two string slices.
pub fn str_eq(a: &str, b: &str) -> (r: bool)
    ensures
        r == (a@ == b@),
{
    let a_len = a.unicode_len();
    let b_len = b.unicode_len();
    if a_len != b_len {
        return false;
    }
    let mut i: usize = 0;
    while i < a_len
        invariant
            a_len == a@.len(),
            b_len == b@.len(),
            a_len == b_len,
            i <= a_len,
            forall|j: int| 0 <= j < i ==> a@[j] == b@[j],
        decreases a_len - i,
    {
        if a.get_char(i) != b.get_char(i) {
            return false;
        }
        i = i + 1;
    }
    proof {
        assert(a@ =~= b@);
    }
    true
}

/// Whether `a` sorts at or before `b` in code-point order.
pub fn str_le(a: &str, b: &str) -> (r: bool)
    ensures
        r == lex_le(a@, b@),
{
    let a_len = a.unicode_len();
    let b_len = b.unicode_len();
    let mut i: usize = 0;
    proof {
        assert(a@.skip(0) =~= a@);
        assert(b@.skip(0) =~= b@);
    }
    loop
        invariant
            a_len == a@.len(),
            b_len == b@.len(),
            i <= a_len,
            i <= b_len,
            lex_le(a@, b@) == lex_le(a@.skip(i as int), b@.skip(i as int)),
        decreases a_len - i,
    {
        let ghost ai = a@.skip(i as int);
        let ghost bi = b@.skip(i as int);
        if i == a_len {
            proof {
                assert(ai.len() == 0);
                if i == b_len {
                    assert(ai =~= bi);
                } else {
                    assert(bi.len() > 0);
                    assert(lex_lt(ai, bi));
                }
            }
            return true;
        }
        if i == b_len {
            proof {
                assert(bi.len() == 0);
                assert(!lex_lt(ai, bi));
                assert(ai.len() != bi.len());
            }
            return false;
        }
        let ca = a.get_char(i);
        let cb = b.get_char(i);
        proof {
            assert(ai[0] == a@[i as int]);
            assert(bi[0] == b@[i as int]);
        }
        if (ca as u32) < (cb as u32) {
            proof {
                assert(lex_lt(ai, bi));
            }
            return true;
        }
        if (cb as u32) < (ca as u32) {
            proof {
                assert(!lex_lt(ai, bi));
                assert(ai[0] != bi[0]);
                assert(ai != bi);
            }
            return false;
        }
        proof {
            assert(ca == cb);
            assert(ai.skip(1) =~= a@.skip(i + 1));
            assert(bi.skip(1) =~= b@.skip(i + 1));
            assert(lex_lt(ai, bi) == lex_lt(ai.skip(1), bi.skip(1)));
            if ai.skip(1) == bi.skip(1) {
                assert(ai.skip(1).len() == bi.skip(1).len());
                assert forall|k: int| 0 <= k < ai.len() implies ai[k] == bi[k] by {
                    if k > 0 {
                        assert(ai.skip(1)[k - 1] == ai[k]);
                        assert(bi.skip(1)[k - 1] == bi[k]);
                    }
                }
                assert(ai =~= bi);
            }
            if ai == bi {
                assert(ai.skip(1) == bi.skip(1));
            }
        }
        i = i + 1;
    }
}

} // verus!
