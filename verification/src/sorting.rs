//! Stable sorting of keyed rows, used to answer queries ordered by
//! `last_update` or by timestamp.

use vstd::prelude::*;

verus! {

/// Insert `x` into `s` after every element whose key is at most `x`'s, so
/// equal keys keep their arrival order.
pub open spec fn stable_insert<T>(s: Seq<(i64, T)>, x: (i64, T)) -> Seq<(i64, T)>
    decreases s.len(),
{
    if s.len() == 0 {
        seq![x]
    } else if x.0 < s.last().0 {
        stable_insert(s.drop_last(), x).push(s.last())
    } else {
        s.push(x)
    }
}

/// Stable insertion sort by key, ascending.
pub open spec fn stable_sort_by_key<T>(s: Seq<(i64, T)>) -> Seq<(i64, T)>
    decreases s.len(),
{
    if s.len() == 0 {
        Seq::empty()
    } else {
        stable_insert(stable_sort_by_key(s.drop_last()), s.last())
    }
}

/// Where `stable_insert` puts `x`: at the first position `j` from which on
/// every key exceeds `x`'s.
proof fn lemma_stable_insert_at<T>(s: Seq<(i64, T)>, x: (i64, T), j: int)
    requires
        0 <= j <= s.len(),
        forall|k: int| j <= k < s.len() ==> x.0 < (#[trigger] s[k]).0,
        j > 0 ==> s[j - 1].0 <= x.0,
    ensures
        stable_insert(s, x) == s.subrange(0, j) + seq![x] + s.subrange(j, s.len() as int),
    decreases s.len(),
{
    if s.len() == 0 {
        assert(stable_insert(s, x) =~= s.subrange(0, j) + seq![x] + s.subrange(j, 0));
    } else if x.0 < s.last().0 {
        assert(j < s.len());
        lemma_stable_insert_at(s.drop_last(), x, j);
        assert(s.drop_last().subrange(0, j) =~= s.subrange(0, j));
        assert(s.drop_last().subrange(j, s.len() - 1) =~= s.subrange(j, s.len() - 1));
        assert((s.subrange(0, j) + seq![x] + s.subrange(j, s.len() - 1)).push(s.last()) =~= s
            .subrange(0, j) + seq![x] + s.subrange(j, s.len() as int));
    } else {
        assert(j == s.len()) by {
            if j < s.len() {
                assert(x.0 < s[s.len() - 1].0);
            }
        }
        assert(s.push(x) =~= s.subrange(0, j) + seq![x] + s.subrange(j, s.len() as int));
    }
}

/// Inserting adds one row and draws every row from the input.
pub proof fn lemma_stable_insert_elements<T>(s: Seq<(i64, T)>, x: (i64, T))
    ensures
        stable_insert(s, x).len() == s.len() + 1,
        forall|k: int|
            0 <= k < stable_insert(s, x).len() ==> #[trigger] stable_insert(s, x)[k] == x
                || s.contains(stable_insert(s, x)[k]),
    decreases s.len(),
{
    let r = stable_insert(s, x);
    if s.len() == 0 {
    } else if x.0 < s.last().0 {
        lemma_stable_insert_elements(s.drop_last(), x);
        let rec = stable_insert(s.drop_last(), x);
        assert forall|k: int| 0 <= k < r.len() implies r[k] == x || s.contains(r[k]) by {
            if k < rec.len() {
                assert(r[k] == rec[k]);
                if rec[k] != x {
                    let t = choose|t: int|
                        0 <= t < s.drop_last().len() && s.drop_last()[t] == rec[k];
                    assert(s[t] == rec[k]);
                }
            } else {
                assert(r[k] == s.last());
                assert(s[s.len() - 1] == s.last());
            }
        }
    } else {
        assert forall|k: int| 0 <= k < r.len() implies r[k] == x || s.contains(r[k]) by {
            if k < s.len() {
                assert(r[k] == s[k]);
            }
        }
    }
}

/// Sorting keeps the length and draws every row from the input.
pub proof fn lemma_stable_sort_elements<T>(s: Seq<(i64, T)>)
    ensures
        stable_sort_by_key(s).len() == s.len(),
        forall|k: int|
            0 <= k < s.len() ==> s.contains(#[trigger] stable_sort_by_key(s)[k]),
    decreases s.len(),
{
    if s.len() > 0 {
        lemma_stable_sort_elements(s.drop_last());
        lemma_stable_insert_elements(stable_sort_by_key(s.drop_last()), s.last());
        let rec = stable_sort_by_key(s.drop_last());
        let r = stable_sort_by_key(s);
        assert forall|k: int| 0 <= k < s.len() implies s.contains(#[trigger] r[k]) by {
            if r[k] == s.last() {
                assert(s[s.len() - 1] == s.last());
            } else {
                let t = choose|t: int| 0 <= t < rec.len() && rec[t] == r[k];
                assert(s.drop_last().contains(rec[t]));
                let u = choose|u: int| 0 <= u < s.drop_last().len() && s.drop_last()[u] == rec[t];
                assert(s[u] == r[k]);
            }
        }
    }
}

/// Sorts keyed rows by key, ascending and stable.
pub fn sort_pairs<T>(v: Vec<(i64, T)>) -> (r: Vec<(i64, T)>)
    ensures
        r@ == stable_sort_by_key(v@),
{
    let ghost orig = v@;
    let mut src = v;
    let mut out: Vec<(i64, T)> = Vec::new();
    let ghost mut done: int = 0;
    proof {
        assert(orig.take(0) =~= Seq::<(i64, T)>::empty());
        assert(out@ == stable_sort_by_key(orig.take(0)));
    }
    while src.len() > 0
        invariant
            0 <= done <= orig.len(),
            src@ == orig.skip(done),
            out@ == stable_sort_by_key(orig.take(done)),
        decreases src@.len(),
    {
        let x = src.remove(0);
        proof {
            assert(orig.skip(done)[0] == orig[done]);
            assert(orig.skip(done).remove(0) =~= orig.skip(done + 1));
        }
        // Find the insertion point, scanning back over strictly larger keys.
        let mut j: usize = out.len();
        while j > 0 && x.0 < out[j - 1].0
            invariant
                j <= out@.len(),
                forall|k: int| j <= k < out@.len() ==> x.0 < (#[trigger] out@[k]).0,
            decreases j,
        {
            j = j - 1;
        }
        proof {
            lemma_stable_insert_at(out@, x, j as int);
            assert(out@.insert(j as int, x) =~= out@.subrange(0, j as int) + seq![x] + out@
                .subrange(j as int, out@.len() as int));
            assert(orig.take(done + 1).drop_last() =~= orig.take(done));
            assert(orig.take(done + 1).last() == orig[done]);
        }
        out.insert(j, x);
        proof {
            done = done + 1;
        }
    }
    proof {
        assert(orig.take(done) =~= orig);
    }
    out
}

} // verus!
