//! Byte-level text primitives: finding a delimiter, trimming surrounding
//! whitespace, and splitting or joining on a single space.
//!
//! Tokenization policy: values are split on one space byte per delimiter, so
//! repeated spaces yield empty tokens, which later fail numeric validation.
//! Trimming removes the ASCII whitespace bytes (space, tab, CR, LF) from both
//! ends of a line.

use vstd::prelude::*;

verus! {

/// An ASCII whitespace byte: space, horizontal tab, line feed or carriage return.
pub open spec fn is_ws(b: u8) -> bool {
    b == 32 || b == 9 || b == 10 || b == 13
}

/// Index of the first occurrence of `b1` or `b2` in `s`, or `s.len()` if absent.
pub open spec fn find2(s: Seq<u8>, b1: u8, b2: u8) -> int
    decreases s.len(),
{
    if s.len() == 0 {
        0
    } else if s[0] == b1 || s[0] == b2 {
        0
    } else {
        1 + find2(s.skip(1), b1, b2)
    }
}

/// Index of the first occurrence of `b` in `s`, or `s.len()` if absent.
pub open spec fn find_byte(s: Seq<u8>, b: u8) -> int {
    find2(s, b, b)
}

pub proof fn lemma_find2_bounds(s: Seq<u8>, b1: u8, b2: u8)
    ensures
        0 <= find2(s, b1, b2) <= s.len(),
        forall|i: int| 0 <= i < find2(s, b1, b2) ==> s[i] != b1 && s[i] != b2,
        find2(s, b1, b2) < s.len() ==> s[find2(s, b1, b2)] == b1 || s[find2(s, b1, b2)] == b2,
    decreases s.len(),
{
    if s.len() == 0 {
    } else if s[0] == b1 || s[0] == b2 {
    } else {
        lemma_find2_bounds(s.skip(1), b1, b2);
        assert forall|i: int| 0 <= i < find2(s, b1, b2) implies s[i] != b1 && s[i] != b2 by {
            if i > 0 {
                assert(s.skip(1)[i - 1] == s[i]);
            }
        }
        if find2(s, b1, b2) < s.len() {
            assert(s.skip(1)[find2(s.skip(1), b1, b2)] == s[find2(s, b1, b2)]);
        }
    }
}

/// `find2` is pinned down by its characterization.
pub proof fn lemma_find2_is(s: Seq<u8>, b1: u8, b2: u8, k: int)
    requires
        0 <= k <= s.len(),
        forall|i: int| 0 <= i < k ==> s[i] != b1 && s[i] != b2,
        k < s.len() ==> s[k] == b1 || s[k] == b2,
    ensures
        find2(s, b1, b2) == k,
    decreases s.len(),
{
    if s.len() == 0 {
    } else if k == 0 {
    } else {
        assert(s[0] != b1 && s[0] != b2);
        lemma_find2_is(s.skip(1), b1, b2, k - 1);
    }
}

/// Finds the first `b` in `s` at or after `from`.
pub fn find_byte_from(s: &[u8], from: usize, b: u8) -> (r: usize)
    requires
        from <= s@.len(),
    ensures
        r - from == find_byte(s@.skip(from as int), b),
        from <= r <= s@.len(),
{
    let n = s.len();
    let mut j = from;
    while j < n && s[j] != b
        invariant
            from <= j <= n,
            n == s@.len(),
            forall|i: int| from <= i < j ==> s@[i] != b,
        decreases n - j,
    {
        j += 1;
    }
    proof {
        let t = s@.skip(from as int);
        assert forall|i: int| 0 <= i < j - from implies t[i] != b by {
            assert(t[i] == s@[from + i]);
        }
        if j < n {
            assert(t[j - from] == s@[j as int]);
        }
        lemma_find2_is(t, b, b, j - from);
    }
    j
}

/// Finds the first `b1` or `b2` in `s` at or after `from`.
pub fn find_byte_from2(s: &[u8], from: usize, b1: u8, b2: u8) -> (r: usize)
    requires
        from <= s@.len(),
    ensures
        r - from == find2(s@.skip(from as int), b1, b2),
        from <= r <= s@.len(),
{
    let n = s.len();
    let mut j = from;
    while j < n && s[j] != b1 && s[j] != b2
        invariant
            from <= j <= n,
            n == s@.len(),
            forall|i: int| from <= i < j ==> s@[i] != b1 && s@[i] != b2,
        decreases n - j,
    {
        j += 1;
    }
    proof {
        let t = s@.skip(from as int);
        assert forall|i: int| 0 <= i < j - from implies t[i] != b1 && t[i] != b2 by {
            assert(t[i] == s@[from + i]);
        }
        if j < n {
            assert(t[j - from] == s@[j as int]);
        }
        lemma_find2_is(t, b1, b2, j - from);
    }
    j
}

/// Index of the first non-whitespace byte in `s`, or `s.len()` if all whitespace.
pub open spec fn first_non_ws(s: Seq<u8>) -> int
    decreases s.len(),
{
    if s.len() == 0 {
        0
    } else if is_ws(s[0]) {
        1 + first_non_ws(s.skip(1))
    } else {
        0
    }
}

/// One past the index of the last non-whitespace byte, or 0 if all whitespace.
pub open spec fn last_non_ws_end(s: Seq<u8>) -> int
    decreases s.len(),
{
    if s.len() == 0 {
        0
    } else if is_ws(s.last()) {
        last_non_ws_end(s.drop_last())
    } else {
        s.len() as int
    }
}

/// `s` with ASCII whitespace removed from both ends.
pub open spec fn trim_spec(s: Seq<u8>) -> Seq<u8> {
    let lo = first_non_ws(s);
    if lo == s.len() {
        Seq::empty()
    } else {
        s.subrange(lo, last_non_ws_end(s))
    }
}

pub proof fn lemma_first_non_ws_is(s: Seq<u8>, k: int)
    requires
        0 <= k <= s.len(),
        forall|i: int| 0 <= i < k ==> is_ws(s[i]),
        k < s.len() ==> !is_ws(s[k]),
    ensures
        first_non_ws(s) == k,
    decreases s.len(),
{
    if s.len() == 0 {
    } else if k == 0 {
    } else {
        assert(is_ws(s[0]));
        lemma_first_non_ws_is(s.skip(1), k - 1);
    }
}

pub proof fn lemma_last_non_ws_end_is(s: Seq<u8>, k: int)
    requires
        0 <= k <= s.len(),
        forall|i: int| k <= i < s.len() ==> is_ws(s[i]),
        k > 0 ==> !is_ws(s[k - 1]),
    ensures
        last_non_ws_end(s) == k,
    decreases s.len(),
{
    if s.len() == 0 {
    } else if k == s.len() {
        assert(!is_ws(s.last()));
    } else {
        assert(is_ws(s.last()));
        assert forall|i: int| k <= i < s.drop_last().len() implies is_ws(s.drop_last()[i]) by {
            assert(s.drop_last()[i] == s[i]);
        }
        if k > 0 {
            assert(s.drop_last()[k - 1] == s[k - 1]);
        }
        lemma_last_non_ws_end_is(s.drop_last(), k);
    }
}

/// Copies `s` with ASCII whitespace removed from both ends.
pub fn trim_bytes(s: &[u8]) -> (r: Vec<u8>)
    ensures
        r@ == trim_spec(s@),
{
    let n = s.len();
    let mut lo: usize = 0;
    while lo < n && (s[lo] == 32 || s[lo] == 9 || s[lo] == 10 || s[lo] == 13)
        invariant
            0 <= lo <= n,
            n == s@.len(),
            forall|i: int| 0 <= i < lo ==> is_ws(s@[i]),
        decreases n - lo,
    {
        lo += 1;
    }
    proof {
        lemma_first_non_ws_is(s@, lo as int);
    }
    if lo == n {
        proof {
            assert(trim_spec(s@) =~= Seq::<u8>::empty());
        }
        return Vec::new();
    }
    let mut hi: usize = n;
    while hi > lo && (s[hi - 1] == 32 || s[hi - 1] == 9 || s[hi - 1] == 10 || s[hi - 1] == 13)
        invariant
            lo <= hi <= n,
            n == s@.len(),
            forall|i: int| hi <= i < n ==> is_ws(s@[i]),
        decreases hi,
    {
        hi -= 1;
    }
    proof {
        assert(!is_ws(s@[lo as int]));
        assert(hi > lo);
        lemma_last_non_ws_end_is(s@, hi as int);
    }
    vstd::slice::slice_to_vec(vstd::slice::slice_subrange(s, lo, hi))
}

/// The fields of `s`, split on every single space byte; empty fields are kept.
pub open spec fn split_sp(s: Seq<u8>) -> Seq<Seq<u8>>
    decreases s.len(),
    via split_sp_decreases
{
    let k = find_byte(s, 32);
    if k == s.len() {
        seq![s]
    } else {
        seq![s.take(k)] + split_sp(s.skip(k + 1))
    }
}

#[via_fn]
proof fn split_sp_decreases(s: Seq<u8>) {
    lemma_find2_bounds(s, 32, 32);
}

/// The elements of `ts` joined with a single space between neighbours.
pub open spec fn join_sp(ts: Seq<Seq<u8>>) -> Seq<u8>
    decreases ts.len(),
{
    if ts.len() == 0 {
        Seq::empty()
    } else if ts.len() == 1 {
        ts[0]
    } else {
        ts[0] + seq![32u8] + join_sp(ts.skip(1))
    }
}

/// Splitting on spaces undoes joining with spaces, whenever no field holds a
/// space itself.
pub proof fn lemma_split_join(ts: Seq<Seq<u8>>)
    requires
        ts.len() >= 1,
        forall|i: int, j: int|
            0 <= i < ts.len() && 0 <= j < ts[i].len() ==> #[trigger] ts[i][j] != 32,
    ensures
        split_sp(join_sp(ts)) == ts,
    decreases ts.len(),
{
    lemma_find2_bounds(join_sp(ts), 32, 32);
    if ts.len() == 1 {
        let s = join_sp(ts);
        assert(s == ts[0]);
        lemma_find2_is(s, 32, 32, s.len() as int);
        assert(split_sp(s) =~= ts);
    } else {
        let s = join_sp(ts);
        let h = ts[0];
        let rest = join_sp(ts.skip(1));
        assert(s == h + seq![32u8] + rest);
        assert forall|i: int| 0 <= i < h.len() implies s[i] != 32 by {
            assert(s[i] == ts[0][i]);
        }
        assert(s[h.len() as int] == 32);
        lemma_find2_is(s, 32, 32, h.len() as int);
        assert(s.take(h.len() as int) =~= h);
        assert(s.skip(h.len() as int + 1) =~= rest);
        assert forall|i: int, j: int|
            0 <= i < ts.skip(1).len() && 0 <= j < ts.skip(1)[i].len() implies #[trigger] ts.skip(
            1,
        )[i][j] != 32 by {
            assert(ts.skip(1)[i] == ts[i + 1]);
        }
        lemma_split_join(ts.skip(1));
        assert(split_sp(s) =~= seq![h] + split_sp(rest));
        assert(seq![h] + ts.skip(1) =~= ts);
    }
}

/// Splits `s` on single space bytes, keeping empty fields.
pub fn split_spaces(s: &[u8]) -> (r: Vec<Vec<u8>>)
    ensures
        r.deep_view() == split_sp(s@),
{
    let n = s.len();
    let mut r: Vec<Vec<u8>> = Vec::new();
    let mut start: usize = 0;
    let mut j: usize = 0;
    proof {
        assert(s@.skip(0) =~= s@);
        assert(r.deep_view() + split_sp(s@) =~= split_sp(s@));
    }
    while j < n
        invariant
            0 <= start <= j <= n,
            n == s@.len(),
            forall|i: int| start <= i < j ==> s@[i] != 32,
            split_sp(s@) =~= r.deep_view() + split_sp(s@.skip(start as int)),
        decreases n - j,
    {
        if s[j] == 32 {
            let tok = vstd::slice::slice_to_vec(vstd::slice::slice_subrange(s, start, j));
            let ghost rold = r.deep_view();
            proof {
                let t = s@.skip(start as int);
                assert forall|i: int| 0 <= i < j - start implies t[i] != 32 by {
                    assert(t[i] == s@[start + i]);
                }
                assert(t[j - start] == s@[j as int]);
                lemma_find2_is(t, 32, 32, j - start);
                assert(t.take(j - start) =~= tok@);
                assert(t.skip(j - start + 1) =~= s@.skip(j + 1));
                assert(split_sp(t) == seq![tok@] + split_sp(s@.skip(j + 1)));
            }
            r.push(tok);
            proof {
                assert(r.deep_view() =~~= rold.push(s@.skip(start as int).take(j - start)));
                assert(rold + (seq![s@.skip(start as int).take(j - start)] + split_sp(
                    s@.skip(j + 1),
                )) =~= r.deep_view() + split_sp(s@.skip(j + 1)));
            }
            start = j + 1;
        }
        j += 1;
    }
    let tok = vstd::slice::slice_to_vec(vstd::slice::slice_subrange(s, start, n));
    let ghost rold = r.deep_view();
    let ghost tokv = tok@;
    proof {
        let t = s@.skip(start as int);
        assert forall|i: int| 0 <= i < t.len() implies t[i] != 32 by {
            assert(t[i] == s@[start + i]);
        }
        lemma_find2_is(t, 32, 32, t.len() as int);
        assert(t =~= tok@);
        assert(split_sp(t) == seq![tok@]);
    }
    r.push(tok);
    proof {
        assert(r.deep_view() =~~= rold.push(tokv));
        assert(rold + seq![tokv] =~= r.deep_view());
        assert(r.deep_view() =~= split_sp(s@));
    }
    r
}

/// Appends all of `src` to `dst`.
pub fn push_all(dst: &mut Vec<u8>, src: &[u8])
    ensures
        final(dst)@ == old(dst)@ + src@,
{
    let n = src.len();
    let mut j: usize = 0;
    while j < n
        invariant
            0 <= j <= n,
            n == src@.len(),
            dst@ == old(dst)@ + src@.take(j as int),
        decreases n - j,
    {
        dst.push(src[j]);
        proof {
            assert(old(dst)@ + src@.take(j + 1) =~= (old(dst)@ + src@.take(j as int)).push(
                src@[j as int],
            ));
        }
        j += 1;
    }
    proof {
        assert(src@.take(n as int) =~= src@);
    }
}

/// Joins the elements of `ts` with a single space between neighbours.
pub fn join_spaces(ts: &Vec<Vec<u8>>) -> (r: Vec<u8>)
    ensures
        r@ == join_sp(ts.deep_view()),
{
    let n = ts.len();
    let mut r: Vec<u8> = Vec::new();
    if n == 0 {
        proof {
            assert(r@ =~= join_sp(ts.deep_view()));
        }
        return r;
    }
    let mut j: usize = 0;
    while j < n
        invariant
            0 <= j <= n,
            n == ts.deep_view().len(),
            r@ == join_sp(ts.deep_view().take(j as int)),
        decreases n - j,
    {
        if j > 0 {
            r.push(32);
        }
        push_all(&mut r, ts[j].as_slice());
        proof {
            assert(ts.deep_view()[j as int] == ts@[j as int].deep_view());
            assert(ts@[j as int].deep_view() =~= ts@[j as int]@);
            lemma_join_snoc(ts.deep_view(), j as int);
        }
        j += 1;
    }
    proof {
        assert(ts.deep_view().take(n as int) =~= ts.deep_view());
    }
    r
}

/// Unfolds one step of `join_sp` at the back of a prefix.
pub proof fn lemma_join_snoc(ts: Seq<Seq<u8>>, j: int)
    requires
        0 <= j < ts.len(),
    ensures
        join_sp(ts.take(j + 1)) == if j == 0 {
            ts[0]
        } else {
            join_sp(ts.take(j)) + seq![32u8] + ts[j]
        },
    decreases j,
{
    if j == 0 {
        assert(ts.take(1) =~= seq![ts[0]]);
        assert(join_sp(seq![ts[0]]) == ts[0]);
    } else {
        let p = ts.take(j + 1);
        assert(p.len() >= 2);
        assert(p[0] == ts[0]);
        assert(join_sp(p) == p[0] + seq![32u8] + join_sp(p.skip(1)));
        assert(p.skip(1) =~= ts.skip(1).take(j));
        lemma_join_snoc(ts.skip(1), j - 1);
        assert(ts.skip(1).take(j - 1 + 1) =~= ts.skip(1).take(j));
        if j == 1 {
            assert(join_sp(ts.skip(1).take(1)) == ts.skip(1)[0]);
            assert(ts.skip(1)[0] == ts[1]);
            assert(ts.take(1) =~= seq![ts[0]]);
            assert(join_sp(ts.take(j + 1)) =~= join_sp(ts.take(j)) + seq![32u8] + ts[j]);
        } else {
            assert(ts.skip(1)[j - 1] == ts[j]);
            assert(ts.skip(1).take(j - 1) =~= ts.take(j).skip(1));
            assert(ts.take(j).len() >= 2);
            assert(join_sp(ts.take(j)) == ts.take(j)[0] + seq![32u8] + join_sp(ts.take(j).skip(1)));
            assert(ts.take(j)[0] == ts[0]);
            assert(join_sp(ts.take(j + 1)) =~= join_sp(ts.take(j)) + seq![32u8] + ts[j]);
        }
    }
}

} // verus!
