//! Numeric tokens.
//!
//! A time value is an unsigned decimal integer (an optional `+` sign, then
//! digits) that fits in 64 bits. A floating-point field is any token of the
//! usual textual grammar: an optional sign, then either a special word
//! (`inf`, `infinity` or `nan`, in any letter case) or a mantissa of digits
//! with at most one dot and at least one digit, optionally followed by an
//! exponent marker `e`/`E`, an optional sign and one or more digits. The
//! numeric fields are opaque payload to this library: a record stores each
//! field as its validated token text, and converting tokens to machine
//! numbers is the host adapter's business.

use crate::text::find2;
use crate::text::lemma_find2_bounds;
use crate::text::lemma_find2_is;
use vstd::prelude::*;

verus! {

/// The byte is an ASCII decimal digit.
pub open spec fn is_digit(b: u8) -> bool {
    48 <= b <= 57
}

/// Every byte of `s` is an ASCII decimal digit.
pub open spec fn all_digits(s: Seq<u8>) -> bool {
    forall|i: int| 0 <= i < s.len() ==> is_digit(#[trigger] s[i])
}

/// The numeric value of a sequence of ASCII digits, most significant first.
pub open spec fn dec_value(s: Seq<u8>) -> nat
    decreases s.len(),
{
    if s.len() == 0 {
        0
    } else {
        dec_value(s.drop_last()) * 10 + if is_digit(s.last()) {
            (s.last() - 48) as nat
        } else {
            0
        }
    }
}

/// `s` without one leading `+` or `-` sign.
pub open spec fn strip_sign(s: Seq<u8>) -> Seq<u8> {
    if s.len() > 0 && (s[0] == 43 || s[0] == 45) {
        s.skip(1)
    } else {
        s
    }
}

/// `s` without one leading `+` sign.
pub open spec fn strip_plus(s: Seq<u8>) -> Seq<u8> {
    if s.len() > 0 && s[0] == 43 {
        s.skip(1)
    } else {
        s
    }
}

/// The token is a decimal unsigned integer that fits in 64 bits.
pub open spec fn is_u64_token(s: Seq<u8>) -> bool {
    let d = strip_plus(s);
    d.len() > 0 && all_digits(d) && dec_value(d) <= u64::MAX
}

/// The value of a longer digit prefix never shrinks.
pub proof fn lemma_dec_value_mono(s: Seq<u8>, k: int)
    requires
        0 <= k <= s.len(),
    ensures
        dec_value(s) >= dec_value(s.take(k)),
    decreases s.len() - k,
{
    if k == s.len() {
        assert(s.take(k) =~= s);
    } else {
        assert(s.take(k + 1).drop_last() =~= s.take(k));
        assert(dec_value(s.take(k + 1)) >= dec_value(s.take(k)));
        lemma_dec_value_mono(s, k + 1);
    }
}

/// Parses a decimal unsigned integer token; `None` exactly when the token is
/// not a well-formed 64-bit decimal.
#[verifier::loop_isolation(false)]
pub fn parse_u64_token(s: &[u8]) -> (r: Option<u64>)
    ensures
        match r {
            Some(v) => is_u64_token(s@) && v as nat == dec_value(strip_plus(s@)),
            None => !is_u64_token(s@),
        },
{
    let n = s.len();
    let mut i: usize = 0;
    if n > 0 && s[0] == 43 {
        i = 1;
    }
    let ghost d = strip_plus(s@);
    proof {
        assert(d =~= s@.skip(i as int));
    }
    if i >= n {
        return None;
    }
    let mut v: u64 = 0;
    let mut j: usize = i;
    while j < n
        invariant
            i <= j <= n,
            n == s@.len(),
            i < n,
            d == s@.skip(i as int),
            d.len() == n - i,
            all_digits(d.take(j - i)),
            v as nat == dec_value(d.take(j - i)),
        decreases n - j,
    {
        let b = s[j];
        proof {
            assert(d[j - i] == s@[j as int]);
        }
        if !(48 <= b && b <= 57) {
            proof {
                assert(!is_digit(d[j - i]));
            }
            return None;
        }
        let dig = (b - 48) as u64;
        proof {
            assert(d.take(j - i + 1).drop_last() =~= d.take(j - i));
            assert(d.take(j - i + 1).last() == d[j - i]);
            assert(dec_value(d.take(j - i + 1)) == v * 10 + dig);
        }
        if v > 1844674407370955161 || (v == 1844674407370955161 && dig > 5) {
            proof {
                assert(dec_value(d.take(j - i + 1)) > u64::MAX);
                lemma_dec_value_mono(d, j - i + 1);
            }
            return None;
        }
        v = v * 10 + dig;
        j += 1;
    }
    proof {
        assert(d.take(n - i) =~= d);
    }
    Some(v)
}

/// Lowers one ASCII uppercase letter.
pub open spec fn to_lower(b: u8) -> u8 {
    if 65 <= b <= 90 {
        (b + 32) as u8
    } else {
        b
    }
}

/// `s`, lowercased byte by byte.
pub open spec fn seq_lower(s: Seq<u8>) -> Seq<u8> {
    s.map_values(|b: u8| to_lower(b))
}

/// The unsigned part reads, in any letter case, `inf`, `infinity` or `nan`.
pub open spec fn is_special(t: Seq<u8>) -> bool {
    ||| seq_lower(t) == seq![105u8, 110u8, 102u8]
    ||| seq_lower(t) == seq![105u8, 110u8, 102u8, 105u8, 110u8, 105u8, 116u8, 121u8]
    ||| seq_lower(t) == seq![110u8, 97u8, 110u8]
}

/// Digits with at most one dot and at least one digit.
pub open spec fn is_mantissa(m: Seq<u8>) -> bool {
    &&& m.len() > 0
    &&& forall|i: int| 0 <= i < m.len() ==> is_digit(#[trigger] m[i]) || m[i] == 46
    &&& count_byte(m, 46) <= 1
    &&& exists|i: int| 0 <= i < m.len() && is_digit(#[trigger] m[i])
}

/// How many bytes of `s` equal `b`.
pub open spec fn count_byte(s: Seq<u8>, b: u8) -> nat
    decreases s.len(),
{
    if s.len() == 0 {
        0
    } else {
        count_byte(s.drop_last(), b) + if s.last() == b {
            1nat
        } else {
            0
        }
    }
}

/// The part after the exponent marker: an optional sign, then digits.
pub open spec fn is_exp_part(x: Seq<u8>) -> bool {
    strip_sign(x).len() > 0 && all_digits(strip_sign(x))
}

/// The unsigned part is a mantissa with an optional exponent.
pub open spec fn is_number(t: Seq<u8>) -> bool {
    let k = find2(t, 101, 69);
    if k == t.len() {
        is_mantissa(t)
    } else {
        is_mantissa(t.take(k)) && is_exp_part(t.skip(k + 1))
    }
}

/// The token is a well-formed textual floating-point value.
pub open spec fn is_float_token(s: Seq<u8>) -> bool {
    is_special(strip_sign(s)) || is_number(strip_sign(s))
}

/// A floating-point token is nonempty, never opens with the block marker
/// byte `t`, and holds no whitespace, `=` or space byte anywhere.
pub proof fn lemma_float_token_bytes(s: Seq<u8>)
    requires
        is_float_token(s),
    ensures
        s.len() > 0,
        s[0] != 116,
        forall|i: int|
            0 <= i < s.len() ==> s[i] != 32 && s[i] != 9 && s[i] != 10 && s[i] != 13 && #[trigger] s[i]
                != 61,
{
    let t = strip_sign(s);
    assert(t.len() > 0) by {
        if is_special(t) {
            assert(seq_lower(t).len() == t.len());
        } else {
            lemma_find2_bounds(t, 101, 69);
        }
    }
    assert forall|j: int| 0 <= j < t.len() implies t[j] != 32 && t[j] != 9 && t[j] != 10 && #[trigger] t[j]
        != 13 && t[j] != 61 by {
        if is_special(t) {
            assert(seq_lower(t).len() == t.len());
            assert(seq_lower(t)[j] == to_lower(t[j]));
            assert(to_lower(t[j]) == 105 || to_lower(t[j]) == 110 || to_lower(t[j]) == 102
                || to_lower(t[j]) == 116 || to_lower(t[j]) == 121 || to_lower(t[j]) == 97);
            assert(to_lower(32u8) == 32 && to_lower(9u8) == 9 && to_lower(10u8) == 10 && to_lower(
                13u8,
            ) == 13 && to_lower(61u8) == 61);
        } else {
            let k = find2(t, 101, 69);
            lemma_find2_bounds(t, 101, 69);
            if k == t.len() {
                assert(is_digit(t[j]) || t[j] == 46);
            } else {
                if j < k {
                    assert(t.take(k)[j] == t[j]);
                    assert(is_digit(t[j]) || t[j] == 46);
                } else if j == k {
                    assert(t[j] == 101 || t[j] == 69);
                } else {
                    let x = t.skip(k + 1);
                    assert(x[j - k - 1] == t[j]);
                    let dd = strip_sign(x);
                    if x.len() > 0 && (x[0] == 43 || x[0] == 45) {
                        if j == k + 1 {
                            assert(t[j] == 43 || t[j] == 45);
                        } else {
                            assert(dd[j - k - 2] == t[j]);
                            assert(is_digit(t[j]));
                        }
                    } else {
                        assert(dd == x);
                        assert(is_digit(t[j]));
                    }
                }
            }
        }
    }
    assert(t[0] != 116) by {
        if is_special(t) {
            assert(seq_lower(t)[0] == to_lower(t[0]));
            assert(to_lower(t[0]) == 105 || to_lower(t[0]) == 110);
            assert(to_lower(116u8) == 116);
        } else {
            let k = find2(t, 101, 69);
            lemma_find2_bounds(t, 101, 69);
            if k == t.len() {
                assert(is_digit(t[0]) || t[0] == 46);
            } else if k == 0 {
                assert(is_mantissa(t.take(0)));
                assert(t.take(0).len() == 0);
            } else {
                assert(t.take(k)[0] == t[0]);
                assert(is_digit(t[0]) || t[0] == 46);
            }
        }
    }
    if s.len() > 0 && (s[0] == 43 || s[0] == 45) {
        assert forall|i: int| 1 <= i < s.len() implies s[i] != 32 && s[i] != 9 && s[i] != 10
            && s[i] != 13 && #[trigger] s[i] != 61 by {
            assert(t[i - 1] == s[i]);
        }
    } else {
        assert(t == s);
    }
}

/// Lowers one ASCII byte.
fn byte_lower(b: u8) -> (r: u8)
    ensures
        r == to_lower(b),
{
    if 65 <= b && b <= 90 {
        b + 32
    } else {
        b
    }
}

/// Decides whether the unsigned part `s[i..]` is a special word.
fn check_special(s: &[u8], i: usize) -> (r: bool)
    requires
        i <= s@.len(),
    ensures
        r == is_special(s@.skip(i as int)),
{
    let ghost t = s@.skip(i as int);
    proof {
        assert(seq_lower(t).len() == t.len());
        assert forall|q: int| 0 <= q < t.len() implies #[trigger] seq_lower(t)[q] == to_lower(
            s@[i + q],
        ) by {
            assert(t[q] == s@[i + q]);
        }
    }
    let n = s.len();
    let m = n - i;
    if m == 3 {
        let a0 = byte_lower(s[i]);
        let a1 = byte_lower(s[i + 1]);
        let a2 = byte_lower(s[i + 2]);
        let inf = a0 == 105 && a1 == 110 && a2 == 102;
        let nan = a0 == 110 && a1 == 97 && a2 == 110;
        proof {
            if inf {
                assert(seq_lower(t) =~= seq![105u8, 110u8, 102u8]);
            } else {
                assert(seq_lower(t) != seq![105u8, 110u8, 102u8]);
            }
            if nan {
                assert(seq_lower(t) =~= seq![110u8, 97u8, 110u8]);
            } else {
                assert(seq_lower(t) != seq![110u8, 97u8, 110u8]);
            }
            assert(seq_lower(t).len() != 8);
        }
        inf || nan
    } else if m == 8 {
        let ok = byte_lower(s[i]) == 105 && byte_lower(s[i + 1]) == 110 && byte_lower(s[i + 2])
            == 102 && byte_lower(s[i + 3]) == 105 && byte_lower(s[i + 4]) == 110 && byte_lower(
            s[i + 5],
        ) == 105 && byte_lower(s[i + 6]) == 116 && byte_lower(s[i + 7]) == 121;
        proof {
            if ok {
                assert(seq_lower(t) =~= seq![105u8, 110u8, 102u8, 105u8, 110u8, 105u8, 116u8, 121u8]);
            } else {
                assert(seq_lower(t) != seq![
                    105u8,
                    110u8,
                    102u8,
                    105u8,
                    110u8,
                    105u8,
                    116u8,
                    121u8,
                ]);
            }
            assert(seq_lower(t).len() != 3);
        }
        ok
    } else {
        proof {
            assert(seq_lower(t).len() != 3 && seq_lower(t).len() != 8);
        }
        false
    }
}

/// Decides whether `s[i..k]` is a mantissa.
#[verifier::loop_isolation(false)]
fn check_mantissa(s: &[u8], i: usize, k: usize) -> (r: bool)
    requires
        i <= k <= s@.len(),
    ensures
        r == is_mantissa(s@.subrange(i as int, k as int)),
{
    let ghost m = s@.subrange(i as int, k as int);
    let mut dots: usize = 0;
    let mut saw_digit = false;
    let mut j: usize = i;
    while j < k
        invariant
            i <= j <= k <= s@.len(),
            m == s@.subrange(i as int, k as int),
            dots as nat == count_byte(m.take(j - i), 46),
            dots <= j - i,
            saw_digit == exists|q: int| 0 <= q < j - i && is_digit(#[trigger] m[q]),
            forall|q: int| 0 <= q < j - i ==> is_digit(#[trigger] m[q]) || m[q] == 46,
        decreases k - j,
    {
        let b = s[j];
        proof {
            assert(m[j - i] == s@[j as int]);
            assert(m.take(j - i + 1).drop_last() =~= m.take(j - i));
            assert(m.take(j - i + 1).last() == m[j - i]);
        }
        if b == 46 {
            dots += 1;
        } else if 48 <= b && b <= 57 {
            saw_digit = true;
        } else {
            proof {
                assert(!is_digit(m[j - i]) && m[j - i] != 46);
            }
            return false;
        }
        j += 1;
    }
    proof {
        assert(m.take(k - i) =~= m);
    }
    k > i && dots <= 1 && saw_digit
}

/// Decides whether the token is a well-formed textual floating-point value.
#[verifier::loop_isolation(false)]
pub fn check_float_token(s: &[u8]) -> (r: bool)
    ensures
        r == is_float_token(s@),
{
    let n = s.len();
    let mut i: usize = 0;
    if n > 0 && (s[0] == 43 || s[0] == 45) {
        i = 1;
    }
    let ghost t = strip_sign(s@);
    proof {
        assert(t =~= s@.skip(i as int));
    }
    if check_special(s, i) {
        return true;
    }
    // Not special: the token is valid exactly when the unsigned part is a number.
    let k = crate::text::find_byte_from2(s, i, 101, 69);
    proof {
        assert(t.take(k - i) =~= s@.subrange(i as int, k as int));
    }
    let mant_ok = check_mantissa(s, i, k);
    if !mant_ok {
        proof {
            if k == n {
                assert(t.take(k - i) =~= t);
            }
        }
        return false;
    }
    if k == n {
        proof {
            assert(t.take(k - i) =~= t);
        }
        return true;
    }
    // Exponent part: optional sign, then one or more digits.
    let ghost x = t.skip(k - i + 1);
    proof {
        assert(x =~= s@.skip(k + 1));
    }
    let mut j = k + 1;
    if j < n && (s[j] == 43 || s[j] == 45) {
        j += 1;
    }
    let ghost dd = strip_sign(x);
    proof {
        assert(dd =~= s@.skip(j as int));
    }
    if j == n {
        proof {
            assert(dd.len() == 0);
        }
        return false;
    }
    let mut q = j;
    while q < n
        invariant
            j <= q <= n,
            n == s@.len(),
            dd == s@.skip(j as int),
            forall|p: int| 0 <= p < q - j ==> is_digit(#[trigger] dd[p]),
        decreases n - q,
    {
        let b = s[q];
        proof {
            assert(dd[q - j] == s@[q as int]);
        }
        if !(48 <= b && b <= 57) {
            proof {
                assert(!is_digit(dd[q - j]));
            }
            return false;
        }
        q += 1;
    }
    true
}

} // verus!
