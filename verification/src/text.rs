//! Byte-level text utilities shared by the puzzle solvers: splitting,
//! trimming, and decimal parsing and formatting, each pinned to a spec-level
//! definition.

use vstd::prelude::*;
use vstd::arithmetic::div_mod::lemma_fundamental_div_mod;

verus! {

broadcast use vstd::seq_lib::group_seq_properties;

/// ASCII decimal digit.
pub open spec fn is_digit(b: u8) -> bool {
    48 <= b <= 57
}

/// ASCII whitespace as the solvers need it: space, newline, carriage
/// return, tab.
pub open spec fn is_space(b: u8) -> bool {
    b == 32 || b == 10 || b == 13 || b == 9
}

/// The value of a digit string read as decimal.
pub open spec fn dec_value(s: Seq<u8>) -> int
    decreases s.len(),
{
    if s.len() == 0 {
        0
    } else {
        dec_value(s.drop_last()) * 10 + (s.last() - 48)
    }
}

/// Splitting at every occurrence of `sep`, keeping empty fields, as
/// `str::split` does.
pub open spec fn split_spec(s: Seq<u8>, sep: u8) -> Seq<Seq<u8>>
    decreases s.len(),
{
    if s.len() == 0 {
        seq![Seq::empty()]
    } else if s[0] == sep {
        seq![Seq::<u8>::empty()] + split_spec(s.drop_first(), sep)
    } else {
        let rest = split_spec(s.drop_first(), sep);
        seq![seq![s[0]] + rest[0]] + rest.drop_first()
    }
}

/// `split_spec` always yields at least one field.
pub proof fn lemma_split_len(s: Seq<u8>, sep: u8)
    ensures
        split_spec(s, sep).len() >= 1,
    decreases s.len(),
{
    if s.len() > 0 {
        lemma_split_len(s.drop_first(), sep);
    }
}

/// How one more byte extends a split: a separator opens a new empty field,
/// anything else extends the last field.
pub proof fn lemma_split_push(s: Seq<u8>, sep: u8, b: u8)
    ensures
        b == sep ==> split_spec(s.push(b), sep) == split_spec(s, sep).push(Seq::<u8>::empty()),
        b != sep ==> split_spec(s.push(b), sep) == split_spec(s, sep).update(
            split_spec(s, sep).len() - 1,
            split_spec(s, sep).last().push(b),
        ),
    decreases s.len(),
{
    lemma_split_len(s, sep);
    if s.len() == 0 {
        if b == sep {
            assert(s.push(b)[0] == sep);
            assert(s.push(b).drop_first() =~= Seq::<u8>::empty());
            assert(split_spec(s.push(b), sep) =~= split_spec(s, sep).push(Seq::<u8>::empty()));
        } else {
            assert(s.push(b)[0] == b);
            assert(s.push(b).drop_first() =~= Seq::<u8>::empty());
            assert(split_spec(s.push(b), sep) =~= split_spec(s, sep).update(
                0,
                split_spec(s, sep).last().push(b),
            ));
        }
    } else {
        lemma_split_push(s.drop_first(), sep, b);
        lemma_split_len(s.drop_first(), sep);
        assert(s.push(b).drop_first() =~= s.drop_first().push(b));
        assert(s.push(b)[0] == s[0]);
        if s[0] == sep {
            if b == sep {
                assert(split_spec(s.push(b), sep) =~= split_spec(s, sep).push(
                    Seq::<u8>::empty(),
                ));
            } else {
                assert(split_spec(s.push(b), sep) =~= split_spec(s, sep).update(
                    split_spec(s, sep).len() - 1,
                    split_spec(s, sep).last().push(b),
                ));
            }
        } else {
            let rest = split_spec(s.drop_first(), sep);
            if b == sep {
                assert(split_spec(s.push(b), sep) =~= split_spec(s, sep).push(
                    Seq::<u8>::empty(),
                ));
            } else {
                let restb = split_spec(s.drop_first().push(b), sep);
                assert(restb =~= rest.update(rest.len() - 1, rest.last().push(b)));
                if rest.len() == 1 {
                    assert(restb[0] =~= rest[0].push(b));
                    assert(split_spec(s.push(b), sep) =~= split_spec(s, sep).update(
                        split_spec(s, sep).len() - 1,
                        split_spec(s, sep).last().push(b),
                    ));
                } else {
                    assert(restb[0] == rest[0]);
                    assert(restb.drop_first() =~= rest.drop_first().update(
                        rest.len() - 2,
                        rest.last().push(b),
                    ));
                    assert(split_spec(s.push(b), sep) =~= split_spec(s, sep).update(
                        split_spec(s, sep).len() - 1,
                        split_spec(s, sep).last().push(b),
                    ));
                }
            }
        }
    }
}

/// Splits `s` at every occurrence of `sep`, keeping empty fields.
pub fn split_bytes(s: &Vec<u8>, sep: u8) -> (r: Vec<Vec<u8>>)
    ensures
        r@.map_values(|f: Vec<u8>| f@) == split_spec(s@, sep),
{
    let mut done: Vec<Vec<u8>> = Vec::new();
    let mut cur: Vec<u8> = Vec::new();
    let mut i: usize = 0;
    proof {
        assert(s@.take(0) =~= Seq::<u8>::empty());
        assert(done@.map_values(|f: Vec<u8>| f@).push(cur@) =~= split_spec(s@.take(0), sep));
    }
    while i < s.len()
        invariant
            i <= s@.len(),
            done@.map_values(|f: Vec<u8>| f@).push(cur@) == split_spec(s@.take(i as int), sep),
        decreases s@.len() - i,
    {
        let b = s[i];
        let ghost pre = s@.take(i as int);
        proof {
            lemma_split_push(pre, sep, b);
            assert(s@.take(i + 1) =~= pre.push(b));
            lemma_split_len(pre, sep);
        }
        if b == sep {
            let finished = cur;
            cur = Vec::new();
            done.push(finished);
            proof {
                assert(done@.map_values(|f: Vec<u8>| f@).push(cur@) =~= split_spec(
                    pre,
                    sep,
                ).push(Seq::<u8>::empty()));
            }
        } else {
            cur.push(b);
            proof {
                let old_split = split_spec(pre, sep);
                assert(done@.map_values(|f: Vec<u8>| f@).push(cur@) =~= old_split.update(
                    old_split.len() - 1,
                    old_split.last().push(b),
                ));
            }
        }
        i = i + 1;
    }
    proof {
        assert(s@.take(s@.len() as int) =~= s@);
    }
    done.push(cur);
    done
}

/// The lines of `s`, as `str::lines` yields them for text with no carriage
/// returns and no trailing newline: no lines at all for empty text,
/// otherwise the newline-separated fields.
pub open spec fn lines_spec(s: Seq<u8>) -> Seq<Seq<u8>> {
    if s.len() == 0 {
        Seq::empty()
    } else {
        split_spec(s, 10)
    }
}

/// Splits `s` into lines.
pub fn split_lines(s: &Vec<u8>) -> (r: Vec<Vec<u8>>)
    ensures
        r@.map_values(|f: Vec<u8>| f@) == lines_spec(s@),
{
    if s.len() == 0 {
        let r: Vec<Vec<u8>> = Vec::new();
        proof {
            assert(r@.map_values(|f: Vec<u8>| f@) =~= lines_spec(s@));
        }
        r
    } else {
        split_bytes(s, 10)
    }
}

/// A fresh copy of a byte string.
pub fn copy_bytes(s: &Vec<u8>) -> (r: Vec<u8>)
    ensures
        r@ == s@,
{
    let mut r: Vec<u8> = Vec::new();
    let mut i: usize = 0;
    while i < s.len()
        invariant
            i <= s@.len(),
            r@ == s@.take(i as int),
        decreases s@.len() - i,
    {
        r.push(s[i]);
        proof {
            assert(r@ =~= s@.take(i + 1));
        }
        i = i + 1;
    }
    proof {
        assert(r@ =~= s@.take(s@.len() as int));
    }
    r
}

/// The suffix of `s` after its leading whitespace.
pub open spec fn trim_start_spec(s: Seq<u8>) -> Seq<u8>
    decreases s.len(),
{
    if s.len() > 0 && is_space(s[0]) {
        trim_start_spec(s.drop_first())
    } else {
        s
    }
}

/// The prefix of `s` before its trailing whitespace.
pub open spec fn trim_end_spec(s: Seq<u8>) -> Seq<u8>
    decreases s.len(),
{
    if s.len() > 0 && is_space(s.last()) {
        trim_end_spec(s.drop_last())
    } else {
        s
    }
}

/// Whitespace stripped from both ends.
pub open spec fn trim_spec(s: Seq<u8>) -> Seq<u8> {
    trim_end_spec(trim_start_spec(s))
}

proof fn lemma_trim_start_skip(s: Seq<u8>, i: int)
    requires
        0 <= i <= s.len(),
        forall|j: int| 0 <= j < i ==> is_space(#[trigger] s[j]),
        i == s.len() || !is_space(s[i]),
    ensures
        trim_start_spec(s) == s.skip(i),
    decreases i,
{
    if i == 0 {
        assert(trim_start_spec(s) =~= s.skip(0));
    } else {
        lemma_trim_start_skip(s.drop_first(), i - 1);
        assert(s.drop_first().skip(i - 1) =~= s.skip(i));
    }
}

proof fn lemma_trim_end_take(s: Seq<u8>, i: int)
    requires
        0 <= i <= s.len(),
        forall|j: int| i <= j < s.len() ==> is_space(#[trigger] s[j]),
        i == 0 || !is_space(s[i - 1]),
    ensures
        trim_end_spec(s) == s.take(i),
    decreases s.len() - i,
{
    if i == s.len() {
        assert(trim_end_spec(s) =~= s.take(i));
    } else {
        lemma_trim_end_take(s.drop_last(), i);
        assert(s.drop_last() =~= s.take(s.len() - 1));
        assert(s.drop_last().take(i) =~= s.take(i));
    }
}

/// Strips whitespace from both ends of `s`.
pub fn trim_bytes(s: &Vec<u8>) -> (r: Vec<u8>)
    ensures
        r@ == trim_spec(s@),
{
    let mut lo: usize = 0;
    while lo < s.len() && (s[lo] == 32 || s[lo] == 10 || s[lo] == 13 || s[lo] == 9)
        invariant
            lo <= s@.len(),
            forall|j: int| 0 <= j < lo ==> is_space(#[trigger] s@[j]),
        decreases s@.len() - lo,
    {
        lo = lo + 1;
    }
    let mut hi: usize = s.len();
    while hi > lo && (s[hi - 1] == 32 || s[hi - 1] == 10 || s[hi - 1] == 13 || s[hi - 1] == 9)
        invariant
            lo <= hi <= s@.len(),
            forall|j: int| 0 <= j < lo ==> is_space(#[trigger] s@[j]),
            forall|j: int| hi <= j < s@.len() ==> is_space(#[trigger] s@[j]),
        decreases hi,
    {
        hi = hi - 1;
    }
    let mut r: Vec<u8> = Vec::new();
    let mut i: usize = lo;
    while i < hi
        invariant
            lo <= i <= hi <= s@.len(),
            r@ == s@.subrange(lo as int, i as int),
        decreases hi - i,
    {
        r.push(s[i]);
        proof {
            assert(r@ =~= s@.subrange(lo as int, i + 1));
        }
        i = i + 1;
    }
    proof {
        let tail = s@.skip(lo as int);
        lemma_trim_start_skip(s@, lo as int);
        lemma_trim_end_take(tail, hi - lo);
        assert(r@ =~= tail.take(hi - lo));
    }
    r
}

proof fn lemma_dec_value_mono(s: Seq<u8>, i: int)
    requires
        0 <= i <= s.len(),
        forall|j: int| 0 <= j < s.len() ==> is_digit(#[trigger] s[j]),
    ensures
        dec_value(s.take(i)) <= dec_value(s),
    decreases s.len() - i,
{
    if i < s.len() {
        lemma_dec_value_mono(s, i + 1);
        assert(s.take(i + 1).drop_last() =~= s.take(i));
        assert(forall|j: int| 0 <= j < s.take(i).len() ==> is_digit(#[trigger] s.take(i)[j]));
        lemma_dec_value_nonneg(s.take(i));
        assert(dec_value(s.take(i)) <= dec_value(s.take(i + 1)));
    } else {
        assert(s.take(i) =~= s);
    }
}

/// A digit string's value is never negative.
pub proof fn lemma_dec_nonneg_pub(s: Seq<u8>)
    requires
        forall|j: int| 0 <= j < s.len() ==> is_digit(#[trigger] s[j]),
    ensures
        dec_value(s) >= 0,
{
    lemma_dec_value_nonneg(s);
}

proof fn lemma_dec_value_nonneg(s: Seq<u8>)
    requires
        forall|j: int| 0 <= j < s.len() ==> is_digit(#[trigger] s[j]),
    ensures
        dec_value(s) >= 0,
    decreases s.len(),
{
    if s.len() > 0 {
        assert(forall|j: int|
            0 <= j < s.drop_last().len() ==> is_digit(#[trigger] s.drop_last()[j]));
        lemma_dec_value_nonneg(s.drop_last());
    }
}

/// Parses a decimal digit string. `Some` exactly when the field is
/// nonempty, all digits, and the value fits in a `u64`.
pub fn parse_u64(s: &Vec<u8>) -> (r: Option<u64>)
    ensures
        match r {
            Some(v) => s@.len() > 0 && (forall|j: int| 0 <= j < s@.len() ==> is_digit(
                #[trigger] s@[j],
            )) && v as int == dec_value(s@),
            None => s@.len() == 0 || (exists|j: int|
                0 <= j < s@.len() && !is_digit(#[trigger] s@[j])) || dec_value(s@) > u64::MAX,
        },
{
    if s.len() == 0 {
        return None;
    }
    let mut v: u64 = 0;
    let mut i: usize = 0;
    while i < s.len()
        invariant
            i <= s@.len(),
            forall|j: int| 0 <= j < i ==> is_digit(#[trigger] s@[j]),
            v as int == dec_value(s@.take(i as int)),
        decreases s@.len() - i,
    {
        let b = s[i];
        if b < 48 || b > 57 {
            return None;
        }
        let d = (b - 48) as u64;
        if v > (u64::MAX - d) / 10 {
            // The prefix alone is already too large.
            proof {
                assert(s@.take(i + 1).drop_last() =~= s@.take(i as int));
                assert(dec_value(s@.take(i + 1)) == v * 10 + d);
                assert(v * 10 + d > u64::MAX) by (nonlinear_arith)
                    requires
                        v > (u64::MAX - d) / 10,
                        0 <= d <= 9,
                        v <= u64::MAX,
                ;
                if forall|j: int| 0 <= j < s@.len() ==> is_digit(#[trigger] s@[j]) {
                    lemma_dec_value_mono(s@, i + 1);
                }
            }
            return None;
        }
        proof {
            assert((v * 10 + d <= u64::MAX)) by (nonlinear_arith)
                requires
                    v <= (u64::MAX - d) / 10,
                    0 <= d <= 9,
            ;
            assert(s@.take(i + 1).drop_last() =~= s@.take(i as int));
        }
        v = v * 10 + d;
        i = i + 1;
    }
    proof {
        assert(s@.take(s@.len() as int) =~= s@);
    }
    Some(v)
}

/// A signed decimal literal: an optional minus sign, then digits.
pub open spec fn is_int_str(s: Seq<u8>) -> bool {
    if s.len() > 0 && s[0] == 45 {
        s.len() > 1 && forall|j: int| 1 <= j < s.len() ==> is_digit(#[trigger] s[j])
    } else {
        s.len() > 0 && forall|j: int| 0 <= j < s.len() ==> is_digit(#[trigger] s[j])
    }
}

/// The value of a signed decimal literal.
pub open spec fn int_value(s: Seq<u8>) -> int {
    if s.len() > 0 && s[0] == 45 {
        -dec_value(s.drop_first())
    } else {
        dec_value(s)
    }
}

/// Parses a signed decimal literal. `Some` exactly when the field is
/// well-formed and its magnitude is at most `i64::MAX`.
pub fn parse_i64(s: &Vec<u8>) -> (r: Option<i64>)
    ensures
        match r {
            Some(v) => is_int_str(s@) && -i64::MAX <= int_value(s@) <= i64::MAX && v as int
                == int_value(s@),
            None => !is_int_str(s@) || int_value(s@) > i64::MAX || int_value(s@) < -i64::MAX,
        },
{
    if s.len() == 0 {
        return None;
    }
    if s[0] == 45 {
        let mut rest: Vec<u8> = Vec::new();
        let mut i: usize = 1;
        while i < s.len()
            invariant
                1 <= i <= s@.len(),
                rest@ == s@.subrange(1, i as int),
            decreases s@.len() - i,
        {
            rest.push(s[i]);
            proof {
                assert(rest@ =~= s@.subrange(1, i + 1));
            }
            i = i + 1;
        }
        proof {
            assert(rest@ =~= s@.drop_first());
        }
        match parse_u64(&rest) {
            Some(m) => {
                if m <= i64::MAX as u64 {
                    Some(-(m as i64))
                } else {
                    None
                }
            },
            None => None,
        }
    } else {
        match parse_u64(s) {
            Some(m) => {
                if m <= i64::MAX as u64 {
                    Some(m as i64)
                } else {
                    None
                }
            },
            None => None,
        }
    }
}

/// The nonempty entries, in order.
pub open spec fn drop_empty(fs: Seq<Seq<u8>>) -> Seq<Seq<u8>>
    decreases fs.len(),
{
    if fs.len() == 0 {
        fs
    } else {
        let prev = drop_empty(fs.drop_last());
        if fs.last().len() > 0 {
            prev.push(fs.last())
        } else {
            prev
        }
    }
}

/// The whitespace-separated words of a line (split at spaces, empty words
/// dropped).
pub open spec fn fields_spec(s: Seq<u8>) -> Seq<Seq<u8>> {
    drop_empty(split_spec(s, 32))
}

/// Splits a line into its space-separated words.
pub fn fields_of(s: &Vec<u8>) -> (r: Vec<Vec<u8>>)
    ensures
        r@.map_values(|f: Vec<u8>| f@) == fields_spec(s@),
{
    let parts = split_bytes(s, 32);
    let mut out: Vec<Vec<u8>> = Vec::new();
    let mut i: usize = 0;
    let ghost ps = parts@.map_values(|f: Vec<u8>| f@);
    proof {
        assert(out@.map_values(|f: Vec<u8>| f@) =~= drop_empty(ps.take(0)));
    }
    while i < parts.len()
        invariant
            i <= parts@.len(),
            ps == parts@.map_values(|f: Vec<u8>| f@),
            ps == split_spec(s@, 32),
            out@.map_values(|f: Vec<u8>| f@) == drop_empty(ps.take(i as int)),
        decreases parts@.len() - i,
    {
        proof {
            assert(ps.take(i + 1).drop_last() =~= ps.take(i as int));
            assert(ps.take(i + 1).last() == ps[i as int]);
            assert(ps[i as int] == parts@[i as int]@);
        }
        let keep = parts[i].len() > 0;
        if keep {
            let f = &parts[i];
            let mut copy: Vec<u8> = Vec::new();
            let mut j: usize = 0;
            while j < f.len()
                invariant
                    j <= f@.len(),
                    copy@ == f@.take(j as int),
                decreases f@.len() - j,
            {
                copy.push(f[j]);
                proof {
                    assert(copy@ =~= f@.take(j + 1));
                }
                j = j + 1;
            }
            proof {
                assert(copy@ =~= f@.take(f@.len() as int));
                assert(copy@ =~= parts@[i as int]@);
            }
            out.push(copy);
            proof {
                assert(out@.map_values(|f2: Vec<u8>| f2@) =~= drop_empty(ps.take(i as int)).push(
                    ps[i as int],
                ));
            }
        }
        i = i + 1;
    }
    proof {
        assert(ps.take(ps.len() as int) =~= ps);
    }
    out
}

/// The decimal digit string of a number, most significant digit first.
pub open spec fn dec_str(v: int) -> Seq<u8>
    decreases v,
{
    if v < 10 {
        seq![(48 + (if v >= 0 {
            v
        } else {
            0
        })) as u8]
    } else {
        dec_str(v / 10).push((48 + v % 10) as u8)
    }
}

/// The decimal digits of `v`.
pub fn dec_digits(v: u64) -> (r: Vec<u8>)
    ensures
        r@ == dec_str(v as int),
    decreases v,
{
    if v < 10 {
        let mut r: Vec<u8> = Vec::new();
        r.push(48 + (v as u8));
        proof {
            assert(r@ =~= dec_str(v as int));
        }
        r
    } else {
        let mut r = dec_digits(v / 10);
        r.push(48 + ((v % 10) as u8));
        r
    }
}

/// ASCII bytes read as characters.
pub open spec fn ascii_chars(s: Seq<u8>) -> Seq<char> {
    s.map_values(|b: u8| b as char)
}

/// Relies on `String::from_utf8`: ASCII bytes decode to exactly their
/// characters, and never fail to decode.
#[verifier::external_body]
pub fn ascii_string(bytes: &Vec<u8>) -> (r: String)
    requires
        forall|i: int| 0 <= i < bytes@.len() ==> bytes@[i] < 128,
    ensures
        r@ == ascii_chars(bytes@),
{
    match String::from_utf8(bytes.clone()) {
        Ok(s) => s,
        Err(_) => String::new(),
    }
}

} // verus!
