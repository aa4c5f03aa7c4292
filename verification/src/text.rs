//! Byte-string utilities shared by the header parser and the FITS writer:
//! comparison, separator splitting, and decimal parsing and formatting.

use vstd::prelude::*;

verus! {

/// ASCII code of the zero digit.
pub const DIGIT_ZERO: u8 = 48;

/// Compare two byte runs for exact equality.
pub fn bytes_eq(a: &[u8], b: &[u8]) -> (r: bool)
    ensures
        r == (a@ == b@),
{
    if a.len() != b.len() {
        proof {
            assert(a@ != b@);
        }
        return false;
    }
    let mut i: usize = 0;
    while i < a.len()
        invariant
            a@.len() == b@.len(),
            i <= a@.len(),
            forall|k: int| 0 <= k < i ==> a@[k] == b@[k],
        decreases a@.len() - i,
    {
        if a[i] != b[i] {
            proof {
                assert(a@ != b@);
            }
            return false;
        }
        i = i + 1;
    }
    proof {
        assert(a@ =~= b@);
    }
    true
}

/// True when every element of the run is a decimal digit and the run is not
/// empty.
pub open spec fn is_dec_digits(s: Seq<u8>) -> bool {
    s.len() > 0 && forall|i: int| 0 <= i < s.len() ==> DIGIT_ZERO <= #[trigger] s[i] <= 57
}

/// The numeric value of a run of decimal digits, most significant first.
pub open spec fn dec_val(s: Seq<u8>) -> int
    decreases s.len(),
{
    if s.len() == 0 {
        0
    } else {
        10 * dec_val(s.drop_last()) + (s.last() - DIGIT_ZERO)
    }
}

/// The value of a digit run only grows as more digits are appended.
proof fn lemma_dec_val_prefix_le(s: Seq<u8>, i: int, j: int)
    requires
        0 <= i <= j <= s.len(),
        forall|k: int| 0 <= k < s.len() ==> DIGIT_ZERO <= #[trigger] s[k] <= 57,
    ensures
        dec_val(s.take(i)) <= dec_val(s.take(j)),
        0 <= dec_val(s.take(i)),
    decreases j,
{
    if i == 0 {
        assert(s.take(0) =~= Seq::<u8>::empty());
        assert(dec_val(s.take(0)) == 0);
    } else {
        lemma_dec_val_prefix_le(s, i - 1, i - 1);
        assert(s.take(i).drop_last() =~= s.take(i - 1));
        assert(s.take(i).last() == s[i - 1]);
    }
    if i < j {
        lemma_dec_val_prefix_le(s, i, j - 1);
        lemma_dec_val_prefix_le(s, j - 1, j - 1);
        assert(s.take(j).drop_last() =~= s.take(j - 1));
        assert(s.take(j).last() == s[j - 1]);
    }
}

/// Parse a run of decimal digits as an unsigned 64-bit value; the run must
/// be non-empty, all digits, and fit the type.
pub fn parse_u64_dec(s: &[u8]) -> (r: Option<u64>)
    ensures
        r is Some <==> is_dec_digits(s@) && dec_val(s@) <= u64::MAX,
        r matches Some(v) ==> v == dec_val(s@),
{
    if s.len() == 0 {
        return None;
    }
    let mut acc: u64 = 0;
    let mut i: usize = 0;
    while i < s.len()
        invariant
            i <= s@.len(),
            s@.len() > 0,
            forall|k: int| 0 <= k < i ==> DIGIT_ZERO <= #[trigger] s@[k] <= 57,
            acc == dec_val(s@.take(i as int)),
        decreases s@.len() - i,
    {
        let b = s[i];
        if b < DIGIT_ZERO || b > 57 {
            return None;
        }
        let d: u64 = (b - DIGIT_ZERO) as u64;
        if acc > (u64::MAX - d) / 10 {
            proof {
                if is_dec_digits(s@) {
                    lemma_dec_val_prefix_le(s@, i + 1, s@.len() as int);
                    assert(s@.take(i + 1).drop_last() =~= s@.take(i as int));
                    assert(s@.take(i + 1).last() == s@[i as int]);
                    assert(dec_val(s@.take(i + 1)) == 10 * acc + d);
                    assert(s@.take(s@.len() as int) =~= s@);
                }
            }
            return None;
        }
        proof {
            assert(s@.take(i + 1).drop_last() =~= s@.take(i as int));
            assert(s@.take(i + 1).last() == s@[i as int]);
        }
        acc = acc * 10 + d;
        i = i + 1;
    }
    proof {
        assert(s@.take(s@.len() as int) =~= s@);
    }
    Some(acc)
}

/// Parse a run of decimal digits as a `usize`.
pub fn parse_usize_dec(s: &[u8]) -> (r: Option<usize>)
    ensures
        r is Some <==> is_dec_digits(s@) && dec_val(s@) <= usize::MAX,
        r matches Some(v) ==> v == dec_val(s@),
{
    match parse_u64_dec(s) {
        None => None,
        Some(v) => {
            if v > usize::MAX as u64 {
                None
            } else {
                Some(v as usize)
            }
        },
    }
}

/// The decimal digit run of a non-negative number, most significant first.
pub open spec fn dec_bytes(v: int) -> Seq<u8>
    recommends
        0 <= v,
    decreases v,
{
    if v < 10 {
        seq![(DIGIT_ZERO + if 0 <= v { v } else { 0 }) as u8]
    } else {
        dec_bytes(v / 10).push((DIGIT_ZERO + v % 10) as u8)
    }
}

/// Every byte of a rendered non-negative number is a decimal digit.
pub proof fn lemma_dec_bytes_digits(v: int)
    requires
        0 <= v,
    ensures
        forall|i: int|
            0 <= i < dec_bytes(v).len() ==> DIGIT_ZERO <= #[trigger] dec_bytes(v)[i] <= 57,
    decreases v,
{
    if v >= 10 {
        lemma_dec_bytes_digits(v / 10);
        assert forall|i: int| 0 <= i < dec_bytes(v).len() implies DIGIT_ZERO <= #[trigger] dec_bytes(
            v,
        )[i] <= 57 by {
            if i < dec_bytes(v / 10).len() {
                assert(dec_bytes(v)[i] == dec_bytes(v / 10)[i]);
            }
        }
    }
}

/// The decimal rendering of a signed number: a minus sign, if negative,
/// followed by the digits of the magnitude.
pub open spec fn dec_bytes_signed(v: int) -> Seq<u8> {
    if v < 0 {
        seq![45u8] + dec_bytes(-v)
    } else {
        dec_bytes(v)
    }
}

/// Append the decimal digits of `v` to `out`.
fn push_dec_u64(v: u64, out: &mut Vec<u8>)
    ensures
        final(out)@ == old(out)@ + dec_bytes(v as int),
    decreases v,
{
    if v < 10 {
        out.push(DIGIT_ZERO + v as u8);
    } else {
        push_dec_u64(v / 10, out);
        out.push(DIGIT_ZERO + (v % 10) as u8);
        proof {
            assert(final(out)@ =~= old(out)@ + dec_bytes(v as int));
        }
    }
}

/// Render an unsigned 64-bit value as decimal digits.
pub fn u64_to_dec_bytes(v: u64) -> (r: Vec<u8>)
    ensures
        r@ == dec_bytes(v as int),
{
    let mut out: Vec<u8> = Vec::new();
    push_dec_u64(v, &mut out);
    proof {
        assert(out@ =~= dec_bytes(v as int));
    }
    out
}

/// Render a signed 64-bit value as decimal digits with an optional leading
/// minus sign.
pub fn i64_to_dec_bytes(v: i64) -> (r: Vec<u8>)
    ensures
        r@ == dec_bytes_signed(v as int),
{
    let mut out: Vec<u8> = Vec::new();
    if v < 0 {
        out.push(45);
        let m: u64 = (-(v as i128)) as u64;
        push_dec_u64(m, &mut out);
        proof {
            assert(out@ =~= dec_bytes_signed(v as int));
        }
    } else {
        push_dec_u64(v as u64, &mut out);
    }
    out
}

/// Split a byte run at every occurrence of a separator; `n` separators give
/// `n + 1` parts, and an empty run gives one empty part.
pub open spec fn split_bytes(s: Seq<u8>, sep: u8) -> Seq<Seq<u8>>
    decreases s.len(),
{
    if s.len() == 0 {
        seq![Seq::<u8>::empty()]
    } else if s[0] == sep {
        seq![Seq::<u8>::empty()] + split_bytes(s.drop_first(), sep)
    } else {
        let rest = split_bytes(s.drop_first(), sep);
        seq![seq![s[0]] + rest[0]] + rest.drop_first()
    }
}

/// Splitting always yields at least one part.
pub proof fn lemma_split_bytes_len(s: Seq<u8>, sep: u8)
    ensures
        split_bytes(s, sep).len() >= 1,
    decreases s.len(),
{
    if s.len() > 0 {
        lemma_split_bytes_len(s.drop_first(), sep);
    }
}

/// A separator-free prefix followed by a separator splits off as the first
/// part.
proof fn lemma_split_bytes_step(s: Seq<u8>, sep: u8, m: int)
    requires
        0 <= m <= s.len(),
        forall|k: int| 0 <= k < m ==> s[k] != sep,
        m < s.len() ==> s[m] == sep,
    ensures
        m < s.len() ==> split_bytes(s, sep) =~= seq![s.take(m)] + split_bytes(
            s.skip(m + 1),
            sep,
        ),
        m == s.len() ==> split_bytes(s, sep) =~= seq![s.take(m)],
    decreases s.len(),
{
    lemma_split_bytes_len(s, sep);
    if s.len() == 0 {
        assert(s.take(0) =~= Seq::<u8>::empty());
    } else if m == 0 {
        if s.len() > 0 && 0 < s.len() {
            assert(s.take(0) =~= Seq::<u8>::empty());
        }
    } else {
        lemma_split_bytes_step(s.drop_first(), sep, m - 1);
        lemma_split_bytes_len(s.drop_first(), sep);
        assert(s.drop_first().take(m - 1) =~= s.take(m).drop_first());
        if m < s.len() {
            assert(s.drop_first().skip(m) =~= s.skip(m + 1));
            let rest = split_bytes(s.drop_first(), sep);
            assert(rest[0] == s.take(m).drop_first());
            assert(seq![s[0]] + rest[0] =~= s.take(m));
        } else {
            let rest = split_bytes(s.drop_first(), sep);
            assert(rest[0] == s.take(m).drop_first());
            assert(seq![s[0]] + rest[0] =~= s.take(m));
        }
    }
}

/// Split a byte run into the parts between occurrences of `sep`.
pub fn split_bytes_vec(s: &[u8], sep: u8) -> (r: Vec<Vec<u8>>)
    ensures
        r@.len() == split_bytes(s@, sep).len(),
        forall|i: int| 0 <= i < r@.len() ==> #[trigger] r@[i]@ == split_bytes(s@, sep)[i],
{
    let ghost whole = split_bytes(s@, sep);
    let mut parts: Vec<Vec<u8>> = Vec::new();
    let mut pos: usize = 0;
    let mut cur: Vec<u8> = Vec::new();
    proof {
        assert(s@.skip(0) =~= s@);
        assert(whole.skip(0) =~= whole);
        lemma_split_bytes_len(s@, sep);
    }
    while pos < s.len()
        invariant
            pos <= s@.len(),
            cur@.len() <= pos,
            cur@ =~= s@.subrange(pos - cur@.len(), pos as int),
            forall|k: int| pos - cur@.len() <= k < pos ==> s@[k] != sep,
            whole == split_bytes(s@, sep),
            parts@.len() + 1 <= whole.len(),
            forall|i: int| 0 <= i < parts@.len() ==> #[trigger] parts@[i]@ == whole[i],
            split_bytes(s@.skip(pos - cur@.len()), sep) =~= whole.skip(parts@.len() as int),
        decreases s@.len() - pos,
    {
        let b = s[pos];
        if b == sep {
            proof {
                let start = pos - cur@.len();
                let t = s@.skip(start);
                assert(forall|k: int|
                    0 <= k < cur@.len() ==> t[k] == s@[start + k] && #[trigger] t[k] != sep);
                assert(t[cur@.len() as int] == sep);
                lemma_split_bytes_step(t, sep, cur@.len() as int);
                assert(t.take(cur@.len() as int) =~= cur@);
                assert(t.skip(cur@.len() as int + 1) =~= s@.skip(pos + 1));
                lemma_split_bytes_len(s@.skip(pos + 1), sep);
                assert(whole.skip(parts@.len() as int)[0] == cur@);
                assert(whole[parts@.len() as int] == cur@);
                assert(whole.skip(parts@.len() as int).drop_first() =~= whole.skip(
                    parts@.len() as int + 1));
                assert(split_bytes(s@.skip(pos + 1), sep) =~= whole.skip(
                    parts@.len() as int + 1));
            }
            parts.push(cur);
            cur = Vec::new();
            pos = pos + 1;
            proof {
                assert(cur@ =~= s@.subrange(pos as int, pos as int));
            }
        } else {
            cur.push(b);
            pos = pos + 1;
            proof {
                assert(cur@ =~= s@.subrange(pos - cur@.len(), pos as int));
            }
        }
    }
    proof {
        let start = pos - cur@.len();
        let t = s@.skip(start);
        assert(forall|k: int|
            0 <= k < cur@.len() ==> t[k] == s@[start + k] && #[trigger] t[k] != sep);
        lemma_split_bytes_step(t, sep, cur@.len() as int);
        assert(t.take(cur@.len() as int) =~= cur@);
        assert(seq![t.take(cur@.len() as int)] =~= seq![cur@]);
        assert(whole.skip(parts@.len() as int) =~= seq![cur@]);
        assert(whole.skip(parts@.len() as int)[0] == cur@);
        assert(whole[parts@.len() as int] == cur@);
        assert(whole.len() == parts@.len() + 1);
    }
    parts.push(cur);
    parts
}

/// Relies on `String::from_utf8`: it succeeds exactly on valid UTF-8, the
/// returned string's UTF-8 encoding is exactly the input bytes, and
/// all-ASCII input is always valid.
#[verifier::external_body]
pub(crate) fn bytes_to_string(b: Vec<u8>) -> (r: Option<String>)
    ensures
        r is Some <==> vstd::utf8::valid_utf8(b@),
        r matches Some(s) ==> vstd::utf8::encode_utf8(s@) == b@,
        (forall|i: int| 0 <= i < b@.len() ==> b@[i] < 128) ==> r is Some,
{
    match String::from_utf8(b) {
        Ok(s) => Some(s),
        Err(_) => None,
    }
}


} // verus!
