//! Decimal fields of the wire format: lengths and integer payloads are
//! written as base-10 ASCII digits with no sign.

use vstd::prelude::*;

verus! {

/// A sequence made of ASCII decimal digits only.
pub open spec fn all_digits(s: Seq<u8>) -> bool {
    forall|i: int| 0 <= i < s.len() ==> 0x30 <= #[trigger] s[i] <= 0x39
}

/// Numeric value of a digit string, most significant digit first.
pub open spec fn digits_val(s: Seq<u8>) -> int
    decreases s.len(),
{
    if s.len() == 0 {
        0
    } else {
        digits_val(s.drop_last()) * 10 + (s.last() - 0x30)
    }
}

/// A digit string accepted as a protocol number: nonempty, digits only, and
/// a value that fits in a `u64`.
pub open spec fn valid_decimal(s: Seq<u8>) -> bool {
    s.len() > 0 && all_digits(s) && digits_val(s) <= u64::MAX
}

/// Canonical decimal rendering of `n`: a single `0`, or digits without a
/// leading zero.
pub open spec fn dec_digits(n: u64) -> Seq<u8>
    decreases n,
{
    if n < 10 {
        seq![(0x30 + n) as u8]
    } else {
        dec_digits(n / 10).push((0x30 + n % 10) as u8)
    }
}

pub proof fn lemma_digits_val_nonneg(s: Seq<u8>)
    requires
        all_digits(s),
    ensures
        digits_val(s) >= 0,
    decreases s.len(),
{
    if s.len() > 0 {
        lemma_digits_val_nonneg(s.drop_last());
    }
}

/// The canonical rendering is made of digits, is nonempty, and reads back as
/// the number it was made from.
pub proof fn lemma_dec_digits(n: u64)
    ensures
        all_digits(dec_digits(n)),
        dec_digits(n).len() >= 1,
        digits_val(dec_digits(n)) == n,
    decreases n,
{
    if n < 10 {
        let s = dec_digits(n);
        assert(s == seq![(0x30 + n) as u8]);
        assert(s.drop_last() =~= Seq::<u8>::empty());
        assert(digits_val(Seq::<u8>::empty()) == 0);
        assert(digits_val(s) == n);
    } else {
        lemma_dec_digits(n / 10);
        let p = dec_digits(n / 10);
        let d = (0x30 + n % 10) as u8;
        let s = p.push(d);
        assert(s.drop_last() =~= p);
        assert(s.last() == d);
        assert(digits_val(s) == digits_val(p) * 10 + n % 10);
        assert((n / 10) * 10 + n % 10 == n);
    }
}

/// Extending a digit string on the right never lowers its value.
pub proof fn lemma_digits_val_prefix(s: Seq<u8>, k: int)
    requires
        all_digits(s),
        0 <= k <= s.len(),
    ensures
        digits_val(s.subrange(0, k)) <= digits_val(s),
    decreases s.len() - k,
{
    if k == s.len() {
        assert(s.subrange(0, k) =~= s);
    } else {
        lemma_digits_val_prefix(s, k + 1);
        let p = s.subrange(0, k);
        let q = s.subrange(0, k + 1);
        assert(q.drop_last() =~= p);
        assert(q.last() == s[k]);
        lemma_digits_val_nonneg(p);
        assert(digits_val(q) == digits_val(p) * 10 + (s[k] - 0x30));
    }
}

/// Appends the canonical decimal rendering of `n`.
pub fn push_decimal(n: u64, out: &mut Vec<u8>)
    ensures
        final(out)@ == old(out)@ + dec_digits(n),
    decreases n,
{
    if n < 10 {
        out.push((n as u8) + 0x30);
        assert(out@ =~= old(out)@ + dec_digits(n));
    } else {
        push_decimal(n / 10, out);
        out.push((n % 10) as u8 + 0x30);
        assert(out@ =~= old(out)@ + dec_digits(n));
    }
}

/// Reads `buf[start..end]` as an unsigned base-10 number; rejects an empty
/// field, a non-digit byte, and a value that overflows a `u64`.
pub fn parse_decimal(buf: &[u8], start: usize, end: usize) -> (r: Option<u64>)
    requires
        start <= end <= buf@.len(),
    ensures
        ({
            let s = buf@.subrange(start as int, end as int);
            match r {
                Some(v) => valid_decimal(s) && v == digits_val(s),
                None => !valid_decimal(s),
            }
        }),
{
    let ghost s = buf@.subrange(start as int, end as int);
    if start == end {
        return None;
    }
    let mut val: u64 = 0;
    let mut i: usize = start;
    while i < end
        invariant
            start <= i <= end <= buf@.len(),
            s == buf@.subrange(start as int, end as int),
            all_digits(s.subrange(0, i - start)),
            val == digits_val(s.subrange(0, i - start)),
        decreases end - i,
    {
        let ghost p = s.subrange(0, i - start);
        let b = buf[i];
        assert(s[i - start] == b);
        if b < 0x30 || b > 0x39 {
            assert(!all_digits(s));
            return None;
        }
        let d = (b - 0x30) as u64;
        let ghost q = s.subrange(0, i + 1 - start);
        assert(q.drop_last() =~= p);
        assert(q.last() == b);
        assert(digits_val(q) == val * 10 + d);
        if val > (u64::MAX - d) / 10 {
            proof {
                assert(((u64::MAX - d) / 10) * 10 + (u64::MAX - d) % 10 == u64::MAX - d);
                assert(val * 10 + d > u64::MAX);
                if all_digits(s) {
                    lemma_digits_val_prefix(s, i + 1 - start);
                    assert(digits_val(s) >= digits_val(q));
                }
                assert(!valid_decimal(s));
            }
            return None;
        }
        proof {
            assert(((u64::MAX - d) / 10) * 10 <= u64::MAX - d);
            assert(val * 10 + d <= u64::MAX);
        }
        val = val * 10 + d;
        i = i + 1;
    }
    assert(s.subrange(0, end - start) =~= s);
    Some(val)
}

} // verus!
