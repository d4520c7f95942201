//! Canonical decimal encoding of unsigned 64-bit numbers.
//!
//! Numbers inside the token payload (expiry, field lengths, group
//! count) are written in decimal with no leading zeros.  Parsing is
//! strict: it accepts exactly the canonical form of a value that fits
//! in a `u64`.

use vstd::prelude::*;
use vstd::arithmetic::div_mod::{lemma_fundamental_div_mod, lemma_fundamental_div_mod_converse};

verus! {

/// The byte is the ASCII code of a decimal digit.
pub open spec fn is_dec_byte(b: u8) -> bool {
    0x30 <= b && b <= 0x39
}

/// Canonical decimal digits of a number, most significant first.
pub open spec fn dec_digits(n: u64) -> Seq<u8>
    decreases n,
{
    if n < 10 {
        seq![(0x30 + n) as u8]
    } else {
        dec_digits((n / 10) as u64) + seq![(0x30 + n % 10) as u8]
    }
}

/// Every byte of the sequence is a decimal digit byte.
pub open spec fn all_dec(ds: Seq<u8>) -> bool {
    forall|i: int| 0 <= i < ds.len() ==> is_dec_byte(#[trigger] ds[i])
}

/// Numeric value of a sequence of decimal digit bytes.
pub open spec fn dec_value(ds: Seq<u8>) -> int
    decreases ds.len(),
{
    if ds.len() == 0 {
        0
    } else {
        dec_value(ds.drop_last()) * 10 + (ds.last() - 0x30)
    }
}

/// Strict parse: `Some` exactly on the canonical digits of a `u64`.
pub open spec fn parse_dec(ds: Seq<u8>) -> Option<u64> {
    if ds.len() > 0 && all_dec(ds) && (ds.len() == 1 || ds[0] != 0x30) && dec_value(ds)
        <= u64::MAX {
        Some(dec_value(ds) as u64)
    } else {
        None
    }
}

/// Longest prefix of decimal digit bytes, and the remainder.
pub open spec fn scan_dec(bs: Seq<u8>) -> (Seq<u8>, Seq<u8>)
    decreases bs.len(),
{
    if bs.len() > 0 && is_dec_byte(bs[0]) {
        let pr = scan_dec(bs.drop_first());
        (seq![bs[0]] + pr.0, pr.1)
    } else {
        (Seq::empty(), bs)
    }
}

pub proof fn lemma_dec_value_nonneg(ds: Seq<u8>)
    requires
        all_dec(ds),
    ensures
        dec_value(ds) >= 0,
    decreases ds.len(),
{
    if ds.len() > 0 {
        assert(all_dec(ds.drop_last())) by {
            assert(forall|i: int|
                0 <= i < ds.drop_last().len() ==> ds.drop_last()[i] == ds[i]);
        }
        lemma_dec_value_nonneg(ds.drop_last());
    }
}

/// Shape of the canonical digits: nonempty, all digits, no leading zero
/// for a positive number.
pub proof fn lemma_dec_digits_shape(n: u64)
    ensures
        dec_digits(n).len() >= 1,
        all_dec(dec_digits(n)),
        n > 0 ==> dec_digits(n)[0] != 0x30,
        n < 10 ==> dec_digits(n).len() == 1,
    decreases n,
{
    if n >= 10 {
        lemma_dec_digits_shape((n / 10) as u64);
        let a = dec_digits((n / 10) as u64);
        let d = seq![(0x30 + n % 10) as u8];
        assert(n / 10 > 0);
        assert(forall|i: int| 0 <= i < a.len() ==> (a + d)[i] == a[i]);
        assert((a + d)[a.len() as int] == d[0]);
        assert(forall|i: int|
            0 <= i < (a + d).len() ==> is_dec_byte(#[trigger] (a + d)[i]));
        assert((a + d)[0] == a[0]);
    }
}

/// The value of the canonical digits is the number itself.
pub proof fn lemma_dec_value_digits(n: u64)
    ensures
        dec_value(dec_digits(n)) == n,
    decreases n,
{
    if n < 10 {
        let s = seq![(0x30 + n) as u8];
        assert(s.drop_last() =~= Seq::<u8>::empty());
        assert(s.last() == (0x30 + n) as u8);
        assert(dec_value(Seq::<u8>::empty()) == 0);
        assert(dec_value(s) == n);
    } else {
        lemma_dec_value_digits((n / 10) as u64);
        let a = dec_digits((n / 10) as u64);
        let s = a + seq![(0x30 + n % 10) as u8];
        assert(s.drop_last() =~= a);
        assert(s.last() == (0x30 + n % 10) as u8);
        lemma_fundamental_div_mod(n as int, 10);
    }
}

/// Parsing inverts encoding.
pub proof fn lemma_parse_dec_digits(n: u64)
    ensures
        parse_dec(dec_digits(n)) == Some(n),
{
    lemma_dec_digits_shape(n);
    lemma_dec_value_digits(n);
    if n == 0 {
        assert(dec_digits(0).len() == 1);
    }
}

/// Scanning a digit run followed by a non-digit yields exactly that run.
pub proof fn lemma_scan_dec_exact(a: Seq<u8>, r: Seq<u8>)
    requires
        all_dec(a),
        r.len() == 0 || !is_dec_byte(r[0]),
    ensures
        scan_dec(a + r) == (a, r),
    decreases a.len(),
{
    if a.len() == 0 {
        assert(a + r =~= r);
        assert(scan_dec(r).0 =~= a);
    } else {
        assert((a + r)[0] == a[0]);
        assert((a + r).drop_first() =~= a.drop_first() + r);
        assert(all_dec(a.drop_first())) by {
            assert(forall|i: int|
                0 <= i < a.drop_first().len() ==> a.drop_first()[i] == a[i + 1]);
        }
        lemma_scan_dec_exact(a.drop_first(), r);
        assert(seq![a[0]] + a.drop_first() =~= a);
    }
}

/// A scan splits its input: the digit run, then the remainder.
pub proof fn lemma_scan_dec_split(bs: Seq<u8>)
    ensures
        bs == scan_dec(bs).0 + scan_dec(bs).1,
        all_dec(scan_dec(bs).0),
        scan_dec(bs).1.len() == 0 || !is_dec_byte(scan_dec(bs).1[0]),
    decreases bs.len(),
{
    if bs.len() > 0 && is_dec_byte(bs[0]) {
        lemma_scan_dec_split(bs.drop_first());
        let pr = scan_dec(bs.drop_first());
        assert(bs =~= seq![bs[0]] + (pr.0 + pr.1));
        assert(seq![bs[0]] + (pr.0 + pr.1) =~= (seq![bs[0]] + pr.0) + pr.1);
        let run = seq![bs[0]] + pr.0;
        assert(run[0] == bs[0]);
        assert(forall|i: int| 1 <= i < run.len() ==> run[i] == pr.0[i - 1]);
        assert(all_dec(run));
    } else {
        assert(bs =~= Seq::<u8>::empty() + bs);
    }
}

/// A nonempty digit run without a leading zero has a positive value.
proof fn lemma_dec_value_positive(d: Seq<u8>)
    requires
        d.len() > 0,
        all_dec(d),
        d[0] != 0x30,
    ensures
        dec_value(d) >= 1,
    decreases d.len(),
{
    if d.len() == 1 {
        assert(d.drop_last() =~= Seq::<u8>::empty());
        assert(dec_value(Seq::<u8>::empty()) == 0);
        assert(d.last() == d[0]);
    } else {
        let dp = d.drop_last();
        assert(forall|i: int| 0 <= i < dp.len() ==> dp[i] == d[i]);
        lemma_dec_value_positive(dp);
        assert(is_dec_byte(d.last()));
    }
}

/// The canonical digits of the value of a canonical run are the run
/// itself: decimal encoding is injective on canonical runs.
pub proof fn lemma_dec_digits_of_value(d: Seq<u8>)
    requires
        d.len() > 0,
        all_dec(d),
        d.len() == 1 || d[0] != 0x30,
        dec_value(d) <= u64::MAX,
    ensures
        dec_digits(dec_value(d) as u64) == d,
    decreases d.len(),
{
    lemma_dec_value_nonneg(d);
    if d.len() == 1 {
        assert(d.drop_last() =~= Seq::<u8>::empty());
        assert(dec_value(Seq::<u8>::empty()) == 0);
        assert(d.last() == d[0]);
        let v = dec_value(d) as u64;
        assert(v < 10);
        assert(dec_digits(v) =~= d);
    } else {
        let dp = d.drop_last();
        assert(forall|i: int| 0 <= i < dp.len() ==> dp[i] == d[i]);
        assert(all_dec(dp));
        lemma_dec_value_nonneg(dp);
        lemma_dec_value_positive(dp);
        let vp = dec_value(dp);
        let dl = d.last() - 0x30;
        assert(is_dec_byte(d.last()));
        assert(0 <= dl < 10);
        assert(dec_value(d) == vp * 10 + dl);
        assert(vp * 10 >= vp);
        lemma_dec_digits_of_value(dp);
        let v = dec_value(d) as u64;
        assert(v >= 10);
        lemma_fundamental_div_mod_converse(v as int, 10, vp, dl);
        assert(dec_digits(v) == dec_digits((v as int / 10) as u64) + seq![(0x30 + v % 10) as u8]);
        assert((v as int / 10) as u64 == vp as u64);
        assert(dec_digits(v) =~= d) by {
            assert((0x30 + v % 10) as u8 == d.last());
            assert(dp + seq![d.last()] =~= d);
        }
    }
}

/// Canonical decimal digits of a number.
pub fn u64_digits(n: u64) -> (r: Vec<u8>)
    ensures
        r@ == dec_digits(n),
    decreases n,
{
    if n < 10 {
        let mut r: Vec<u8> = Vec::new();
        r.push(0x30 + (n as u8));
        proof {
            assert(r@ =~= dec_digits(n));
        }
        r
    } else {
        assert(n / 10 < n) by (nonlinear_arith)
            requires
                n >= 10,
        ;
        let mut r = u64_digits(n / 10);
        r.push(0x30 + ((n % 10) as u8));
        proof {
            assert(r@ =~= dec_digits(n));
        }
        r
    }
}

/// Whether the byte is the ASCII code of a decimal digit.
pub fn is_dec_digit_byte(b: u8) -> (r: bool)
    ensures
        r == is_dec_byte(b),
{
    0x30 <= b && b <= 0x39
}

/// First position at or after `i` that does not hold a decimal digit.
pub fn scan_dec_end(bs: &Vec<u8>, i: usize) -> (j: usize)
    requires
        i <= bs@.len(),
    ensures
        i <= j <= bs@.len(),
        all_dec(bs@.subrange(i as int, j as int)),
        j < bs@.len() ==> !is_dec_byte(bs@[j as int]),
        scan_dec(bs@.skip(i as int)) == (bs@.subrange(i as int, j as int), bs@.skip(j as int)),
{
    let n = bs.len();
    let mut j = i;
    while j < n && 0x30 <= bs[j] && bs[j] <= 0x39
        invariant
            i <= j <= n,
            n == bs@.len(),
            all_dec(bs@.subrange(i as int, j as int)),
        decreases n - j,
    {
        proof {
            assert(forall|k: int|
                0 <= k < (j - i) ==> bs@.subrange(i as int, j as int + 1)[k] == bs@.subrange(
                    i as int,
                    j as int,
                )[k]);
            assert(bs@.subrange(i as int, j as int + 1)[(j - i) as int] == bs@[j as int]);
        }
        j = j + 1;
    }
    proof {
        assert(bs@.skip(i as int) =~= bs@.subrange(i as int, j as int) + bs@.skip(j as int));
        lemma_scan_dec_exact(bs@.subrange(i as int, j as int), bs@.skip(j as int));
    }
    j
}

/// Parse the digit run `bs[i..j]` as a canonical decimal `u64`.
pub fn parse_dec_range(bs: &Vec<u8>, i: usize, j: usize) -> (r: Option<u64>)
    requires
        i <= j <= bs@.len(),
        all_dec(bs@.subrange(i as int, j as int)),
    ensures
        r == parse_dec(bs@.subrange(i as int, j as int)),
{
    let ghost s = bs@.subrange(i as int, j as int);
    if i == j {
        return None;
    }
    if j - i > 1 && bs[i] == 0x30 {
        return None;
    }
    let mut acc: u64 = 0;
    let mut over: bool = false;
    let mut k = i;
    while k < j
        invariant
            i <= k <= j <= bs@.len(),
            s == bs@.subrange(i as int, j as int),
            all_dec(s),
            over ==> dec_value(s.subrange(0, (k - i) as int)) > u64::MAX,
            !over ==> acc == dec_value(s.subrange(0, (k - i) as int)),
        decreases j - k,
    {
        proof {
            let pre = s.subrange(0, (k - i) as int);
            let pre1 = s.subrange(0, (k - i) as int + 1);
            assert(pre1.drop_last() =~= pre);
            assert(pre1.last() == s[(k - i) as int]);
            assert(s[(k - i) as int] == bs@[k as int]);
            assert(forall|q: int| 0 <= q < pre.len() ==> pre[q] == s[q]);
            assert(all_dec(pre));
            lemma_dec_value_nonneg(pre);
        }
        let d = bs[k] - 0x30;
        if over {
            proof {
                let pre = s.subrange(0, (k - i) as int);
                assert(dec_value(pre) * 10 >= dec_value(pre));
            }
        } else {
            let wide: u128 = (acc as u128) * 10 + (d as u128);
            if wide > u64::MAX as u128 {
                over = true;
            } else {
                acc = wide as u64;
            }
        }
        k = k + 1;
    }
    proof {
        assert(s.subrange(0, (j - i) as int) =~= s);
    }
    if over {
        None
    } else {
        Some(acc)
    }
}

} // verus!
