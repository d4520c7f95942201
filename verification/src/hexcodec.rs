//! Lowercase hexadecimal armor for byte sequences.
//!
//! Token parts are carried as hex digits so that a token is always made
//! of bytes legal in an HTTP header or cookie value.  Decoding is
//! strict: it succeeds exactly on the output of the encoder.

use vstd::prelude::*;

verus! {

/// The byte is the ASCII code of a lowercase hexadecimal digit.
pub open spec fn is_hex_byte(b: u8) -> bool {
    (0x30 <= b && b <= 0x39) || (0x61 <= b && b <= 0x66)
}

/// ASCII code of the lowercase hexadecimal digit for a value below 16.
pub open spec fn hex_digit(n: u8) -> u8
    recommends
        n < 16,
{
    if n < 10 {
        (0x30 + n) as u8
    } else {
        (0x57 + n) as u8
    }
}

/// Value of a hexadecimal digit byte.
pub open spec fn hex_value(b: u8) -> u8
    recommends
        is_hex_byte(b),
{
    if b <= 0x39 {
        (b - 0x30) as u8
    } else {
        (b - 0x57) as u8
    }
}

/// Lowercase hexadecimal encoding, two digits per byte, high digit first.
pub open spec fn hex_of(bs: Seq<u8>) -> Seq<u8>
    decreases bs.len(),
{
    if bs.len() == 0 {
        Seq::empty()
    } else {
        seq![hex_digit(bs[0] >> 4), hex_digit(bs[0] & 0x0f)] + hex_of(bs.drop_first())
    }
}

/// Strict decoding: `Some` exactly on sequences produced by `hex_of`.
pub open spec fn unhex(ds: Seq<u8>) -> Option<Seq<u8>>
    decreases ds.len(),
{
    if ds.len() == 0 {
        Some(Seq::empty())
    } else if ds.len() == 1 {
        None
    } else if is_hex_byte(ds[0]) && is_hex_byte(ds[1]) {
        match unhex(ds.skip(2)) {
            Some(r) => Some(
                seq![((hex_value(ds[0]) as int) * 16 + (hex_value(ds[1]) as int)) as u8] + r,
            ),
            None => None,
        }
    } else {
        None
    }
}

/// Longest prefix of hexadecimal digit bytes, and the remainder.
pub open spec fn scan_hex(bs: Seq<u8>) -> (Seq<u8>, Seq<u8>)
    decreases bs.len(),
{
    if bs.len() > 0 && is_hex_byte(bs[0]) {
        let pr = scan_hex(bs.drop_first());
        (seq![bs[0]] + pr.0, pr.1)
    } else {
        (Seq::empty(), bs)
    }
}

pub proof fn lemma_hex_digit_props(n: u8)
    requires
        n < 16,
    ensures
        is_hex_byte(hex_digit(n)),
        hex_value(hex_digit(n)) == n,
        hex_digit(n) != 0x2e,
{
}

/// Every byte of a hexadecimal encoding is a hexadecimal digit byte.
pub proof fn lemma_hex_of_all_hex(bs: Seq<u8>)
    ensures
        hex_of(bs).len() == 2 * bs.len(),
        forall|i: int| 0 <= i < hex_of(bs).len() ==> is_hex_byte(#[trigger] hex_of(bs)[i]),
    decreases bs.len(),
{
    if bs.len() > 0 {
        lemma_hex_of_all_hex(bs.drop_first());
        let b = bs[0];
        assert(b >> 4 < 16) by (bit_vector);
        assert(b & 0x0f < 16) by (bit_vector);
        lemma_hex_digit_props(b >> 4);
        lemma_hex_digit_props(b & 0x0f);
    }
}

/// Decoding inverts encoding.
pub proof fn lemma_unhex_hex_of(bs: Seq<u8>)
    ensures
        unhex(hex_of(bs)) == Some(bs),
    decreases bs.len(),
{
    if bs.len() == 0 {
        assert(bs =~= Seq::<u8>::empty());
    } else {
        let b = bs[0];
        assert(b >> 4 < 16 && b & 0x0f < 16) by (bit_vector);
        let hi = b >> 4;
        let lo = b & 0x0f;
        lemma_hex_digit_props(hi);
        lemma_hex_digit_props(lo);
        lemma_unhex_hex_of(bs.drop_first());
        let ds = hex_of(bs);
        lemma_hex_of_all_hex(bs.drop_first());
        assert(ds.skip(2) =~= hex_of(bs.drop_first()));
        assert((b >> 4) * 16 + (b & 0x0f) == b) by (bit_vector);
        assert(seq![b] + bs.drop_first() =~= bs);
    }
}

/// A hexadecimal digit byte is the digit of its own value.
pub proof fn lemma_hex_digit_of_value(d: u8)
    requires
        is_hex_byte(d),
    ensures
        hex_value(d) < 16,
        hex_digit(hex_value(d)) == d,
{
}

/// Only encodings decode: a successful decode is of the encoding of
/// its result, so hexadecimal decoding is injective.
pub proof fn lemma_unhex_sound(ds: Seq<u8>)
    ensures
        unhex(ds) matches Some(v) ==> ds == hex_of(v),
    decreases ds.len(),
{
    if ds.len() >= 2 && is_hex_byte(ds[0]) && is_hex_byte(ds[1]) {
        lemma_unhex_sound(ds.skip(2));
        match unhex(ds.skip(2)) {
            Some(r) => {
                let a = hex_value(ds[0]);
                let b = hex_value(ds[1]);
                lemma_hex_digit_of_value(ds[0]);
                lemma_hex_digit_of_value(ds[1]);
                let v0 = ((a as int) * 16 + (b as int)) as u8;
                assert(v0 == a * 16 + b);
                assert(v0 >> 4 == a && v0 & 0x0f == b) by (bit_vector)
                    requires
                        a < 16 && b < 16 && v0 == a * 16 + b,
                ;
                let v = seq![v0] + r;
                assert(v[0] == v0);
                assert(v.drop_first() =~= r);
                assert(ds =~= seq![ds[0], ds[1]] + ds.skip(2));
                assert(hex_of(v) =~= ds);
            },
            None => {},
        }
    }
}

/// Scanning a hexadecimal run followed by a non-digit yields exactly that run.
pub proof fn lemma_scan_hex_exact(a: Seq<u8>, r: Seq<u8>)
    requires
        forall|i: int| 0 <= i < a.len() ==> is_hex_byte(#[trigger] a[i]),
        r.len() == 0 || !is_hex_byte(r[0]),
    ensures
        scan_hex(a + r) == (a, r),
    decreases a.len(),
{
    if a.len() == 0 {
        assert(a + r =~= r);
        assert(scan_hex(r).0 =~= a);
    } else {
        assert((a + r)[0] == a[0]);
        assert((a + r).drop_first() =~= a.drop_first() + r);
        lemma_scan_hex_exact(a.drop_first(), r);
        assert(seq![a[0]] + a.drop_first() =~= a);
    }
}

/// A scan splits its input: the hexadecimal run, then the remainder.
pub proof fn lemma_scan_hex_split(bs: Seq<u8>)
    ensures
        bs == scan_hex(bs).0 + scan_hex(bs).1,
        forall|i: int| 0 <= i < scan_hex(bs).0.len() ==> is_hex_byte(#[trigger] scan_hex(bs).0[i]),
    decreases bs.len(),
{
    if bs.len() > 0 && is_hex_byte(bs[0]) {
        lemma_scan_hex_split(bs.drop_first());
        let pr = scan_hex(bs.drop_first());
        assert(bs =~= seq![bs[0]] + (pr.0 + pr.1));
        assert(seq![bs[0]] + (pr.0 + pr.1) =~= (seq![bs[0]] + pr.0) + pr.1);
        let run = seq![bs[0]] + pr.0;
        assert(run[0] == bs[0]);
        assert(forall|i: int| 1 <= i < run.len() ==> run[i] == pr.0[i - 1]);
    } else {
        assert(bs =~= Seq::<u8>::empty() + bs);
    }
}

/// ASCII code of the lowercase hexadecimal digit for a value below 16.
pub fn hex_digit_byte(n: u8) -> (d: u8)
    requires
        n < 16,
    ensures
        d == hex_digit(n),
{
    if n < 10 {
        0x30 + n
    } else {
        0x57 + n
    }
}

/// Whether the byte is the ASCII code of a lowercase hexadecimal digit.
pub fn is_hex_digit_byte(b: u8) -> (r: bool)
    ensures
        r == is_hex_byte(b),
{
    (0x30 <= b && b <= 0x39) || (0x61 <= b && b <= 0x66)
}

/// Value of a hexadecimal digit byte.
pub fn hex_value_byte(b: u8) -> (v: u8)
    requires
        is_hex_byte(b),
    ensures
        v == hex_value(b),
        v < 16,
{
    if b <= 0x39 {
        b - 0x30
    } else {
        b - 0x57
    }
}

/// Encode a byte sequence as lowercase hexadecimal.
pub fn hex_encode(bs: &Vec<u8>) -> (r: Vec<u8>)
    ensures
        r@ == hex_of(bs@),
{
    let mut r: Vec<u8> = Vec::new();
    let n = bs.len();
    proof {
        assert(bs@.skip(0) =~= bs@);
    }
    for i in 0..n
        invariant
            n == bs@.len(),
            hex_of(bs@) == r@ + hex_of(bs@.skip(i as int)),
            r@.len() == 2 * i,
    {
        let b = bs[i];
        assert(b >> 4 < 16 && b & 0x0f < 16) by (bit_vector);
        let ghost r0 = r@;
        proof {
            let s = bs@.skip(i as int);
            assert(s[0] == bs@[i as int]);
            assert(s.drop_first() =~= bs@.skip(i as int + 1));
            assert((r0 + seq![hex_digit(b >> 4), hex_digit(b & 0x0f)]) + hex_of(
                bs@.skip(i as int + 1),
            ) =~= r0 + (seq![hex_digit(b >> 4), hex_digit(b & 0x0f)] + hex_of(
                bs@.skip(i as int + 1),
            )));
        }
        r.push(hex_digit_byte(b >> 4));
        r.push(hex_digit_byte(b & 0x0f));
        proof {
            assert(r@ =~= r0 + seq![hex_digit(b >> 4), hex_digit(b & 0x0f)]);
        }
    }
    proof {
        assert(bs@.skip(n as int) =~= Seq::<u8>::empty());
        assert(r@ + hex_of(bs@.skip(n as int)) =~= r@);
    }
    r
}

/// `Some` composed with prepending a fixed prefix.
pub open spec fn opt_prepend(p: Seq<u8>, o: Option<Seq<u8>>) -> Option<Seq<u8>> {
    match o {
        Some(t) => Some(p + t),
        None => None,
    }
}

/// Decode a strict lowercase hexadecimal encoding.
pub fn hex_decode(ds: &Vec<u8>) -> (r: Option<Vec<u8>>)
    ensures
        match r {
            Some(v) => unhex(ds@) == Some(v@),
            None => unhex(ds@) is None,
        },
{
    let mut out: Vec<u8> = Vec::new();
    let n = ds.len();
    let mut i: usize = 0;
    proof {
        assert(ds@.skip(0) =~= ds@);
    }
    while i < n
        invariant
            n == ds@.len(),
            i <= n,
            unhex(ds@) == opt_prepend(out@, unhex(ds@.skip(i as int))),
        decreases n - i,
    {
        if i + 1 == n {
            proof {
                assert(ds@.skip(i as int).len() == 1);
            }
            return None;
        }
        let d0 = ds[i];
        let d1 = ds[i + 1];
        proof {
            let s = ds@.skip(i as int);
            assert(s.len() >= 2);
            assert(s[0] == ds@[i as int]);
            assert(s[1] == ds@[i as int + 1]);
            assert(s.skip(2) =~= ds@.skip(i as int + 2));
        }
        if !(is_hex_digit_byte(d0) && is_hex_digit_byte(d1)) {
            return None;
        }
        let v = hex_value_byte(d0) * 16 + hex_value_byte(d1);
        proof {
            let s = ds@.skip(i as int);
            let tail = unhex(ds@.skip(i as int + 2));
            if tail is Some {
                assert(out@ + (seq![v] + tail->Some_0) =~= (out@ + seq![v]) + tail->Some_0);
            }
        }
        out.push(v);
        i = i + 2;
    }
    proof {
        assert(ds@.skip(i as int) =~= Seq::<u8>::empty());
        assert(out@ + Seq::<u8>::empty() =~= out@);
    }
    Some(out)
}

} // verus!
