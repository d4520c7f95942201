//! The signed payload: identity, absolute expiry, authorization groups.
//!
//! Claims are carried inside the token in a canonical compact form
//! built from decimal numbers and length-prefixed byte strings:
//!
//! `<exp>.<user len>.<user bytes>.<group count>(.<group len>.<group bytes>)*`
//!
//! Identity and group names are raw byte strings (UTF-8 at the edges),
//! so no character needs escaping: every field is either a decimal
//! number or read by its announced length.  Parsing is strict: it
//! accepts exactly the output of the serializer.

use vstd::prelude::*;
use crate::numcodec::{
    dec_digits, is_dec_byte, parse_dec, parse_dec_range, scan_dec, scan_dec_end, u64_digits,
    lemma_parse_dec_digits, lemma_dec_digits_shape, lemma_scan_dec_exact, lemma_scan_dec_split,
    lemma_dec_digits_of_value,
};

verus! {

/// Mathematical model of a claims value.
#[verifier::ext_equal]
pub struct ClaimsSpec {
    pub exp: u64,
    pub user: Seq<u8>,
    pub groups: Seq<Seq<u8>>,
}

/// The signed payload: expiry timestamp (seconds), identity, groups.
#[derive(Debug)]
pub struct Claims {
    pub exp: u64,
    pub user: Vec<u8>,
    pub groups: Vec<Vec<u8>>,
}

impl View for Claims {
    type V = ClaimsSpec;

    open spec fn view(&self) -> ClaimsSpec {
        ClaimsSpec {
            exp: self.exp,
            user: self.user@,
            groups: self.groups@.map_values(|g: Vec<u8>| g@),
        }
    }
}

/// Every length fits the decimal length fields of the payload.
pub open spec fn claims_bounded(c: ClaimsSpec) -> bool {
    &&& c.user.len() <= u64::MAX
    &&& c.groups.len() <= u64::MAX
    &&& forall|i: int| 0 <= i < c.groups.len() ==> (#[trigger] c.groups[i]).len() <= u64::MAX
}

/// Serialized form of the group list: `.<len>.<bytes>` per group.
pub open spec fn group_fields(gs: Seq<Seq<u8>>) -> Seq<u8>
    decreases gs.len(),
{
    if gs.len() == 0 {
        Seq::empty()
    } else {
        seq![0x2eu8] + dec_digits(gs[0].len() as u64) + seq![0x2eu8] + gs[0] + group_fields(
            gs.drop_first(),
        )
    }
}

/// Canonical compact serialization of a claims value.
pub open spec fn payload_of(c: ClaimsSpec) -> Seq<u8> {
    dec_digits(c.exp) + seq![0x2eu8] + dec_digits(c.user.len() as u64) + seq![0x2eu8] + c.user
        + seq![0x2eu8] + dec_digits(c.groups.len() as u64) + group_fields(c.groups)
}

/// Read `n` groups, each written as `.<len>.<bytes>`.
pub open spec fn scan_groups(bs: Seq<u8>, n: u64) -> Option<(Seq<Seq<u8>>, Seq<u8>)>
    decreases n,
{
    if n == 0 {
        Some((Seq::empty(), bs))
    } else if bs.len() >= 1 && bs[0] == 0x2e {
        let t = scan_dec(bs.skip(1));
        match parse_dec(t.0) {
            Some(glen) => if t.1.len() >= 1 + glen && t.1[0] == 0x2e {
                let g = t.1.skip(1).take(glen as int);
                let rest = t.1.skip(1 + glen as int);
                match scan_groups(rest, (n - 1) as u64) {
                    Some(pr) => Some((seq![g] + pr.0, pr.1)),
                    None => None,
                }
            } else {
                None
            },
            None => None,
        }
    } else {
        None
    }
}

/// Strict parse of the canonical claims serialization.
pub open spec fn parse_payload(bs: Seq<u8>) -> Option<ClaimsSpec> {
    let t1 = scan_dec(bs);
    match parse_dec(t1.0) {
        Some(exp) => if t1.1.len() >= 1 && t1.1[0] == 0x2e {
            let t2 = scan_dec(t1.1.skip(1));
            match parse_dec(t2.0) {
                Some(ulen) => if t2.1.len() >= 1 + ulen && t2.1[0] == 0x2e {
                    let user = t2.1.skip(1).take(ulen as int);
                    let r2 = t2.1.skip(1 + ulen as int);
                    if r2.len() >= 1 && r2[0] == 0x2e {
                        let t3 = scan_dec(r2.skip(1));
                        match parse_dec(t3.0) {
                            Some(n) => match scan_groups(t3.1, n) {
                                Some(pr) => if pr.1.len() == 0 {
                                    Some(ClaimsSpec { exp, user, groups: pr.0 })
                                } else {
                                    None
                                },
                                None => None,
                            },
                            None => None,
                        }
                    } else {
                        None
                    }
                } else {
                    None
                },
                None => None,
            }
        } else {
            None
        },
        None => None,
    }
}

/// Reading back `n` serialized groups recovers them and leaves the rest.
pub proof fn lemma_scan_groups_round(gs: Seq<Seq<u8>>, rest: Seq<u8>)
    requires
        gs.len() <= u64::MAX,
        forall|i: int| 0 <= i < gs.len() ==> (#[trigger] gs[i]).len() <= u64::MAX,
    ensures
        scan_groups(group_fields(gs) + rest, gs.len() as u64) == Some((gs, rest)),
    decreases gs.len(),
{
    if gs.len() == 0 {
        assert(group_fields(gs) + rest =~= rest);
        assert(scan_groups(rest, 0) == Some((Seq::<Seq<u8>>::empty(), rest)));
        assert(Seq::<Seq<u8>>::empty() =~= gs);
    } else {
        let g0 = gs[0];
        let l0 = g0.len() as u64;
        let tailf = group_fields(gs.drop_first());
        let bs = group_fields(gs) + rest;
        lemma_dec_digits_shape(l0);
        // Decompose the serialized bytes around the first group.
        let after1 = dec_digits(l0) + (seq![0x2eu8] + g0 + tailf + rest);
        assert(bs =~= seq![0x2eu8] + after1);
        assert(bs[0] == 0x2e);
        assert(bs.skip(1) =~= after1);
        let r0 = seq![0x2eu8] + g0 + tailf + rest;
        assert(after1 =~= dec_digits(l0) + r0);
        assert(r0[0] == 0x2e);
        assert(!is_dec_byte(0x2e));
        lemma_scan_dec_exact(dec_digits(l0), r0);
        assert(scan_dec(bs.skip(1)) == (dec_digits(l0), r0));
        lemma_parse_dec_digits(l0);
        assert(r0.len() >= 1 + l0);
        assert(r0.skip(1) =~= g0 + tailf + rest);
        assert(r0.skip(1).take(l0 as int) =~= g0);
        assert(r0.skip(1 + l0 as int) =~= tailf + rest);
        assert(forall|i: int|
            0 <= i < gs.drop_first().len() ==> (#[trigger] gs.drop_first()[i]).len()
                <= u64::MAX) by {
            assert(forall|i: int|
                0 <= i < gs.drop_first().len() ==> gs.drop_first()[i] == gs[i + 1]);
        }
        lemma_scan_groups_round(gs.drop_first(), rest);
        assert(scan_groups(tailf + rest, (gs.len() - 1) as u64) == Some((gs.drop_first(), rest)));
        assert(seq![g0] + gs.drop_first() =~= gs);
    }
}

/// Parsing inverts serialization.
pub proof fn lemma_parse_payload_round(c: ClaimsSpec)
    requires
        claims_bounded(c),
    ensures
        parse_payload(payload_of(c)) == Some(c),
{
    let ulen = c.user.len() as u64;
    let glen = c.groups.len() as u64;
    let bs = payload_of(c);
    lemma_dec_digits_shape(c.exp);
    lemma_dec_digits_shape(ulen);
    lemma_dec_digits_shape(glen);
    lemma_parse_dec_digits(c.exp);
    lemma_parse_dec_digits(ulen);
    lemma_parse_dec_digits(glen);
    assert(!is_dec_byte(0x2e));
    let gf = group_fields(c.groups);

    // First field: the expiry digits up to the first separator.
    let r1 = seq![0x2eu8] + dec_digits(ulen) + seq![0x2eu8] + c.user + seq![0x2eu8] + dec_digits(
        glen,
    ) + gf;
    assert(bs =~= dec_digits(c.exp) + r1);
    assert(r1[0] == 0x2e);
    lemma_scan_dec_exact(dec_digits(c.exp), r1);
    assert(scan_dec(bs) == (dec_digits(c.exp), r1));

    // Second field: the identity length.
    let r2 = seq![0x2eu8] + c.user + seq![0x2eu8] + dec_digits(glen) + gf;
    assert(r1.skip(1) =~= dec_digits(ulen) + r2);
    assert(r2[0] == 0x2e);
    lemma_scan_dec_exact(dec_digits(ulen), r2);

    // The identity bytes are read by length, then a separator follows.
    assert(r2.len() >= 1 + ulen);
    assert(r2.skip(1) =~= c.user + (seq![0x2eu8] + dec_digits(glen) + gf));
    assert(r2.skip(1).take(ulen as int) =~= c.user);
    let r3 = seq![0x2eu8] + dec_digits(glen) + gf;
    assert(r2.skip(1 + ulen as int) =~= r3);
    assert(r3[0] == 0x2e);

    // Third field: the group count, then the group fields.
    assert(r3.skip(1) =~= dec_digits(glen) + gf);
    if c.groups.len() == 0 {
        assert(gf =~= Seq::<u8>::empty());
        assert(gf.len() == 0);
    } else {
        assert(gf[0] == 0x2e);
    }
    lemma_scan_dec_exact(dec_digits(glen), gf);
    lemma_scan_groups_round(c.groups, Seq::<u8>::empty());
    assert(gf + Seq::<u8>::empty() =~= gf);
    assert(scan_groups(gf, glen) == Some((c.groups, Seq::<u8>::empty())));
    assert(parse_payload(bs) == Some(ClaimsSpec { exp: c.exp, user: c.user, groups: c.groups }));
    assert(ClaimsSpec { exp: c.exp, user: c.user, groups: c.groups } =~= c);
}

/// A successful group scan reads exactly the serialized form of the
/// groups it returns.
pub proof fn lemma_scan_groups_sound(bs: Seq<u8>, n: u64)
    ensures
        scan_groups(bs, n) matches Some(pr) ==> (bs == group_fields(pr.0) + pr.1 && pr.0.len()
            == n && (forall|i: int|
            0 <= i < pr.0.len() ==> (#[trigger] pr.0[i]).len() <= u64::MAX)),
    decreases n,
{
    if n == 0 {
        assert(group_fields(Seq::<Seq<u8>>::empty()) + bs =~= bs);
    } else if bs.len() >= 1 && bs[0] == 0x2e {
        let t = scan_dec(bs.skip(1));
        lemma_scan_dec_split(bs.skip(1));
        match parse_dec(t.0) {
            Some(glen) => {
                if t.1.len() >= 1 + glen && t.1[0] == 0x2e {
                    let g = t.1.skip(1).take(glen as int);
                    let rest = t.1.skip(1 + glen as int);
                    lemma_scan_groups_sound(rest, (n - 1) as u64);
                    match scan_groups(rest, (n - 1) as u64) {
                        Some(pr2) => {
                            let gs = seq![g] + pr2.0;
                            assert(g.len() == glen);
                            lemma_dec_digits_of_value(t.0);
                            assert(dec_digits(glen) == t.0);
                            assert(gs[0] == g);
                            assert(gs.drop_first() =~= pr2.0);
                            assert(group_fields(gs) == seq![0x2eu8] + dec_digits(
                                g.len() as u64,
                            ) + seq![0x2eu8] + g + group_fields(pr2.0));
                            assert(g.len() as u64 == glen);
                            assert(t.1.skip(1).skip(glen as int) =~= t.1.skip(1 + glen as int));
                            assert(t.1.skip(1) =~= g + rest);
                            assert(t.1 =~= seq![0x2eu8] + (g + rest));
                            assert(bs =~= seq![0x2eu8] + (t.0 + t.1));
                            assert(bs =~= group_fields(gs) + pr2.1);
                        },
                        None => {},
                    }
                }
            },
            None => {},
        }
    }
}

/// Parsing accepts only the canonical serialization: a payload that
/// parses is byte for byte what the serializer writes for its claims.
#[verifier::rlimit(100)]
pub proof fn lemma_parse_payload_sound(bs: Seq<u8>)
    ensures
        parse_payload(bs) matches Some(c) ==> (bs == payload_of(c) && claims_bounded(c)),
{
    let t1 = scan_dec(bs);
    lemma_scan_dec_split(bs);
    match parse_dec(t1.0) {
        Some(exp) => {
            if t1.1.len() >= 1 && t1.1[0] == 0x2e {
                let r1 = t1.1.skip(1);
                let t2 = scan_dec(r1);
                lemma_scan_dec_split(r1);
                match parse_dec(t2.0) {
                    Some(ulen) => {
                        if t2.1.len() >= 1 + ulen && t2.1[0] == 0x2e {
                            let user = t2.1.skip(1).take(ulen as int);
                            let r2 = t2.1.skip(1 + ulen as int);
                            if r2.len() >= 1 && r2[0] == 0x2e {
                                let t3 = scan_dec(r2.skip(1));
                                lemma_scan_dec_split(r2.skip(1));
                                match parse_dec(t3.0) {
                                    Some(n) => {
                                        lemma_scan_groups_sound(t3.1, n);
                                        match scan_groups(t3.1, n) {
                                            Some(pr) => {
                                                if pr.1.len() == 0 {
                                                    let c = ClaimsSpec {
                                                        exp,
                                                        user,
                                                        groups: pr.0,
                                                    };
                                                    lemma_dec_digits_of_value(t1.0);
                                                    lemma_dec_digits_of_value(t2.0);
                                                    lemma_dec_digits_of_value(t3.0);
                                                    assert(user.len() == ulen);
                                                    assert(pr.0.len() == n);
                                                    assert(t3.1 =~= group_fields(pr.0));
                                                    assert(r2.skip(1) =~= t3.0 + t3.1);
                                                    assert(r2 =~= seq![0x2eu8] + (t3.0 + t3.1));
                                                    assert(t2.1.skip(1).skip(ulen as int) =~= t2
                                                        .1.skip(1 + ulen as int));
                                                    assert(t2.1.skip(1) =~= user + r2);
                                                    assert(t2.1 =~= seq![0x2eu8] + (user + r2));
                                                    assert(r1 =~= t2.0 + t2.1);
                                                    assert(t1.1 =~= seq![0x2eu8] + (t2.0 + t2.1));
                                                    assert(bs =~= t1.0 + t1.1);
                                                    assert(bs =~= payload_of(c));
                                                }
                                            },
                                            None => {},
                                        }
                                    },
                                    None => {},
                                }
                            }
                        }
                    },
                    None => {},
                }
            }
        },
        None => {},
    }
}

/// Append a copy of `src` to `out`.
pub fn extend_bytes(out: &mut Vec<u8>, src: &Vec<u8>)
    ensures
        final(out)@ == old(out)@ + src@,
{
    let n = src.len();
    proof {
        assert(old(out)@ + src@.take(0) =~= old(out)@);
    }
    for i in 0..n
        invariant
            n == src@.len(),
            out@ == old(out)@ + src@.take(i as int),
    {
        let ghost o0 = out@;
        out.push(src[i]);
        proof {
            assert(out@ =~= old(out)@ + src@.take(i as int + 1));
        }
    }
    proof {
        assert(src@.take(n as int) =~= src@);
    }
}

/// Copy of the byte range `bs[a..b]`.
pub fn copy_range(bs: &Vec<u8>, a: usize, b: usize) -> (r: Vec<u8>)
    requires
        a <= b <= bs@.len(),
    ensures
        r@ == bs@.subrange(a as int, b as int),
{
    let mut r: Vec<u8> = Vec::new();
    for i in a..b
        invariant
            a <= i <= b <= bs@.len(),
            r@ == bs@.subrange(a as int, i as int),
    {
        r.push(bs[i]);
        proof {
            assert(r@ =~= bs@.subrange(a as int, i as int + 1));
        }
    }
    r
}

/// Serialize claims into the canonical compact payload.
pub fn serialize_claims(c: &Claims) -> (out: Vec<u8>)
    ensures
        out@ == payload_of(c@),
{
    let ghost gv = c@.groups;
    let mut out = u64_digits(c.exp);
    out.push(0x2e);
    let ul = u64_digits(c.user.len() as u64);
    extend_bytes(&mut out, &ul);
    out.push(0x2e);
    extend_bytes(&mut out, &c.user);
    out.push(0x2e);
    let gl = u64_digits(c.groups.len() as u64);
    extend_bytes(&mut out, &gl);
    proof {
        assert(out@ =~= dec_digits(c@.exp) + seq![0x2eu8] + dec_digits(c@.user.len() as u64)
            + seq![0x2eu8] + c@.user + seq![0x2eu8] + dec_digits(c@.groups.len() as u64));
        assert(gv.skip(0) =~= gv);
        assert(payload_of(c@) =~= out@ + group_fields(gv.skip(0)));
    }
    let n = c.groups.len();
    for i in 0..n
        invariant
            n == c.groups@.len(),
            gv == c@.groups,
            gv.len() == n,
            payload_of(c@) == out@ + group_fields(gv.skip(i as int)),
    {
        let ghost o0 = out@;
        let g = &c.groups[i];
        out.push(0x2e);
        let gd = u64_digits(g.len() as u64);
        extend_bytes(&mut out, &gd);
        out.push(0x2e);
        extend_bytes(&mut out, g);
        proof {
            let s = gv.skip(i as int);
            assert(s[0] == gv[i as int]);
            assert(gv[i as int] == c.groups@[i as int]@);
            assert(s.drop_first() =~= gv.skip(i as int + 1));
            assert(group_fields(s) == seq![0x2eu8] + dec_digits(s[0].len() as u64) + seq![0x2eu8]
                + s[0] + group_fields(s.drop_first()));
            assert(out@ =~= o0 + (seq![0x2eu8] + dec_digits(s[0].len() as u64) + seq![0x2eu8]
                + s[0]));
            assert(o0 + group_fields(s) =~= out@ + group_fields(gv.skip(i as int + 1)));
        }
    }
    proof {
        assert(gv.skip(n as int) =~= Seq::<Seq<u8>>::empty());
        assert(out@ + group_fields(gv.skip(n as int)) =~= out@);
    }
    out
}

/// `Some` composed with prepending already-read groups.
pub open spec fn opt_groups_prepend(
    gs: Seq<Seq<u8>>,
    o: Option<(Seq<Seq<u8>>, Seq<u8>)>,
) -> Option<(Seq<Seq<u8>>, Seq<u8>)> {
    match o {
        Some(pr) => Some((gs + pr.0, pr.1)),
        None => None,
    }
}

/// Strict parse of the canonical claims serialization.
#[verifier::loop_isolation(false)]
#[verifier::rlimit(100)]
pub fn parse_claims_bytes(bs: &Vec<u8>) -> (r: Option<Claims>)
    ensures
        match r {
            Some(c) => parse_payload(bs@) == Some(c@),
            None => parse_payload(bs@) is None,
        },
{
    let len = bs.len();
    proof {
        assert(bs@.skip(0) =~= bs@);
    }
    // Expiry.
    let j1 = scan_dec_end(bs, 0);
    proof {
        assert(scan_dec(bs@) == (bs@.subrange(0, j1 as int), bs@.skip(j1 as int)));
    }
    let exp = match parse_dec_range(bs, 0, j1) {
        Some(v) => v,
        None => {
            return None;
        },
    };
    if j1 == len || bs[j1] != 0x2e {
        proof {
            if j1 < len {
                assert(bs@.skip(j1 as int)[0] == bs@[j1 as int]);
            }
        }
        return None;
    }
    proof {
        assert(bs@.skip(j1 as int)[0] == bs@[j1 as int]);
        assert(bs@.skip(j1 as int).skip(1) =~= bs@.skip(j1 as int + 1));
    }
    // Identity length.
    let j2 = scan_dec_end(bs, j1 + 1);
    let ulen = match parse_dec_range(bs, j1 + 1, j2) {
        Some(v) => v,
        None => {
            return None;
        },
    };
    if j2 == len || bs[j2] != 0x2e {
        proof {
            if j2 < len {
                assert(bs@.skip(j2 as int)[0] == bs@[j2 as int]);
            }
        }
        return None;
    }
    proof {
        assert(bs@.skip(j2 as int)[0] == bs@[j2 as int]);
        assert(bs@.skip(j2 as int).len() == len - j2);
    }
    // Identity bytes, read by the announced length.
    let rem = len - (j2 + 1);
    if (rem as u64) < ulen {
        return None;
    }
    let ulen_us = ulen as usize;
    let upos = j2 + 1;
    let user = copy_range(bs, upos, upos + ulen_us);
    proof {
        let t21 = bs@.skip(j2 as int);
        assert(t21.skip(1) =~= bs@.skip(upos as int));
        assert(t21.skip(1).take(ulen as int) =~= bs@.subrange(
            upos as int,
            upos as int + ulen as int,
        ));
        assert(t21.skip(1 + ulen as int) =~= bs@.skip(upos as int + ulen as int));
    }
    let pos = upos + ulen_us;
    if pos == len || bs[pos] != 0x2e {
        proof {
            if pos < len {
                assert(bs@.skip(pos as int)[0] == bs@[pos as int]);
            }
        }
        return None;
    }
    proof {
        assert(bs@.skip(pos as int)[0] == bs@[pos as int]);
        assert(bs@.skip(pos as int).skip(1) =~= bs@.skip(pos as int + 1));
    }
    // Group count.
    let j3 = scan_dec_end(bs, pos + 1);
    let ngroups = match parse_dec_range(bs, pos + 1, j3) {
        Some(v) => v,
        None => {
            return None;
        },
    };
    let ghost t31 = bs@.skip(j3 as int);
    // Groups.
    let mut groups: Vec<Vec<u8>> = Vec::new();
    let mut p = j3;
    let mut k: u64 = 0;
    proof {
        assert(groups@.map_values(|g: Vec<u8>| g@) =~= Seq::<Seq<u8>>::empty());
        assert(scan_groups(t31, ngroups) == opt_groups_prepend(
            groups@.map_values(|g: Vec<u8>| g@),
            scan_groups(bs@.skip(p as int), ngroups),
        ));
    }
    while k < ngroups
        invariant
            k <= ngroups,
            p <= len,
            len == bs@.len(),
            t31 == bs@.skip(j3 as int),
            scan_groups(t31, ngroups) == opt_groups_prepend(
                groups@.map_values(|g: Vec<u8>| g@),
                scan_groups(bs@.skip(p as int), (ngroups - k) as u64),
            ),
        decreases ngroups - k,
    {
        let ghost gacc = groups@.map_values(|g: Vec<u8>| g@);
        if p == len || bs[p] != 0x2e {
            proof {
                if p < len {
                    assert(bs@.skip(p as int)[0] == bs@[p as int]);
                }
                assert(scan_groups(bs@.skip(p as int), (ngroups - k) as u64) is None);
            }
            return None;
        }
        proof {
            assert(bs@.skip(p as int)[0] == bs@[p as int]);
            assert(bs@.skip(p as int).skip(1) =~= bs@.skip(p as int + 1));
        }
        let jg = scan_dec_end(bs, p + 1);
        let glen = match parse_dec_range(bs, p + 1, jg) {
            Some(v) => v,
            None => {
                return None;
            },
        };
        proof {
            assert(bs@.skip(jg as int).len() == len - jg);
        }
        let grem = len - jg;
        if grem == 0 || (((grem - 1) as u64) < glen) || bs[jg] != 0x2e {
            proof {
                if jg < len {
                    assert(bs@.skip(jg as int)[0] == bs@[jg as int]);
                }
            }
            return None;
        }
        proof {
            assert(bs@.skip(jg as int)[0] == bs@[jg as int]);
        }
        let glen_us = glen as usize;
        let gpos = jg + 1;
        let g = copy_range(bs, gpos, gpos + glen_us);
        proof {
            let t = bs@.skip(jg as int);
            assert(t.skip(1) =~= bs@.skip(gpos as int));
            assert(t.skip(1).take(glen as int) =~= bs@.subrange(
                gpos as int,
                gpos as int + glen as int,
            ));
            assert(t.skip(1 + glen as int) =~= bs@.skip(gpos as int + glen as int));
        }
        let ghost gview = g@;
        groups.push(g);
        p = gpos + glen_us;
        k = k + 1;
        proof {
            assert(groups@.map_values(|g: Vec<u8>| g@) =~= gacc + seq![gview]);
            let inner = scan_groups(bs@.skip(p as int), (ngroups - k) as u64);
            match inner {
                Some(pr) => {
                    assert(gacc + (seq![gview] + pr.0) =~= (gacc + seq![gview]) + pr.0);
                },
                None => {},
            }
        }
    }
    if p != len {
        proof {
            assert(bs@.skip(p as int).len() > 0);
            assert(scan_groups(bs@.skip(p as int), 0) == Some(
                (Seq::<Seq<u8>>::empty(), bs@.skip(p as int)),
            ));
        }
        return None;
    }
    let c = Claims { exp, user, groups };
    proof {
        assert(bs@.skip(p as int).len() == 0);
        let gall = c.groups@.map_values(|g: Vec<u8>| g@);
        assert(gall + Seq::<Seq<u8>>::empty() =~= gall);
        assert(scan_groups(t31, ngroups) == Some((gall, bs@.skip(p as int))));
        assert(parse_payload(bs@) == Some(c@));
    }
    Some(c)
}

} // verus!
