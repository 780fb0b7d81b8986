use crate::capability::{CapView, Capability, GrantView, ResourceGrant};
use crate::set::tokens_nonempty;
use crate::trusted::valid_scalar;
use vstd::prelude::*;
use vstd::string::StrSliceExecFns;

verus! {

// ------------------------------------------------------------------
// The structured payload of one namespace entry, as bytes: a tag byte
// naming which members are present, then the present members. A member
// that is absent is omitted, not written as empty.
// ------------------------------------------------------------------
/// A length or count as two big-endian bytes.
pub open spec fn be2(n: int) -> Seq<u8> {
    seq![(n / 256) as u8, (n % 256) as u8]
}

/// A character's code point as three big-endian bytes.
pub open spec fn be3(n: int) -> Seq<u8> {
    seq![(n / 65536) as u8, ((n / 256) % 256) as u8, (n % 256) as u8]
}

pub open spec fn enc_chars(s: Seq<char>) -> Seq<u8>
    decreases s.len(),
{
    if s.len() == 0 {
        Seq::empty()
    } else {
        be3(s[0] as int) + enc_chars(s.skip(1))
    }
}

/// A string: its character count, then each character.
pub open spec fn enc_str(s: Seq<char>) -> Seq<u8> {
    be2(s.len() as int) + enc_chars(s)
}

pub open spec fn enc_strs(l: Seq<Seq<char>>) -> Seq<u8>
    decreases l.len(),
{
    if l.len() == 0 {
        Seq::empty()
    } else {
        enc_str(l[0]) + enc_strs(l.skip(1))
    }
}

/// One resource grant: the resource text, then its action tokens.
pub open spec fn enc_grant(g: GrantView) -> Seq<u8> {
    enc_str(g.resource) + be2(g.actions.len() as int) + enc_strs(g.actions)
}

pub open spec fn enc_grants(gs: Seq<GrantView>) -> Seq<u8>
    decreases gs.len(),
{
    if gs.len() == 0 {
        Seq::empty()
    } else {
        enc_grant(gs[0]) + enc_grants(gs.skip(1))
    }
}

/// Which members the payload carries: 1 = defaults, 2 = resources, 3 = both.
pub open spec fn payload_tag(c: CapView) -> int {
    (if c.defaults.len() > 0 {
        1int
    } else {
        0int
    }) + (if c.grants.len() > 0 {
        2int
    } else {
        0int
    })
}

pub open spec fn enc_payload(c: CapView) -> Seq<u8> {
    seq![payload_tag(c) as u8] + (if c.defaults.len() > 0 {
        be2(c.defaults.len() as int) + enc_strs(c.defaults)
    } else {
        Seq::empty()
    }) + (if c.grants.len() > 0 {
        be2(c.grants.len() as int) + enc_grants(c.grants)
    } else {
        Seq::empty()
    })
}

// The wire format's length fields are two bytes, so everything counted or
// measured must stay under 65536.
pub open spec fn str_fits(s: Seq<char>) -> bool {
    s.len() < 65536
}

pub open spec fn strs_fit(l: Seq<Seq<char>>) -> bool {
    &&& l.len() < 65536
    &&& forall|i: int| 0 <= i < l.len() ==> str_fits(#[trigger] l[i])
}

pub open spec fn grant_fits(g: GrantView) -> bool {
    &&& str_fits(g.resource)
    &&& strs_fit(g.actions)
}

pub open spec fn cap_fits(c: CapView) -> bool {
    &&& strs_fit(c.defaults)
    &&& c.grants.len() < 65536
    &&& forall|i: int| 0 <= i < c.grants.len() ==> grant_fits(#[trigger] c.grants[i])
}

// ------------------------------------------------------------------
// Decoding, as mathematics: each step reads a prefix of the bytes and
// leaves the rest, or fails.
// ------------------------------------------------------------------
pub open spec fn dec_u16(b: Seq<u8>) -> Option<(int, Seq<u8>)> {
    if b.len() < 2 {
        None
    } else {
        Some((b[0] as int * 256 + b[1] as int, b.skip(2)))
    }
}

pub open spec fn dec_char(b: Seq<u8>) -> Option<(char, Seq<u8>)> {
    if b.len() < 3 {
        None
    } else {
        let v = b[0] as int * 65536 + b[1] as int * 256 + b[2] as int;
        if valid_scalar(v as u32) && v <= 0x10FFFF {
            Some(((v as u32) as char, b.skip(3)))
        } else {
            None
        }
    }
}

pub open spec fn dec_chars(n: nat, b: Seq<u8>) -> Option<(Seq<char>, Seq<u8>)>
    decreases n,
{
    if n == 0 {
        Some((Seq::empty(), b))
    } else {
        match dec_char(b) {
            None => None,
            Some((c, r)) => match dec_chars((n - 1) as nat, r) {
                None => None,
                Some((s, r2)) => Some((seq![c] + s, r2)),
            },
        }
    }
}

pub open spec fn dec_str(b: Seq<u8>) -> Option<(Seq<char>, Seq<u8>)> {
    match dec_u16(b) {
        None => None,
        Some((n, r)) => dec_chars(n as nat, r),
    }
}

/// A list of `n` action tokens; an empty token is not a valid action.
pub open spec fn dec_tokens(n: nat, b: Seq<u8>) -> Option<(Seq<Seq<char>>, Seq<u8>)>
    decreases n,
{
    if n == 0 {
        Some((Seq::empty(), b))
    } else {
        match dec_str(b) {
            None => None,
            Some((t, r)) => if t.len() == 0 {
                None
            } else {
                match dec_tokens((n - 1) as nat, r) {
                    None => None,
                    Some((l, r2)) => Some((seq![t] + l, r2)),
                }
            },
        }
    }
}

/// One resource grant: a resource text, then a non-zero count of tokens.
pub open spec fn dec_grant(b: Seq<u8>) -> Option<(GrantView, Seq<u8>)> {
    match dec_str(b) {
        None => None,
        Some((res, r)) => match dec_u16(r) {
            None => None,
            Some((n, r2)) => if n == 0 {
                None
            } else {
                match dec_tokens(n as nat, r2) {
                    None => None,
                    Some((acts, r3)) => Some((GrantView { resource: res, actions: acts }, r3)),
                }
            },
        },
    }
}

pub open spec fn dec_grants(n: nat, b: Seq<u8>) -> Option<(Seq<GrantView>, Seq<u8>)>
    decreases n,
{
    if n == 0 {
        Some((Seq::empty(), b))
    } else {
        match dec_grant(b) {
            None => None,
            Some((g, r)) => match dec_grants((n - 1) as nat, r) {
                None => None,
                Some((gs, r2)) => Some((seq![g] + gs, r2)),
            },
        }
    }
}

/// The whole payload: tag, present members with non-zero counts, nothing
/// after them.
pub open spec fn dec_payload(b: Seq<u8>) -> Option<CapView> {
    if b.len() < 1 {
        None
    } else {
        let tag = b[0] as int;
        let r = b.skip(1);
        if tag == 1 {
            match dec_u16(r) {
                None => None,
                Some((n, r1)) => if n == 0 {
                    None
                } else {
                    match dec_tokens(n as nat, r1) {
                        None => None,
                        Some((defs, r2)) => if r2.len() == 0 {
                            Some(CapView { defaults: defs, grants: Seq::empty() })
                        } else {
                            None
                        },
                    }
                },
            }
        } else if tag == 2 {
            match dec_u16(r) {
                None => None,
                Some((n, r1)) => if n == 0 {
                    None
                } else {
                    match dec_grants(n as nat, r1) {
                        None => None,
                        Some((gs, r2)) => if r2.len() == 0 {
                            Some(CapView { defaults: Seq::empty(), grants: gs })
                        } else {
                            None
                        },
                    }
                },
            }
        } else if tag == 3 {
            match dec_u16(r) {
                None => None,
                Some((dn, r1)) => if dn == 0 {
                    None
                } else {
                    match dec_tokens(dn as nat, r1) {
                        None => None,
                        Some((defs, r2)) => match dec_u16(r2) {
                            None => None,
                            Some((gn, r3)) => if gn == 0 {
                                None
                            } else {
                                match dec_grants(gn as nat, r3) {
                                    None => None,
                                    Some((gs, r4)) => if r4.len() == 0 {
                                        Some(CapView { defaults: defs, grants: gs })
                                    } else {
                                        None
                                    },
                                }
                            },
                        },
                    }
                },
            }
        } else {
            None
        }
    }
}

// ------------------------------------------------------------------
// Decoding inverts encoding.
// ------------------------------------------------------------------
pub proof fn lemma_dec_u16(n: int, rest: Seq<u8>)
    requires
        0 <= n < 65536,
    ensures
        dec_u16(be2(n) + rest) == Some((n, rest)),
{
    let b = be2(n) + rest;
    assert(b[0] == (n / 256) as u8 && b[1] == (n % 256) as u8);
    assert(b[0] as int * 256 + b[1] as int == n);
    assert(b.skip(2) =~= rest);
}

pub proof fn lemma_dec_char(c: char, rest: Seq<u8>)
    ensures
        dec_char(be3(c as int) + rest) == Some((c, rest)),
{
    let n = c as int;
    let b = be3(n) + rest;
    assert(b[0] == (n / 65536) as u8 && b[1] == ((n / 256) % 256) as u8 && b[2] == (n % 256) as u8);
    assert(0 <= n && n <= 0x10FFFF);
    assert(b[0] as int == n / 65536 && b[1] as int == (n / 256) % 256 && b[2] as int == n % 256);
    let v = b[0] as int * 65536 + b[1] as int * 256 + b[2] as int;
    assert(v == n) by {
        assert((n / 256) % 256 == n / 256 - (n / 65536) * 256) by {
            assert(n / 256 < 65536);
            assert((n / 256) / 256 == n / 65536);
        }
        assert(n / 256 * 256 + n % 256 == n);
    }
    assert(valid_scalar(v as u32));
    assert((v as u32) as char == c);
    assert(b.skip(3) =~= rest);
}

pub proof fn lemma_dec_chars(s: Seq<char>, rest: Seq<u8>)
    ensures
        dec_chars(s.len(), enc_chars(s) + rest) == Some((s, rest)),
    decreases s.len(),
{
    if s.len() == 0 {
        assert(enc_chars(s) + rest =~= rest);
        assert(dec_chars(0, rest) == Some((Seq::<char>::empty(), rest)));
        assert(Seq::<char>::empty() =~= s);
    } else {
        let tail = s.skip(1);
        assert(enc_chars(s) + rest =~= be3(s[0] as int) + (enc_chars(tail) + rest));
        lemma_dec_char(s[0], enc_chars(tail) + rest);
        lemma_dec_chars(tail, rest);
        assert(seq![s[0]] + tail =~= s);
    }
}

pub proof fn lemma_dec_str(s: Seq<char>, rest: Seq<u8>)
    requires
        str_fits(s),
    ensures
        dec_str(enc_str(s) + rest) == Some((s, rest)),
{
    assert(enc_str(s) + rest =~= be2(s.len() as int) + (enc_chars(s) + rest));
    lemma_dec_u16(s.len() as int, enc_chars(s) + rest);
    lemma_dec_chars(s, rest);
}

pub proof fn lemma_dec_tokens(l: Seq<Seq<char>>, rest: Seq<u8>)
    requires
        strs_fit(l),
        forall|i: int| 0 <= i < l.len() ==> (#[trigger] l[i]).len() > 0,
    ensures
        dec_tokens(l.len(), enc_strs(l) + rest) == Some((l, rest)),
    decreases l.len(),
{
    if l.len() == 0 {
        assert(enc_strs(l) + rest =~= rest);
        assert(Seq::<Seq<char>>::empty() =~= l);
    } else {
        let tail = l.skip(1);
        assert(enc_strs(l) + rest =~= enc_str(l[0]) + (enc_strs(tail) + rest));
        lemma_dec_str(l[0], enc_strs(tail) + rest);
        assert(forall|i: int| 0 <= i < tail.len() ==> #[trigger] tail[i] == l[i + 1]);
        lemma_dec_tokens(tail, rest);
        assert(seq![l[0]] + tail =~= l);
    }
}

pub proof fn lemma_dec_grant(g: GrantView, rest: Seq<u8>)
    requires
        grant_fits(g),
        g.actions.len() > 0,
        forall|i: int| 0 <= i < g.actions.len() ==> (#[trigger] g.actions[i]).len() > 0,
    ensures
        dec_grant(enc_grant(g) + rest) == Some((g, rest)),
{
    let afterres = be2(g.actions.len() as int) + (enc_strs(g.actions) + rest);
    assert(enc_grant(g) + rest =~= enc_str(g.resource) + afterres);
    lemma_dec_str(g.resource, afterres);
    lemma_dec_u16(g.actions.len() as int, enc_strs(g.actions) + rest);
    lemma_dec_tokens(g.actions, rest);
    assert(GrantView { resource: g.resource, actions: g.actions } =~= g);
}

pub proof fn lemma_dec_grants(gs: Seq<GrantView>, rest: Seq<u8>)
    requires
        forall|i: int| 0 <= i < gs.len() ==> grant_fits(#[trigger] gs[i]),
        forall|i: int| 0 <= i < gs.len() ==> (#[trigger] gs[i]).actions.len() > 0,
        forall|i: int, j: int|
            #![trigger gs[i].actions[j]]
            0 <= i < gs.len() && 0 <= j < gs[i].actions.len() ==> gs[i].actions[j].len() > 0,
    ensures
        dec_grants(gs.len(), enc_grants(gs) + rest) == Some((gs, rest)),
    decreases gs.len(),
{
    if gs.len() == 0 {
        assert(enc_grants(gs) + rest =~= rest);
        assert(Seq::<GrantView>::empty() =~= gs);
    } else {
        let tail = gs.skip(1);
        assert(enc_grants(gs) + rest =~= enc_grant(gs[0]) + (enc_grants(tail) + rest));
        assert(forall|i: int|
            0 <= i < gs[0].actions.len() ==> (#[trigger] gs[0].actions[i]).len() > 0);
        lemma_dec_grant(gs[0], enc_grants(tail) + rest);
        assert(forall|i: int| 0 <= i < tail.len() ==> #[trigger] tail[i] == gs[i + 1]);
        lemma_dec_grants(tail, rest);
        assert(seq![gs[0]] + tail =~= gs);
    }
}

/// Decoding a well-formed, size-fitting capability's payload gives it back.
pub proof fn lemma_dec_payload(c: CapView)
    requires
        cap_fits(c),
        c.defaults.len() + c.grants.len() > 0,
        forall|i: int| 0 <= i < c.defaults.len() ==> (#[trigger] c.defaults[i]).len() > 0,
        forall|i: int| 0 <= i < c.grants.len() ==> (#[trigger] c.grants[i]).actions.len() > 0,
        forall|i: int, j: int|
            #![trigger c.grants[i].actions[j]]
            0 <= i < c.grants.len() && 0 <= j < c.grants[i].actions.len() ==> c.grants[i].actions[j].len() > 0,
    ensures
        dec_payload(enc_payload(c)) == Some(c),
{
    let b = enc_payload(c);
    let tag = payload_tag(c);
    assert(b[0] == tag as u8);
    if c.defaults.len() > 0 && c.grants.len() == 0 {
        assert(tag == 1);
        assert(b.skip(1) =~= be2(c.defaults.len() as int) + (enc_strs(c.defaults)
            + Seq::<u8>::empty()));
        lemma_dec_u16(c.defaults.len() as int, enc_strs(c.defaults) + Seq::<u8>::empty());
        lemma_dec_tokens(c.defaults, Seq::<u8>::empty());
        assert(CapView { defaults: c.defaults, grants: Seq::empty() } =~= c);
    } else if c.defaults.len() == 0 && c.grants.len() > 0 {
        assert(tag == 2);
        assert(b.skip(1) =~= be2(c.grants.len() as int) + (enc_grants(c.grants)
            + Seq::<u8>::empty()));
        lemma_dec_u16(c.grants.len() as int, enc_grants(c.grants) + Seq::<u8>::empty());
        lemma_dec_grants(c.grants, Seq::<u8>::empty());
        assert(CapView { defaults: Seq::empty(), grants: c.grants } =~= c);
    } else {
        assert(tag == 3);
        let grantpart = be2(c.grants.len() as int) + (enc_grants(c.grants) + Seq::<u8>::empty());
        assert(b.skip(1) =~= be2(c.defaults.len() as int) + (enc_strs(c.defaults) + grantpart));
        lemma_dec_u16(c.defaults.len() as int, enc_strs(c.defaults) + grantpart);
        lemma_dec_tokens(c.defaults, grantpart);
        lemma_dec_u16(c.grants.len() as int, enc_grants(c.grants) + Seq::<u8>::empty());
        lemma_dec_grants(c.grants, Seq::<u8>::empty());
        assert(CapView { defaults: c.defaults, grants: c.grants } =~= c);
    }
}


/// Whatever a token-list decode returns has the demanded count and only
/// non-empty tokens.
pub proof fn lemma_dec_tokens_props(n: nat, b: Seq<u8>)
    ensures
        dec_tokens(n, b) matches Some(p) ==> p.0.len() == n && tokens_nonempty(p.0),
    decreases n,
{
    if n > 0 {
        match dec_str(b) {
            Some((t, r)) => {
                if t.len() > 0 {
                    lemma_dec_tokens_props((n - 1) as nat, r);
                    match dec_tokens((n - 1) as nat, r) {
                        Some((l, r2)) => {
                            let whole = seq![t] + l;
                            assert(whole[0] == t);
                            assert(forall|i: int| 1 <= i < whole.len() ==> whole[i] == l[i - 1]);
                            assert(tokens_nonempty(whole));
                        },
                        None => {},
                    }
                }
            },
            None => {},
        }
    }
}

/// Whatever a grant decode returns has at least one action and only
/// non-empty tokens.
pub proof fn lemma_dec_grant_props(b: Seq<u8>)
    ensures
        dec_grant(b) matches Some(p) ==> p.0.actions.len() > 0 && tokens_nonempty(p.0.actions),
{
    match dec_str(b) {
        Some((res, r)) => {
            match dec_u16(r) {
                Some((n, r2)) => {
                    if n > 0 {
                        lemma_dec_tokens_props(n as nat, r2);
                    }
                },
                None => {},
            }
        },
        None => {},
    }
}

pub proof fn lemma_dec_grants_props(n: nat, b: Seq<u8>)
    ensures
        dec_grants(n, b) matches Some(p) ==> p.0.len() == n && forall|i: int|
            0 <= i < p.0.len() ==> (#[trigger] p.0[i]).actions.len() > 0 && tokens_nonempty(
                p.0[i].actions,
            ),
    decreases n,
{
    if n > 0 {
        match dec_grant(b) {
            Some((g, r)) => {
                lemma_dec_grant_props(b);
                lemma_dec_grants_props((n - 1) as nat, r);
                match dec_grants((n - 1) as nat, r) {
                    Some((gs, r2)) => {
                        let whole = seq![g] + gs;
                        assert(whole[0] == g);
                        assert(forall|i: int| 1 <= i < whole.len() ==> whole[i] == gs[i - 1]);
                    },
                    None => {},
                }
            },
            None => {},
        }
    }
}

/// Whatever a payload decode returns is a non-empty capability whose action
/// tokens are all non-empty: exactly what union-merging needs.
pub proof fn lemma_dec_payload_props(b: Seq<u8>)
    ensures
        dec_payload(b) matches Some(c) ==> tokens_nonempty(c.defaults) && c.defaults.len()
            + c.grants.len() > 0 && forall|i: int|
            0 <= i < c.grants.len() ==> tokens_nonempty((#[trigger] c.grants[i]).actions),
{
    if b.len() >= 1 {
        let tag = b[0] as int;
        let r = b.skip(1);
        if tag == 1 || tag == 3 {
            match dec_u16(r) {
                Some((n, r1)) => {
                    if n > 0 {
                        lemma_dec_tokens_props(n as nat, r1);
                        if tag == 3 {
                            match dec_tokens(n as nat, r1) {
                                Some((defs, r2)) => {
                                    match dec_u16(r2) {
                                        Some((gn, r3)) => {
                                            if gn > 0 {
                                                lemma_dec_grants_props(gn as nat, r3);
                                            }
                                        },
                                        None => {},
                                    }
                                },
                                None => {},
                            }
                        }
                    }
                },
                None => {},
            }
        } else if tag == 2 {
            match dec_u16(r) {
                Some((n, r1)) => {
                    if n > 0 {
                        lemma_dec_grants_props(n as nat, r1);
                    }
                },
                None => {},
            }
        }
    }
}

// ------------------------------------------------------------------
// Executable encoding.
// ------------------------------------------------------------------
/// True when every string of the list fits a two-byte length field, and the
/// list's own count does.
fn strs_fit_check(l: &Vec<String>) -> (r: bool)
    ensures
        r == strs_fit(l.deep_view()),
{
    if l.len() >= 65536 {
        return false;
    }
    let mut i: usize = 0;
    while i < l.len()
        invariant
            i <= l.len(),
            l@.len() < 65536,
            forall|j: int| 0 <= j < i ==> str_fits(#[trigger] l.deep_view()[j]),
        decreases l.len() - i,
    {
        assert(l.deep_view()[i as int] == l@[i as int]@);
        if l[i].as_str().unicode_len() >= 65536 {
            return false;
        }
        i += 1;
    }
    true
}

/// True when the whole capability fits the wire format's length fields.
pub fn fits_check(cap: &Capability) -> (r: bool)
    ensures
        r == cap_fits(cap@),
{
    if !strs_fit_check(&cap.default_actions) {
        return false;
    }
    if cap.grants.len() >= 65536 {
        return false;
    }
    let mut i: usize = 0;
    while i < cap.grants.len()
        invariant
            i <= cap.grants.len(),
            strs_fit(cap@.defaults),
            cap@.grants.len() < 65536,
            forall|j: int| 0 <= j < i ==> grant_fits(#[trigger] cap@.grants[j]),
        decreases cap.grants.len() - i,
    {
        assert(cap@.grants[i as int] == cap.grants@[i as int]@);
        let g = &cap.grants[i];
        if g.resource.as_str().unicode_len() >= 65536 {
            return false;
        }
        if !strs_fit_check(&g.actions) {
            return false;
        }
        i += 1;
    }
    true
}

fn wr_u16(out: &mut Vec<u8>, n: u16)
    ensures
        final(out)@ == old(out)@ + be2(n as int),
{
    out.push((n / 256) as u8);
    out.push((n % 256) as u8);
    assert(out@ =~= old(out)@ + be2(n as int));
}

fn wr_chars(out: &mut Vec<u8>, s: &String)
    ensures
        final(out)@ == old(out)@ + enc_chars(s@),
{
    let ghost base = out@;
    let n = s.as_str().unicode_len();
    let mut i: usize = 0;
    proof {
        assert(s@.skip(0) =~= s@);
    }
    while i < n
        invariant
            i <= n,
            n == s@.len(),
            out@ + enc_chars(s@.skip(i as int)) == base + enc_chars(s@),
        decreases n - i,
    {
        let c = s.as_str().get_char(i);
        let code = c as u32;
        let ghost before = out@;
        out.push((code / 65536) as u8);
        out.push(((code / 256) % 256) as u8);
        out.push((code % 256) as u8);
        proof {
            assert(s@.skip(i as int)[0] == s@[i as int]);
            assert(s@.skip(i as int).skip(1) =~= s@.skip(i as int + 1));
            assert(out@ =~= before + be3(s@[i as int] as int));
            assert((before + be3(s@[i as int] as int)) + enc_chars(s@.skip(i as int + 1)) =~= before
                + (be3(s@[i as int] as int) + enc_chars(s@.skip(i as int + 1))));
        }
        i += 1;
    }
    proof {
        assert(s@.skip(n as int) =~= Seq::<char>::empty());
        assert(out@ + Seq::<u8>::empty() =~= out@);
    }
}

fn wr_str(out: &mut Vec<u8>, s: &String)
    requires
        str_fits(s@),
    ensures
        final(out)@ == old(out)@ + enc_str(s@),
{
    let n = s.as_str().unicode_len();
    wr_u16(out, n as u16);
    let ghost mid = out@;
    wr_chars(out, s);
    proof {
        assert((old(out)@ + be2(s@.len() as int)) + enc_chars(s@) =~= old(out)@ + enc_str(s@));
    }
}

fn wr_tokens(out: &mut Vec<u8>, l: &Vec<String>)
    requires
        strs_fit(l.deep_view()),
    ensures
        final(out)@ == old(out)@ + enc_strs(l.deep_view()),
{
    let ghost base = out@;
    let ghost dv = l.deep_view();
    let mut i: usize = 0;
    proof {
        assert(dv.skip(0) =~= dv);
    }
    while i < l.len()
        invariant
            i <= l.len(),
            dv == l.deep_view(),
            strs_fit(dv),
            l@.len() == dv.len(),
            out@ + enc_strs(dv.skip(i as int)) == base + enc_strs(dv),
        decreases l.len() - i,
    {
        let ghost before = out@;
        proof {
            assert(dv[i as int] == l@[i as int]@);
        }
        wr_str(out, &l[i]);
        proof {
            assert(dv.skip(i as int)[0] == dv[i as int]);
            assert(dv.skip(i as int).skip(1) =~= dv.skip(i as int + 1));
            assert((before + enc_str(dv[i as int])) + enc_strs(dv.skip(i as int + 1)) =~= before + (
            enc_str(dv[i as int]) + enc_strs(dv.skip(i as int + 1))));
        }
        i += 1;
    }
    proof {
        assert(dv.skip(l@.len() as int) =~= Seq::<Seq<char>>::empty());
        assert(out@ + Seq::<u8>::empty() =~= out@);
    }
}

fn wr_grant(out: &mut Vec<u8>, g: &ResourceGrant)
    requires
        grant_fits(g@),
    ensures
        final(out)@ == old(out)@ + enc_grant(g@),
{
    wr_str(out, &g.resource);
    wr_u16(out, g.actions.len() as u16);
    wr_tokens(out, &g.actions);
    proof {
        assert(((old(out)@ + enc_str(g@.resource)) + be2(g@.actions.len() as int)) + enc_strs(
            g@.actions,
        ) =~= old(out)@ + enc_grant(g@));
    }
}

fn wr_grants(out: &mut Vec<u8>, gs: &Vec<ResourceGrant>)
    requires
        forall|i: int| 0 <= i < gs@.len() ==> grant_fits(#[trigger] gs@[i]@),
    ensures
        final(out)@ == old(out)@ + enc_grants(gs@.map_values(|g: ResourceGrant| g@)),
{
    let ghost base = out@;
    let ghost gv = gs@.map_values(|g: ResourceGrant| g@);
    let mut i: usize = 0;
    proof {
        assert(gv.skip(0) =~= gv);
    }
    while i < gs.len()
        invariant
            i <= gs.len(),
            gv == gs@.map_values(|g: ResourceGrant| g@),
            gv.len() == gs@.len(),
            forall|j: int| 0 <= j < gs@.len() ==> grant_fits(#[trigger] gs@[j]@),
            out@ + enc_grants(gv.skip(i as int)) == base + enc_grants(gv),
        decreases gs.len() - i,
    {
        let ghost before = out@;
        proof {
            assert(gv[i as int] == gs@[i as int]@);
        }
        wr_grant(out, &gs[i]);
        proof {
            assert(gv.skip(i as int)[0] == gv[i as int]);
            assert(gv.skip(i as int).skip(1) =~= gv.skip(i as int + 1));
            assert((before + enc_grant(gv[i as int])) + enc_grants(gv.skip(i as int + 1)) =~= before
                + (enc_grant(gv[i as int]) + enc_grants(gv.skip(i as int + 1))));
        }
        i += 1;
    }
    proof {
        assert(gv.skip(gs@.len() as int) =~= Seq::<GrantView>::empty());
        assert(out@ + Seq::<u8>::empty() =~= out@);
    }
}

/// Encode one capability into its payload bytes.
pub fn encode_payload_bytes(cap: &Capability) -> (r: Vec<u8>)
    requires
        cap_fits(cap@),
    ensures
        r@ == enc_payload(cap@),
{
    let has_d = cap.default_actions.len() > 0;
    let has_g = cap.grants.len() > 0;
    let tag: u8 = (if has_d { 1 } else { 0 }) + (if has_g { 2 } else { 0 });
    let mut out: Vec<u8> = Vec::new();
    out.push(tag);
    proof {
        assert(out@ =~= seq![payload_tag(cap@) as u8]);
    }
    let ghost part0 = out@;
    if has_d {
        wr_u16(&mut out, cap.default_actions.len() as u16);
        wr_tokens(&mut out, &cap.default_actions);
    }
    proof {
        if cap@.defaults.len() > 0 {
            assert((part0 + be2(cap@.defaults.len() as int)) + enc_strs(cap@.defaults) =~= part0 + (
            be2(cap@.defaults.len() as int) + enc_strs(cap@.defaults)));
        } else {
            assert(out@ =~= part0 + Seq::<u8>::empty());
        }
    }
    let ghost part1 = out@;
    if has_g {
        wr_u16(&mut out, cap.grants.len() as u16);
        proof {
            assert forall|j: int| 0 <= j < cap.grants@.len() implies grant_fits(
                #[trigger] cap.grants@[j]@,
            ) by {
                assert(cap@.grants[j] == cap.grants@[j]@);
            }
        }
        wr_grants(&mut out, &cap.grants);
        proof {
            assert(cap@.grants == cap.grants@.map_values(|g: ResourceGrant| g@));
        }
    }
    proof {
        if cap@.grants.len() > 0 {
            assert((part1 + be2(cap@.grants.len() as int)) + enc_grants(cap@.grants) =~= part1 + (
            be2(cap@.grants.len() as int) + enc_grants(cap@.grants)));
        } else {
            assert(out@ =~= part1 + Seq::<u8>::empty());
        }
        assert(out@ =~= enc_payload(cap@));
    }
    out
}

// ------------------------------------------------------------------
// Executable decoding.
// ------------------------------------------------------------------
pub open spec fn chars_join(prefix: Seq<char>, o: Option<(Seq<char>, Seq<u8>)>) -> Option<
    (Seq<char>, Seq<u8>),
> {
    match o {
        Some(p) => Some((prefix + p.0, p.1)),
        None => None,
    }
}

pub open spec fn toks_join(prefix: Seq<Seq<char>>, o: Option<(Seq<Seq<char>>, Seq<u8>)>) -> Option<
    (Seq<Seq<char>>, Seq<u8>),
> {
    match o {
        Some(p) => Some((prefix + p.0, p.1)),
        None => None,
    }
}

pub open spec fn grants_join(prefix: Seq<GrantView>, o: Option<(Seq<GrantView>, Seq<u8>)>) -> Option<
    (Seq<GrantView>, Seq<u8>),
> {
    match o {
        Some(p) => Some((prefix + p.0, p.1)),
        None => None,
    }
}

fn rd_u16(b: &Vec<u8>, pos: usize) -> (r: Option<(u16, usize)>)
    requires
        pos <= b@.len(),
    ensures
        match r {
            Some(p) => pos <= p.1 <= b@.len() && dec_u16(b@.skip(pos as int)) == Some(
                (p.0 as int, b@.skip(p.1 as int)),
            ),
            None => dec_u16(b@.skip(pos as int)) is None,
        },
{
    if b.len() - pos >= 2 {
        let v: u16 = (b[pos] as u16) * 256 + (b[pos + 1] as u16);
        proof {
            assert(b@.skip(pos as int)[0] == b@[pos as int]);
            assert(b@.skip(pos as int)[1] == b@[pos as int + 1]);
            assert(b@.skip(pos as int).skip(2) =~= b@.skip(pos as int + 2));
        }
        Some((v, pos + 2))
    } else {
        None
    }
}

fn rd_char(b: &Vec<u8>, pos: usize) -> (r: Option<(char, usize)>)
    requires
        pos <= b@.len(),
    ensures
        match r {
            Some(p) => pos <= p.1 <= b@.len() && dec_char(b@.skip(pos as int)) == Some(
                (p.0, b@.skip(p.1 as int)),
            ),
            None => dec_char(b@.skip(pos as int)) is None,
        },
{
    if b.len() - pos >= 3 {
        let v: u32 = (b[pos] as u32) * 65536 + (b[pos + 1] as u32) * 256 + (b[pos + 2] as u32);
        proof {
            assert(b@.skip(pos as int)[0] == b@[pos as int]);
            assert(b@.skip(pos as int)[1] == b@[pos as int + 1]);
            assert(b@.skip(pos as int)[2] == b@[pos as int + 2]);
            assert(b@.skip(pos as int).skip(3) =~= b@.skip(pos as int + 3));
        }
        match char::from_u32(v) {
            Some(c) => Some((c, pos + 3)),
            None => None,
        }
    } else {
        None
    }
}

fn rd_string(b: &Vec<u8>, pos: usize) -> (r: Option<(String, usize)>)
    requires
        pos <= b@.len(),
    ensures
        match r {
            Some(p) => pos <= p.1 <= b@.len() && dec_str(b@.skip(pos as int)) == Some(
                (p.0@, b@.skip(p.1 as int)),
            ),
            None => dec_str(b@.skip(pos as int)) is None,
        },
{
    let ghost start = b@.skip(pos as int);
    let first = rd_u16(b, pos);
    match first {
        None => None,
        Some((n, p0)) => {
            let ghost n0: nat = n as nat;
            let mut out = String::new();
            let mut p: usize = p0;
            let mut k: u16 = 0;
            proof {
                assert(out@ + Seq::<char>::empty() =~= out@);
                match dec_chars(n0, b@.skip(p0 as int)) {
                    Some(q) => {
                        assert(out@ + q.0 =~= q.0);
                    },
                    None => {},
                }
            }
            while k < n
                invariant
                    pos <= p <= b@.len(),
                    p0 <= b@.len(),
                    k <= n,
                    n0 == n as nat,
                    dec_u16(b@.skip(pos as int)) == Some((n as int, b@.skip(p0 as int))),
                    dec_chars(n0, b@.skip(p0 as int)) == chars_join(
                        out@,
                        dec_chars((n - k) as nat, b@.skip(p as int)),
                    ),
                decreases n - k,
            {
                let got = rd_char(b, p);
                match got {
                    None => {
                        proof {
                            assert((n - k) as nat > 0);
                            assert(dec_chars((n - k) as nat, b@.skip(p as int)) is None);
                            assert(dec_chars(n0, b@.skip(p0 as int)) is None);
                            assert(dec_str(b@.skip(pos as int)) == dec_chars(
                                n0,
                                b@.skip(p0 as int),
                            ));
                        }
                        return None;
                    },
                    Some((c, p2)) => {
                        let ghost before = out@;
                        out.push(c);
                        proof {
                            match dec_chars((n - k - 1) as nat, b@.skip(p2 as int)) {
                                Some(q) => {
                                    assert(before + (seq![c] + q.0) =~= before.push(c) + q.0);
                                },
                                None => {},
                            }
                        }
                        p = p2;
                        k = k + 1;
                    },
                }
            }
            proof {
                assert(dec_chars(0, b@.skip(p as int)) == Some(
                    (Seq::<char>::empty(), b@.skip(p as int)),
                ));
                assert(out@ + Seq::<char>::empty() =~= out@);
            }
            Some((out, p))
        },
    }
}

fn rd_tokens(b: &Vec<u8>, pos: usize, n: u16) -> (r: Option<(Vec<String>, usize)>)
    requires
        pos <= b@.len(),
    ensures
        match r {
            Some(p) => pos <= p.1 <= b@.len() && dec_tokens(n as nat, b@.skip(pos as int)) == Some(
                (p.0.deep_view(), b@.skip(p.1 as int)),
            ),
            None => dec_tokens(n as nat, b@.skip(pos as int)) is None,
        },
{
    let mut out: Vec<String> = Vec::new();
    let mut p: usize = pos;
    let mut k: u16 = 0;
    proof {
        assert(out.deep_view() =~= Seq::<Seq<char>>::empty());
        match dec_tokens(n as nat, b@.skip(pos as int)) {
            Some(q) => {
                assert(out.deep_view() + q.0 =~= q.0);
            },
            None => {},
        }
    }
    while k < n
        invariant
            pos <= p <= b@.len(),
            k <= n,
            dec_tokens(n as nat, b@.skip(pos as int)) == toks_join(
                out.deep_view(),
                dec_tokens((n - k) as nat, b@.skip(p as int)),
            ),
        decreases n - k,
    {
        let got = rd_string(b, p);
        match got {
            None => {
                return None;
            },
            Some((t, p2)) => {
                if t.as_str().is_empty() {
                    return None;
                }
                let ghost before = out.deep_view();
                let ghost tv = t@;
                out.push(t);
                proof {
                    assert(out.deep_view() =~= before.push(tv));
                    match dec_tokens((n - k - 1) as nat, b@.skip(p2 as int)) {
                        Some(q) => {
                            assert(before + (seq![tv] + q.0) =~= before.push(tv) + q.0);
                        },
                        None => {},
                    }
                }
                p = p2;
                k = k + 1;
            },
        }
    }
    proof {
        assert(dec_tokens(0, b@.skip(p as int)) == Some(
            (Seq::<Seq<char>>::empty(), b@.skip(p as int)),
        ));
        assert(out.deep_view() + Seq::<Seq<char>>::empty() =~= out.deep_view());
    }
    Some((out, p))
}

fn rd_grant(b: &Vec<u8>, pos: usize) -> (r: Option<(ResourceGrant, usize)>)
    requires
        pos <= b@.len(),
    ensures
        match r {
            Some(p) => pos <= p.1 <= b@.len() && dec_grant(b@.skip(pos as int)) == Some(
                (p.0@, b@.skip(p.1 as int)),
            ),
            None => dec_grant(b@.skip(pos as int)) is None,
        },
{
    let res = rd_string(b, pos);
    match res {
        None => None,
        Some((resource, p1)) => {
            let cnt = rd_u16(b, p1);
            match cnt {
                None => None,
                Some((n, p2)) => {
                    if n == 0 {
                        return None;
                    }
                    let toks = rd_tokens(b, p2, n);
                    match toks {
                        None => None,
                        Some((actions, p3)) => Some(
                            (ResourceGrant { resource, actions }, p3),
                        ),
                    }
                },
            }
        },
    }
}

fn rd_grants(b: &Vec<u8>, pos: usize, n: u16) -> (r: Option<(Vec<ResourceGrant>, usize)>)
    requires
        pos <= b@.len(),
    ensures
        match r {
            Some(p) => pos <= p.1 <= b@.len() && dec_grants(n as nat, b@.skip(pos as int)) == Some(
                (p.0@.map_values(|g: ResourceGrant| g@), b@.skip(p.1 as int)),
            ),
            None => dec_grants(n as nat, b@.skip(pos as int)) is None,
        },
{
    let mut out: Vec<ResourceGrant> = Vec::new();
    let mut p: usize = pos;
    let mut k: u16 = 0;
    proof {
        assert(out@.map_values(|g: ResourceGrant| g@) =~= Seq::<GrantView>::empty());
        match dec_grants(n as nat, b@.skip(pos as int)) {
            Some(q) => {
                assert(Seq::<GrantView>::empty() + q.0 =~= q.0);
            },
            None => {},
        }
    }
    while k < n
        invariant
            pos <= p <= b@.len(),
            k <= n,
            dec_grants(n as nat, b@.skip(pos as int)) == grants_join(
                out@.map_values(|g: ResourceGrant| g@),
                dec_grants((n - k) as nat, b@.skip(p as int)),
            ),
        decreases n - k,
    {
        let got = rd_grant(b, p);
        match got {
            None => {
                return None;
            },
            Some((g, p2)) => {
                let ghost before = out@.map_values(|gx: ResourceGrant| gx@);
                let ghost gv = g@;
                out.push(g);
                proof {
                    assert(out@.map_values(|gx: ResourceGrant| gx@) =~= before.push(gv));
                    match dec_grants((n - k - 1) as nat, b@.skip(p2 as int)) {
                        Some(q) => {
                            assert(before + (seq![gv] + q.0) =~= before.push(gv) + q.0);
                        },
                        None => {},
                    }
                }
                p = p2;
                k = k + 1;
            },
        }
    }
    proof {
        assert(dec_grants(0, b@.skip(p as int)) == Some(
            (Seq::<GrantView>::empty(), b@.skip(p as int)),
        ));
        assert(out@.map_values(|g: ResourceGrant| g@) + Seq::<GrantView>::empty() =~= out@.map_values(
            |g: ResourceGrant| g@,
        ));
    }
    Some((out, p))
}

/// Decode a whole payload back into a capability.
pub fn decode_payload_bytes(b: &Vec<u8>) -> (r: Option<Capability>)
    ensures
        match r {
            Some(c) => dec_payload(b@) == Some(c@),
            None => dec_payload(b@) is None,
        },
{
    if b.len() < 1 {
        return None;
    }
    let tag = b[0];
    proof {
        assert(b@.skip(0) =~= b@);
        assert(b@[0] == tag);
    }
    if tag == 1 {
        let cnt = rd_u16(b, 1);
        match cnt {
            None => None,
            Some((n, p1)) => {
                if n == 0 {
                    return None;
                }
                let toks = rd_tokens(b, p1, n);
                match toks {
                    None => None,
                    Some((defs, p2)) => {
                        if p2 != b.len() {
                            proof {
                                assert(b@.skip(p2 as int).len() != 0);
                            }
                            return None;
                        }
                        proof {
                            assert(b@.skip(p2 as int).len() == 0);
                        }
                        Some(Capability { default_actions: defs, grants: Vec::new() })
                    },
                }
            },
        }
    } else if tag == 2 {
        let cnt = rd_u16(b, 1);
        match cnt {
            None => None,
            Some((n, p1)) => {
                if n == 0 {
                    return None;
                }
                let gs = rd_grants(b, p1, n);
                match gs {
                    None => None,
                    Some((grants, p2)) => {
                        if p2 != b.len() {
                            proof {
                                assert(b@.skip(p2 as int).len() != 0);
                            }
                            return None;
                        }
                        proof {
                            assert(b@.skip(p2 as int).len() == 0);
                        }
                        let c = Capability { default_actions: Vec::new(), grants };
                        proof {
                            assert(c@.defaults =~= Seq::<Seq<char>>::empty());
                        }
                        Some(c)
                    },
                }
            },
        }
    } else if tag == 3 {
        let cnt = rd_u16(b, 1);
        match cnt {
            None => None,
            Some((dn, p1)) => {
                if dn == 0 {
                    return None;
                }
                let toks = rd_tokens(b, p1, dn);
                match toks {
                    None => None,
                    Some((defs, p2)) => {
                        let cnt2 = rd_u16(b, p2);
                        match cnt2 {
                            None => None,
                            Some((gn, p3)) => {
                                if gn == 0 {
                                    return None;
                                }
                                let gs = rd_grants(b, p3, gn);
                                match gs {
                                    None => None,
                                    Some((grants, p4)) => {
                                        if p4 != b.len() {
                                            proof {
                                                assert(b@.skip(p4 as int).len() != 0);
                                            }
                                            return None;
                                        }
                                        proof {
                                            assert(b@.skip(p4 as int).len() == 0);
                                        }
                                        Some(Capability { default_actions: defs, grants })
                                    },
                                }
                            },
                        }
                    },
                }
            },
        }
    } else {
        None
    }
}

} // verus!
