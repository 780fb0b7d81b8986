use crate::base64::lemma_b64_roundtrip;
use crate::builder::{build_spec, set_fits};
use crate::capability::{wf_entry, wf_set, EntryView};
use crate::error::Error;
use crate::namespace::{valid_namespace, valid_ns_char};
use crate::payload::{cap_fits, enc_payload, lemma_dec_payload};
use crate::set::{has_ns, lemma_merge_fresh_entry, merge_entry};
use crate::translation::{
    colon_from, decode_resource, encoded_entry, extract_from, extract_spec, generated_statement,
    is_capability_entry, lemma_colon_from_clear, prefix_chars, statement_text, MsgView,
};
use crate::{ends_with, statement_matches, verify_spec};
use vstd::prelude::*;

verus! {

/// An encoded entry bears the capability prefix and decodes to itself.
pub proof fn lemma_encoded_entry_decodes(e: EntryView)
    requires
        wf_entry(e),
        cap_fits(e.cap),
    ensures
        is_capability_entry(encoded_entry(e)),
        decode_resource(encoded_entry(e)) == Ok::<EntryView, Error>(e),
{
    let r = encoded_entry(e);
    let plen = prefix_chars().len() as int;
    reveal_strlit("urn:capability:");
    assert(plen == 15);
    assert(r.take(plen) =~= prefix_chars());
    assert(is_capability_entry(r));
    let nslen = e.ns.len() as int;
    let cp = plen + nslen;
    assert forall|j: int| plen <= j < cp implies r[j] != ':' by {
        assert(r[j] == e.ns[j - plen]);
        assert(valid_ns_char(e.ns[j - plen]));
    }
    lemma_colon_from_clear(r, plen, cp);
    assert(r[cp] == ':');
    assert(colon_from(r, cp) == cp);
    assert(colon_from(r, plen) == cp);
    assert(r.subrange(plen, cp) =~= e.ns);
    assert(valid_namespace(e.ns));
    assert(r.skip(cp + 1) =~= crate::base64::b64_encode(enc_payload(e.cap)));
    lemma_b64_roundtrip(enc_payload(e.cap));
    lemma_dec_payload(e.cap);
    assert(decode_resource(r) == Ok::<EntryView, Error>(EntryView { ns: e.ns, cap: e.cap }));
    assert(EntryView { ns: e.ns, cap: e.cap } =~= e);
}

/// Extracting the encoded entries of a well-formed set, after any already
/// accumulated entries with other namespaces, appends exactly those entries.
pub proof fn lemma_extract_encoded(acc: Seq<EntryView>, s: Seq<EntryView>)
    requires
        wf_set(acc + s),
        set_fits(s),
    ensures
        extract_from(acc, s.map_values(|e: EntryView| encoded_entry(e))) == Ok::<
            Seq<EntryView>,
            Error,
        >(acc + s),
    decreases s.len(),
{
    let m = s.map_values(|e: EntryView| encoded_entry(e));
    assert(wf_set(acc)) by {
        assert forall|i: int| 0 <= i < acc.len() implies wf_entry(#[trigger] acc[i]) by {
            assert(acc[i] == (acc + s)[i]);
            assert(wf_entry((acc + s)[i]));
        }
        assert forall|i: int, j: int|
            #![trigger acc[i], acc[j]]
            0 <= i < j < acc.len() implies acc[i].ns != acc[j].ns by {
            assert(acc[i] == (acc + s)[i]);
            assert(acc[j] == (acc + s)[j]);
            assert((acc + s)[i].ns != (acc + s)[j].ns);
        }
    }
    if s.len() == 0 {
        assert(m.len() == 0);
        assert(acc + s =~= acc);
    } else {
        let e0 = s[0];
        assert(e0 == (acc + s)[acc.len() as int]);
        assert(wf_entry(e0));
        assert(cap_fits(e0.cap));
        assert(m[0] == encoded_entry(e0));
        lemma_encoded_entry_decodes(e0);
        assert(!has_ns(acc, e0.ns)) by {
            if has_ns(acc, e0.ns) {
                let i = choose|i: int| 0 <= i < acc.len() && acc[i].ns == e0.ns;
                assert((acc + s)[i].ns == (acc + s)[acc.len() as int].ns);
            }
        }
        lemma_merge_fresh_entry(acc, e0);
        let acc2 = acc.push(e0);
        let s2 = s.skip(1);
        assert(acc2 + s2 =~= acc + s);
        assert(set_fits(s2)) by {
            assert(forall|i: int| 0 <= i < s2.len() ==> #[trigger] s2[i] == s[i + 1]);
        }
        lemma_extract_encoded(acc2, s2);
        assert(m.skip(1) =~= s2.map_values(|e: EntryView| encoded_entry(e))) by {
            assert(forall|i: int| 0 <= i < s2.len() ==> #[trigger] s2[i] == s[i + 1]);
        }
        assert(extract_from(acc, m) == extract_from(merge_entry(acc, e0), m.skip(1)));
    }
}

/// Round trip: the set decoded from a freshly built message is exactly the
/// set that was encoded — same namespaces, same default and resource action
/// lists, independent of any decode-side ordering concern.
pub proof fn lemma_round_trip(s: Seq<EntryView>, uri: Seq<char>)
    requires
        wf_set(s),
        set_fits(s),
    ensures
        build_spec(s, MsgView { statement: None, uri: uri, resources: Seq::empty() }) matches Ok(b)
            && extract_spec(b.resources) == Ok::<Seq<EntryView>, Error>(s),
{
    let m = MsgView { statement: None, uri: uri, resources: Seq::empty() };
    let b = match build_spec(s, m) {
        Ok(b) => b,
        Err(_) => m,
    };
    let mapped = s.map_values(|e: EntryView| encoded_entry(e));
    assert(b.resources =~= mapped);
    assert(Seq::<EntryView>::empty() + s =~= s);
    lemma_extract_encoded(Seq::empty(), s);
}

/// Entries without the capability prefix at the front of a resource list are
/// ignored by extraction.
pub proof fn lemma_extract_prefix_noncap(
    acc: Seq<EntryView>,
    rs1: Seq<Seq<char>>,
    rs2: Seq<Seq<char>>,
)
    requires
        forall|i: int| 0 <= i < rs1.len() ==> !is_capability_entry(#[trigger] rs1[i]),
    ensures
        extract_from(acc, rs1 + rs2) == extract_from(acc, rs2),
    decreases rs1.len(),
{
    if rs1.len() == 0 {
        assert(rs1 + rs2 =~= rs2);
    } else {
        let whole = rs1 + rs2;
        assert(whole[0] == rs1[0]);
        assert(!is_capability_entry(whole[0]));
        assert(whole.skip(1) =~= rs1.skip(1) + rs2);
        assert(forall|i: int|
            0 <= i < rs1.skip(1).len() ==> #[trigger] rs1.skip(1)[i] == rs1[i + 1]);
        lemma_extract_prefix_noncap(acc, rs1.skip(1), rs2);
    }
}

/// Self-verification: a message built from a well-formed set verifies,
/// whatever ordinary statement and non-capability resources it already
/// carried. (A pre-existing statement demands a non-empty set: with nothing
/// granted, building leaves the statement as it was, and a bare statement
/// with no grants does not match.)
pub proof fn lemma_self_verification(s: Seq<EntryView>, m: MsgView)
    requires
        wf_set(s),
        set_fits(s),
        forall|i: int| 0 <= i < m.resources.len() ==> !is_capability_entry(#[trigger] m.resources[i]),
        s.len() == 0 ==> m.statement is None,
    ensures
        build_spec(s, m) matches Ok(b) && verify_spec(b) == Ok::<bool, Error>(true),
{
    let b = match build_spec(s, m) {
        Ok(b) => b,
        Err(_) => m,
    };
    let mapped = s.map_values(|e: EntryView| encoded_entry(e));
    assert(b.resources == m.resources + mapped);
    lemma_extract_prefix_noncap(Seq::empty(), m.resources, mapped);
    assert(Seq::<EntryView>::empty() + s =~= s);
    lemma_extract_encoded(Seq::empty(), s);
    assert(extract_spec(b.resources) == Ok::<Seq<EntryView>, Error>(s));
    if s.len() == 0 {
        assert(b.statement is None);
        assert(statement_matches(b.statement, generated_statement(s, b.uri)));
    } else {
        let g = statement_text(s, m.uri);
        match m.statement {
            None => {
                assert(b.statement == Some(g));
                assert(g.skip(0) =~= g);
                assert(ends_with(g, g));
            },
            Some(o) => {
                let full = o + " "@ + g;
                assert(b.statement == Some(full));
                assert(full.skip(full.len() - g.len()) =~= g);
                assert(ends_with(full, g));
            },
        }
    }
}

/// Appending any character to a text breaks an exact suffix whose first two
/// characters differ.
pub proof fn lemma_append_char_breaks(o: Seq<char>, g: Seq<char>, c: char)
    requires
        ends_with(o, g),
        g.len() >= 2,
        g[0] != g[1],
    ensures
        !ends_with(o.push(c), g),
{
    let o2 = o.push(c);
    if ends_with(o2, g) {
        let off2 = o2.len() - g.len();
        let off = o.len() - g.len();
        assert(o2.skip(off2 as int)[0] == o2[off2 as int]);
        assert(o2[off2 as int] == o[off + 1]);
        assert(o.skip(off as int)[1] == o[off + 1]);
        assert(g[0] == g[1]);
    }
}

/// Statement tamper detection: appending any character to a built message's
/// statement makes verification return false.
pub proof fn lemma_statement_tamper(s: Seq<EntryView>, m: MsgView, c: char)
    requires
        wf_set(s),
        set_fits(s),
        s.len() > 0,
        forall|i: int| 0 <= i < m.resources.len() ==> !is_capability_entry(#[trigger] m.resources[i]),
    ensures
        build_spec(s, m) matches Ok(b) && b.statement matches Some(o) && verify_spec(
            MsgView { statement: Some(o.push(c)), uri: b.uri, resources: b.resources },
        ) == Ok::<bool, Error>(false),
{
    let b = match build_spec(s, m) {
        Ok(b) => b,
        Err(_) => m,
    };
    let mapped = s.map_values(|e: EntryView| encoded_entry(e));
    lemma_extract_prefix_noncap(Seq::empty(), m.resources, mapped);
    assert(Seq::<EntryView>::empty() + s =~= s);
    lemma_extract_encoded(Seq::empty(), s);
    assert(extract_spec(b.resources) == Ok::<Seq<EntryView>, Error>(s));
    let g = statement_text(s, m.uri);
    reveal_strlit("I further authorize ");
    assert(g[0] == 'I' && g[1] == ' ') by {
        assert(("I further authorize "@)[0] == 'I');
        assert(("I further authorize "@)[1] == ' ');
        assert(g[0] == ("I further authorize "@)[0]);
        assert(g[1] == ("I further authorize "@)[1]);
    }
    let o = match b.statement {
        Some(o) => o,
        None => g,
    };
    match m.statement {
        None => {
            assert(g.skip(0) =~= g);
            assert(ends_with(o, g));
        },
        Some(orig) => {
            assert(o == orig + " "@ + g);
            assert(o.skip(o.len() - g.len()) =~= g);
            assert(ends_with(o, g));
        },
    }
    lemma_append_char_breaks(o, g, c);
    let tampered = MsgView { statement: Some(o.push(c)), uri: b.uri, resources: b.resources };
    assert(verify_spec(tampered) == Ok::<bool, Error>(false));
}

/// URI tamper detection: replacing a built message's URI by a different one
/// of the same length (resources and statement untouched) makes verification
/// return false. With a URI of another length the regenerated text shifts,
/// and a crafted URI embedding the framing sentence could still align, so the
/// law is stated for equal lengths — the alteration a tamperer makes without
/// re-encoding anything.
pub proof fn lemma_uri_tamper(s: Seq<EntryView>, m: MsgView, u2: Seq<char>)
    requires
        wf_set(s),
        set_fits(s),
        s.len() > 0,
        forall|i: int| 0 <= i < m.resources.len() ==> !is_capability_entry(#[trigger] m.resources[i]),
        u2.len() == m.uri.len(),
        u2 != m.uri,
    ensures
        build_spec(s, m) matches Ok(b) && verify_spec(
            MsgView { statement: b.statement, uri: u2, resources: b.resources },
        ) == Ok::<bool, Error>(false),
{
    let b = match build_spec(s, m) {
        Ok(b) => b,
        Err(_) => m,
    };
    let mapped = s.map_values(|e: EntryView| encoded_entry(e));
    lemma_extract_prefix_noncap(Seq::empty(), m.resources, mapped);
    assert(Seq::<EntryView>::empty() + s =~= s);
    lemma_extract_encoded(Seq::empty(), s);
    let g1 = statement_text(s, m.uri);
    let g2 = statement_text(s, u2);
    assert(g1.len() == g2.len());
    let o = match b.statement {
        Some(o) => o,
        None => g1,
    };
    match m.statement {
        None => {
            assert(g1.skip(0) =~= g1);
            assert(ends_with(o, g1));
        },
        Some(orig) => {
            assert(o == orig + " "@ + g1);
            assert(o.skip(o.len() - g1.len()) =~= g1);
            assert(ends_with(o, g1));
        },
    }
    let tampered = MsgView { statement: b.statement, uri: u2, resources: b.resources };
    if ends_with(o, g2) {
        assert(o.skip(o.len() - g2.len()) == g2);
        assert(o.skip(o.len() - g1.len()) == g1);
        assert(g1 == g2);
        let head = "I further authorize "@;
        assert forall|i: int| 0 <= i < m.uri.len() implies m.uri[i] == u2[i] by {
            assert(g1[head.len() + i] == m.uri[i]);
            assert(g2[head.len() + i] == u2[i]);
        }
        assert(m.uri =~= u2);
    }
    assert(!ends_with(o, g2));
    assert(verify_spec(tampered) == Ok::<bool, Error>(false));
}

/// Empty-grant identity: a builder with no declarations leaves the message
/// untouched, and the untouched message (with no statement and no capability
/// resources) verifies.
pub proof fn lemma_empty_build(m: MsgView)
    ensures
        build_spec(Seq::empty(), m) == Ok::<MsgView, Error>(m),
        (m.statement is None && (forall|i: int|
            0 <= i < m.resources.len() ==> !is_capability_entry(#[trigger] m.resources[i]))
            ==> verify_spec(m) == Ok::<bool, Error>(true)),
{
    let s = Seq::<EntryView>::empty();
    assert(set_fits(s));
    let mapped = s.map_values(|e: EntryView| encoded_entry(e));
    assert(m.resources + mapped =~= m.resources);
    let built = match build_spec(s, m) {
        Ok(b) => b,
        Err(_) => m,
    };
    assert(built =~= m);
    if m.statement is None && (forall|i: int|
        0 <= i < m.resources.len() ==> !is_capability_entry(#[trigger] m.resources[i])) {
        assert(mapped.len() == 0);
        lemma_extract_prefix_noncap(Seq::empty(), m.resources, mapped);
        assert(extract_from(Seq::empty(), mapped) == Ok::<Seq<EntryView>, Error>(Seq::empty()));
        assert(extract_spec(m.resources) == Ok::<Seq<EntryView>, Error>(Seq::empty()));
    }
}

/// Inserting one non-capability resource anywhere leaves extraction — and so
/// the whole canonical set — unchanged.
pub proof fn lemma_extract_insert_noncap(
    acc: Seq<EntryView>,
    rs: Seq<Seq<char>>,
    i: int,
    x: Seq<char>,
)
    requires
        0 <= i <= rs.len(),
        !is_capability_entry(x),
    ensures
        extract_from(acc, rs.insert(i, x)) == extract_from(acc, rs),
    decreases rs.len(),
{
    let ins = rs.insert(i, x);
    if i == 0 {
        assert(ins[0] == x);
        assert(ins.skip(1) =~= rs);
    } else {
        assert(ins[0] == rs[0]);
        assert(ins.skip(1) =~= rs.skip(1).insert(i - 1, x));
        if !is_capability_entry(rs[0]) {
            lemma_extract_insert_noncap(acc, rs.skip(1), i - 1, x);
        } else {
            match decode_resource(rs[0]) {
                Err(_) => {},
                Ok(e) => {
                    lemma_extract_insert_noncap(merge_entry(acc, e), rs.skip(1), i - 1, x);
                },
            }
        }
    }
}

/// Interleaving invariance: capability entries for one namespace may sit at
/// arbitrary, non-adjacent positions — inserting an unrelated resource
/// between them changes neither the extracted set nor the verification
/// verdict.
pub proof fn lemma_interleaving(m: MsgView, i: int, x: Seq<char>)
    requires
        0 <= i <= m.resources.len(),
        !is_capability_entry(x),
    ensures
        extract_spec(m.resources.insert(i, x)) == extract_spec(m.resources),
        verify_spec(MsgView { statement: m.statement, uri: m.uri, resources: m.resources.insert(i, x) })
            == verify_spec(m),
{
    lemma_extract_insert_noncap(Seq::empty(), m.resources, i, x);
}

/// Malformed resource rejection: one resource bearing the capability prefix
/// that does not decode makes extraction fail, wherever it sits and whatever
/// else the list holds.
pub proof fn lemma_extract_malformed(acc: Seq<EntryView>, rs: Seq<Seq<char>>, i: int)
    requires
        0 <= i < rs.len(),
        is_capability_entry(rs[i]),
        decode_resource(rs[i]) is Err,
    ensures
        extract_from(acc, rs) is Err,
    decreases rs.len(),
{
    if i == 0 {
    } else {
        assert(rs.skip(1)[i - 1] == rs[i]);
        if !is_capability_entry(rs[0]) {
            lemma_extract_malformed(acc, rs.skip(1), i - 1);
        } else {
            match decode_resource(rs[0]) {
                Err(_) => {},
                Ok(e) => {
                    lemma_extract_malformed(merge_entry(acc, e), rs.skip(1), i - 1);
                },
            }
        }
    }
}

/// Malformed resource rejection, at the message: verification surfaces a
/// decode error, never a plain match verdict.
pub proof fn lemma_malformed_rejection(m: MsgView, i: int)
    requires
        0 <= i < m.resources.len(),
        is_capability_entry(m.resources[i]),
        decode_resource(m.resources[i]) is Err,
    ensures
        extract_spec(m.resources) is Err,
        verify_spec(m) is Err,
{
    lemma_extract_malformed(Seq::empty(), m.resources, i);
}

} // verus!
