use crate::base64::{b64_decode, b64_decode_text, b64_encode, b64_encode_text};
use crate::capability::{Capability, EntryView, GrantView, SetEntry};
use crate::error::Error;
use crate::namespace::{valid_namespace, Namespace};
use crate::payload::{
    cap_fits, dec_payload, decode_payload_bytes, enc_payload, encode_payload_bytes, fits_check,
};
use crate::set::{merge_entry, mergeable_entry, tokens_nonempty, CapabilitySet};
use vstd::prelude::*;
use vstd::string::{StrSliceExecFns, StringExecFns};

verus! {

// ------------------------------------------------------------------
// The capability resource entry: "<prefix><namespace>:<encoded payload>".
// ------------------------------------------------------------------
/// The fixed prefix marking a capability resource entry.
pub open spec fn prefix_chars() -> Seq<char> {
    "urn:capability:"@
}

/// The fixed prefix marking a capability resource entry.
pub fn resource_prefix() -> (r: &'static str)
    ensures
        r@ == prefix_chars(),
{
    "urn:capability:"
}

/// The resource URI text of one namespace entry.
pub open spec fn encoded_entry(e: EntryView) -> Seq<char> {
    prefix_chars() + e.ns + seq![':'] + b64_encode(enc_payload(e.cap))
}

/// Whether a resource text bears the capability prefix.
pub open spec fn is_capability_entry(r: Seq<char>) -> bool {
    &&& prefix_chars().len() <= r.len()
    &&& r.take(prefix_chars().len() as int) == prefix_chars()
}

/// The position of the first ':' at or after `from`, or -1 when none is left.
pub open spec fn colon_from(s: Seq<char>, from: int) -> int
    decreases s.len() - from,
{
    if from < 0 || from >= s.len() {
        -1
    } else if s[from] == ':' {
        from
    } else {
        colon_from(s, from + 1)
    }
}

pub proof fn lemma_colon_from_clear(s: Seq<char>, from: int, k: int)
    requires
        0 <= from <= k <= s.len(),
        forall|j: int| from <= j < k ==> s[j] != ':',
    ensures
        colon_from(s, from) == colon_from(s, k),
    decreases k - from,
{
    if from < k {
        assert(s[from] != ':');
        lemma_colon_from_clear(s, from + 1, k);
    }
}

/// Decode one capability resource entry into a namespace and its raw
/// capability; everything after the namespace delimiter must be a valid
/// encoding of a valid payload.
pub open spec fn decode_resource(r: Seq<char>) -> Result<EntryView, Error> {
    let plen = prefix_chars().len() as int;
    let cp = colon_from(r, plen);
    if cp < 0 {
        Err(Error::InvalidNamespace)
    } else {
        let ns = r.subrange(plen, cp);
        if !valid_namespace(ns) {
            Err(Error::InvalidNamespace)
        } else {
            match b64_decode(r.skip(cp + 1)) {
                None => Err(Error::DecodingFailure),
                Some(bytes) => match dec_payload(bytes) {
                    None => Err(Error::DecodingFailure),
                    Some(cap) => Ok(EntryView { ns: ns, cap: cap }),
                },
            }
        }
    }
}

/// Scan a resource list in order, decoding every capability entry and
/// union-merging it into the accumulating set; the first bad capability
/// entry's error is the result. Non-capability entries are ignored.
pub open spec fn extract_from(acc: Seq<EntryView>, rs: Seq<Seq<char>>) -> Result<
    Seq<EntryView>,
    Error,
>
    decreases rs.len(),
{
    if rs.len() == 0 {
        Ok(acc)
    } else if !is_capability_entry(rs[0]) {
        extract_from(acc, rs.skip(1))
    } else {
        match decode_resource(rs[0]) {
            Err(e) => Err(e),
            Ok(e) => extract_from(merge_entry(acc, e), rs.skip(1)),
        }
    }
}

/// The capability set a resource list carries.
pub open spec fn extract_spec(rs: Seq<Seq<char>>) -> Result<Seq<EntryView>, Error> {
    extract_from(Seq::empty(), rs)
}

// ------------------------------------------------------------------
// The statement text.
// ------------------------------------------------------------------
pub open spec fn default_clause(ns: Seq<char>, act: Seq<char>) -> Seq<char> {
    " '"@ + act + "' for any resource under '"@ + ns + "'."@
}

pub open spec fn resource_clause(ns: Seq<char>, res: Seq<char>, act: Seq<char>) -> Seq<char> {
    " '"@ + act + "' for '"@ + res + "' under '"@ + ns + "'."@
}

pub open spec fn default_clauses(ns: Seq<char>, acts: Seq<Seq<char>>) -> Seq<char>
    decreases acts.len(),
{
    if acts.len() == 0 {
        Seq::empty()
    } else {
        default_clause(ns, acts[0]) + default_clauses(ns, acts.skip(1))
    }
}

pub open spec fn resource_clauses(ns: Seq<char>, res: Seq<char>, acts: Seq<Seq<char>>) -> Seq<char>
    decreases acts.len(),
{
    if acts.len() == 0 {
        Seq::empty()
    } else {
        resource_clause(ns, res, acts[0]) + resource_clauses(ns, res, acts.skip(1))
    }
}

pub open spec fn grants_clauses(ns: Seq<char>, gs: Seq<GrantView>) -> Seq<char>
    decreases gs.len(),
{
    if gs.len() == 0 {
        Seq::empty()
    } else {
        resource_clauses(ns, gs[0].resource, gs[0].actions) + grants_clauses(ns, gs.skip(1))
    }
}

/// All clauses of one namespace entry: its default actions first, then each
/// resource's actions, in the entry's canonical order.
pub open spec fn entry_clauses(e: EntryView) -> Seq<char> {
    default_clauses(e.ns, e.cap.defaults) + grants_clauses(e.ns, e.cap.grants)
}

pub open spec fn set_clauses(s: Seq<EntryView>) -> Seq<char>
    decreases s.len(),
{
    if s.len() == 0 {
        Seq::empty()
    } else {
        entry_clauses(s[0]) + set_clauses(s.skip(1))
    }
}

/// The framing sentence naming the delegate, followed by one clause per
/// granted action.
pub open spec fn statement_text(s: Seq<EntryView>, uri: Seq<char>) -> Seq<char> {
    "I further authorize "@ + uri + " to perform the following actions on my behalf:"@
        + set_clauses(s)
}

/// The statement an encoded set demands: none when the set is empty.
pub open spec fn generated_statement(s: Seq<EntryView>, uri: Seq<char>) -> Option<Seq<char>> {
    if s.len() == 0 {
        None
    } else {
        Some(statement_text(s, uri))
    }
}

/// Append the clauses for one list of default actions.
fn append_default_clauses(out: &mut String, ns: &Namespace, acts: &Vec<String>)
    ensures
        final(out)@ == old(out)@ + default_clauses(ns@, acts.deep_view()),
{
    let ghost base = out@;
    let ghost dv = acts.deep_view();
    let mut i: usize = 0;
    proof {
        assert(dv.skip(0) =~= dv);
    }
    while i < acts.len()
        invariant
            i <= acts.len(),
            dv == acts.deep_view(),
            dv.len() == acts@.len(),
            out@ + default_clauses(ns@, dv.skip(i as int)) == base + default_clauses(ns@, dv),
        decreases acts.len() - i,
    {
        let ghost before = out@;
        proof {
            assert(dv[i as int] == acts@[i as int]@);
        }
        out.append(" '");
        out.append(acts[i].as_str());
        out.append("' for any resource under '");
        out.append(ns.as_text());
        out.append("'.");
        proof {
            assert(out@ =~= before + default_clause(ns@, dv[i as int]));
            assert(dv.skip(i as int)[0] == dv[i as int]);
            assert(dv.skip(i as int).skip(1) =~= dv.skip(i as int + 1));
            assert((before + default_clause(ns@, dv[i as int])) + default_clauses(
                ns@,
                dv.skip(i as int + 1),
            ) =~= before + (default_clause(ns@, dv[i as int]) + default_clauses(
                ns@,
                dv.skip(i as int + 1),
            )));
        }
        i += 1;
    }
    proof {
        assert(dv.skip(acts@.len() as int) =~= Seq::<Seq<char>>::empty());
        assert(out@ + Seq::<char>::empty() =~= out@);
    }
}

/// Append the clauses for one resource's actions.
fn append_resource_clauses(out: &mut String, ns: &Namespace, res: &String, acts: &Vec<String>)
    ensures
        final(out)@ == old(out)@ + resource_clauses(ns@, res@, acts.deep_view()),
{
    let ghost base = out@;
    let ghost dv = acts.deep_view();
    let mut i: usize = 0;
    proof {
        assert(dv.skip(0) =~= dv);
    }
    while i < acts.len()
        invariant
            i <= acts.len(),
            dv == acts.deep_view(),
            dv.len() == acts@.len(),
            out@ + resource_clauses(ns@, res@, dv.skip(i as int)) == base + resource_clauses(
                ns@,
                res@,
                dv,
            ),
        decreases acts.len() - i,
    {
        let ghost before = out@;
        proof {
            assert(dv[i as int] == acts@[i as int]@);
        }
        out.append(" '");
        out.append(acts[i].as_str());
        out.append("' for '");
        out.append(res.as_str());
        out.append("' under '");
        out.append(ns.as_text());
        out.append("'.");
        proof {
            assert(out@ =~= before + resource_clause(ns@, res@, dv[i as int]));
            assert(dv.skip(i as int)[0] == dv[i as int]);
            assert(dv.skip(i as int).skip(1) =~= dv.skip(i as int + 1));
            assert((before + resource_clause(ns@, res@, dv[i as int])) + resource_clauses(
                ns@,
                res@,
                dv.skip(i as int + 1),
            ) =~= before + (resource_clause(ns@, res@, dv[i as int]) + resource_clauses(
                ns@,
                res@,
                dv.skip(i as int + 1),
            )));
        }
        i += 1;
    }
    proof {
        assert(dv.skip(acts@.len() as int) =~= Seq::<Seq<char>>::empty());
        assert(out@ + Seq::<char>::empty() =~= out@);
    }
}

/// Append every clause of one namespace entry.
fn append_entry_clauses(out: &mut String, e: &SetEntry)
    ensures
        final(out)@ == old(out)@ + entry_clauses(e@),
{
    append_default_clauses(out, &e.namespace, &e.capability.default_actions);
    let ghost mid = out@;
    let ghost gv = e@.cap.grants;
    let mut j: usize = 0;
    proof {
        assert(gv.skip(0) =~= gv);
    }
    while j < e.capability.grants.len()
        invariant
            j <= e.capability.grants.len(),
            gv == e@.cap.grants,
            gv.len() == e.capability.grants@.len(),
            e@.ns == e.namespace@,
            out@ + grants_clauses(e@.ns, gv.skip(j as int)) == mid + grants_clauses(e@.ns, gv),
        decreases e.capability.grants.len() - j,
    {
        let ghost before = out@;
        proof {
            assert(gv[j as int] == e.capability.grants@[j as int]@);
        }
        let g = &e.capability.grants[j];
        append_resource_clauses(out, &e.namespace, &g.resource, &g.actions);
        proof {
            assert(gv.skip(j as int)[0] == gv[j as int]);
            assert(gv.skip(j as int).skip(1) =~= gv.skip(j as int + 1));
            assert((before + resource_clauses(e@.ns, gv[j as int].resource, gv[j as int].actions))
                + grants_clauses(e@.ns, gv.skip(j as int + 1)) =~= before + (resource_clauses(
                e@.ns,
                gv[j as int].resource,
                gv[j as int].actions,
            ) + grants_clauses(e@.ns, gv.skip(j as int + 1))));
        }
        j += 1;
    }
    proof {
        assert(gv.skip(e.capability.grants@.len() as int) =~= Seq::<GrantView>::empty());
        assert(out@ + Seq::<char>::empty() =~= out@);
        assert(mid + grants_clauses(e@.ns, gv) =~= (old(out)@ + default_clauses(
            e@.ns,
            e@.cap.defaults,
        )) + grants_clauses(e@.ns, gv));
        assert((old(out)@ + default_clauses(e@.ns, e@.cap.defaults)) + grants_clauses(e@.ns, gv)
            =~= old(out)@ + entry_clauses(e@));
    }
}

/// The deterministic, human-readable description of a capability set,
/// naming `uri` as the delegate; nothing when the set is empty.
pub fn capabilities_to_statement(caps: &CapabilitySet, uri: &str) -> (r: Option<String>)
    ensures
        match r {
            Some(s) => generated_statement(caps@, uri@) == Some(s@),
            None => generated_statement(caps@, uri@) is None,
        },
{
    if caps.entries.len() == 0 {
        return None;
    }
    let mut out = String::new();
    out.append("I further authorize ");
    out.append(uri);
    out.append(" to perform the following actions on my behalf:");
    let ghost head = out@;
    let ghost sv = caps@;
    let mut i: usize = 0;
    proof {
        assert(sv.skip(0) =~= sv);
    }
    while i < caps.entries.len()
        invariant
            i <= caps.entries.len(),
            sv == caps@,
            sv.len() == caps.entries@.len(),
            out@ + set_clauses(sv.skip(i as int)) == head + set_clauses(sv),
        decreases caps.entries.len() - i,
    {
        let ghost before = out@;
        proof {
            assert(sv[i as int] == caps.entries@[i as int]@);
        }
        append_entry_clauses(&mut out, &caps.entries[i]);
        proof {
            assert(sv.skip(i as int)[0] == sv[i as int]);
            assert(sv.skip(i as int).skip(1) =~= sv.skip(i as int + 1));
            assert((before + entry_clauses(sv[i as int])) + set_clauses(sv.skip(i as int + 1)) =~= before
                + (entry_clauses(sv[i as int]) + set_clauses(sv.skip(i as int + 1))));
        }
        i += 1;
    }
    proof {
        assert(sv.skip(caps.entries@.len() as int) =~= Seq::<EntryView>::empty());
        assert(out@ + Seq::<char>::empty() =~= out@);
        assert(head + set_clauses(sv) =~= statement_text(sv, uri@));
    }
    Some(out)
}

// ------------------------------------------------------------------
// Executable encoding of one entry.
// ------------------------------------------------------------------
/// Encode one namespace's capability into its resource URI text; fails only
/// when the capability does not fit the wire format's length fields.
pub fn encode_namespace(ns: &Namespace, cap: &Capability) -> (r: Result<String, Error>)
    ensures
        match r {
            Ok(s) => cap_fits(cap@) && s@ == encoded_entry(EntryView { ns: ns@, cap: cap@ }),
            Err(e) => e == Error::EncodingFailure && !cap_fits(cap@),
        },
{
    if !fits_check(cap) {
        return Err(Error::EncodingFailure);
    }
    let bytes = encode_payload_bytes(cap);
    let text = b64_encode_text(&bytes);
    let mut out = String::new();
    out.append("urn:capability:");
    out.append(ns.as_text());
    out.push(':');
    out.append(text.as_str());
    proof {
        assert(out@ =~= encoded_entry(EntryView { ns: ns@, cap: cap@ }));
    }
    Ok(out)
}

/// Whether a resource text bears the capability prefix.
pub fn has_capability_prefix(r: &String) -> (b: bool)
    ensures
        b == is_capability_entry(r@),
{
    let p = resource_prefix();
    let plen = p.unicode_len();
    let n = r.as_str().unicode_len();
    if n < plen {
        return false;
    }
    let mut i: usize = 0;
    while i < plen
        invariant
            i <= plen,
            plen == prefix_chars().len(),
            n == r@.len(),
            plen <= n,
            p@ == prefix_chars(),
            forall|j: int| 0 <= j < i ==> r@[j] == prefix_chars()[j],
        decreases plen - i,
    {
        let a = r.as_str().get_char(i);
        let b = p.get_char(i);
        if a != b {
            proof {
                assert(r@.take(plen as int)[i as int] == r@[i as int]);
            }
            return false;
        }
        i += 1;
    }
    proof {
        assert(r@.take(plen as int) =~= prefix_chars());
    }
    true
}

/// Decode one capability resource entry.
fn decode_resource_text(r: &String) -> (res: Result<SetEntry, Error>)
    requires
        is_capability_entry(r@),
    ensures
        match res {
            Ok(e) => decode_resource(r@) == Ok::<EntryView, Error>(e@) && mergeable_entry(e@),
            Err(er) => decode_resource(r@) == Err::<EntryView, Error>(er),
        },
{
    let p = resource_prefix();
    let plen = p.unicode_len();
    let n = r.as_str().unicode_len();
    proof {
        reveal_strlit("urn:capability:");
        assert(plen <= n);
    }
    // find the namespace delimiter
    let mut i: usize = plen;
    while i < n
        invariant
            plen <= i <= n,
            n == r@.len(),
            plen == prefix_chars().len(),
            forall|j: int| plen <= j < i ==> r@[j] != ':',
        decreases n - i,
    {
        let c = r.as_str().get_char(i);
        if c == ':' {
            proof {
                lemma_colon_from_clear(r@, plen as int, i as int);
                assert(colon_from(r@, i as int) == i as int);
            }
            let ns_text = r.as_str().substring_char(plen, i);
            let parsed = Namespace::parse(ns_text);
            match parsed {
                Err(e) => {
                    proof {
                        assert(ns_text@ =~= r@.subrange(plen as int, i as int));
                    }
                    return Err(e);
                },
                Ok(ns) => {
                    proof {
                        assert(ns_text@ =~= r@.subrange(plen as int, i as int));
                    }
                    let suffix = r.as_str().substring_char(i + 1, n);
                    proof {
                        assert(suffix@ =~= r@.skip(i as int + 1));
                    }
                    let decoded = b64_decode_text(suffix);
                    match decoded {
                        None => {
                            return Err(Error::DecodingFailure);
                        },
                        Some(bytes) => {
                            let cap = decode_payload_bytes(&bytes);
                            match cap {
                                None => {
                                    return Err(Error::DecodingFailure);
                                },
                                Some(capability) => {
                                    proof {
                                        crate::payload::lemma_dec_payload_props(bytes@);
                                    }
                                    return Ok(SetEntry { namespace: ns, capability });
                                },
                            }
                        },
                    }
                },
            }
        }
        i += 1;
    }
    proof {
        lemma_colon_from_clear(r@, plen as int, n as int);
        assert(colon_from(r@, n as int) == -1);
    }
    Err(Error::InvalidNamespace)
}

/// The sign-in message record as this library reads and writes it: the
/// optional human-readable statement, the delegate URI, and the ordered
/// resource list.
#[derive(Debug, Clone, PartialEq, Eq)]
pub struct Message {
    pub statement: Option<String>,
    pub uri: String,
    pub resources: Vec<String>,
}

/// Mathematical model of the message record.
#[verifier::ext_equal]
pub struct MsgView {
    pub statement: Option<Seq<char>>,
    pub uri: Seq<char>,
    pub resources: Seq<Seq<char>>,
}

impl View for Message {
    type V = MsgView;

    open spec fn view(&self) -> MsgView {
        MsgView {
            statement: match self.statement {
                Some(s) => Some(s@),
                None => None,
            },
            uri: self.uri@,
            resources: self.resources.deep_view(),
        }
    }
}

/// Decode every capability resource entry of a message into one canonical
/// set; entries for one namespace may sit anywhere in the list. A resource
/// bearing the capability prefix that does not decode is an error, never
/// silently dropped.
pub fn extract_capabilities(message: &Message) -> (r: Result<CapabilitySet, Error>)
    ensures
        match r {
            Ok(s) => extract_spec(message@.resources) == Ok::<Seq<EntryView>, Error>(s@)
                && crate::capability::wf_set(s@),
            Err(e) => extract_spec(message@.resources) == Err::<Seq<EntryView>, Error>(e),
        },
{
    let mut set = CapabilitySet::new();
    let ghost rv = message@.resources;
    let mut i: usize = 0;
    proof {
        assert(set@ =~= Seq::<EntryView>::empty());
        assert(rv.skip(0) =~= rv);
    }
    while i < message.resources.len()
        invariant
            i <= message.resources.len(),
            rv == message@.resources,
            rv.len() == message.resources@.len(),
            crate::capability::wf_set(set@),
            extract_from(set@, rv.skip(i as int)) == extract_spec(rv),
        decreases message.resources.len() - i,
    {
        proof {
            assert(rv[i as int] == message.resources@[i as int]@);
            assert(rv.skip(i as int)[0] == rv[i as int]);
            assert(rv.skip(i as int).skip(1) =~= rv.skip(i as int + 1));
        }
        let entry = &message.resources[i];
        if has_capability_prefix(entry) {
            let decoded = decode_resource_text(entry);
            match decoded {
                Err(e) => {
                    return Err(e);
                },
                Ok(se) => {
                    set.merge_one(&se);
                },
            }
        }
        i += 1;
    }
    proof {
        assert(rv.skip(message.resources@.len() as int) =~= Seq::<Seq<char>>::empty());
    }
    Ok(set)
}

} // verus!
