//! Delegated authorization grants carried inside a signable sign-in message.
//!
//! A caller declares capabilities — actions on namespaces and on single
//! resources — through a [`Builder`]. Building writes two consistent images
//! of the accumulated [`CapabilitySet`] into the message: a compact encoded
//! resource entry per namespace, and a deterministic human-readable
//! description appended to the statement. [`verify_statement`] later decodes
//! the resource entries, regenerates the description from them and the
//! message's URI, and confirms the statement really ends with it — so what
//! was signed is what a reader saw.

mod base64;
mod builder;
mod capability;
mod error;
mod laws;
mod namespace;
mod payload;
mod set;
mod translation;
mod trusted;

pub use builder::{build_spec, set_fits, Builder};
pub use capability::{
    wf_cap, wf_entry, wf_set, CapView, Capability, EntryView, GrantView, ResourceGrant, SetEntry,
};
pub use error::Error;
pub use laws::{lemma_empty_build, lemma_interleaving, lemma_malformed_rejection, lemma_round_trip, lemma_self_verification, lemma_statement_tamper, lemma_uri_tamper};
pub use namespace::{valid_namespace, Namespace};
pub use set::CapabilitySet;
pub use translation::{
    capabilities_to_statement, encoded_entry, extract_capabilities, extract_spec,
    generated_statement, is_capability_entry, resource_prefix, statement_text, Message, MsgView,
};

use vstd::prelude::*;
use vstd::string::StrSliceExecFns;

verus! {

/// The prefix for a capability resource entry.
pub const RESOURCE_PREFIX: &'static str = "urn:capability:";

/// One text ends with another, character for character.
pub open spec fn ends_with(a: Seq<char>, b: Seq<char>) -> bool {
    &&& b.len() <= a.len()
    &&& a.skip(a.len() - b.len()) == b
}

/// The three-way statement comparison: absent on both sides is a match; on
/// both sides present, the observed statement must end with the regenerated
/// text exactly; one side alone never matches.
pub open spec fn statement_matches(o: Option<Seq<char>>, g: Option<Seq<char>>) -> bool {
    match o {
        Option::None => g is None,
        Some(a) => match g {
            Option::None => false,
            Some(b) => ends_with(a, b),
        },
    }
}

/// What verifying a message means: decode its capability entries (an
/// undecodable one is an error, not a mismatch), regenerate the statement
/// from the decoded set and the message's own URI, and compare.
pub open spec fn verify_spec(m: MsgView) -> Result<bool, Error> {
    match extract_spec(m.resources) {
        Err(e) => Err(e),
        Ok(s) => Ok(statement_matches(m.statement, generated_statement(s, m.uri))),
    }
}

/// True when `a` ends with `b`.
fn text_ends_with(a: &String, b: &String) -> (r: bool)
    ensures
        r == ends_with(a@, b@),
{
    let an = a.as_str().unicode_len();
    let bn = b.as_str().unicode_len();
    if bn > an {
        return false;
    }
    let off = an - bn;
    let mut i: usize = 0;
    while i < bn
        invariant
            i <= bn,
            an == a@.len(),
            bn == b@.len(),
            bn <= an,
            off == an - bn,
            forall|j: int| 0 <= j < i ==> a@[off + j] == b@[j],
        decreases bn - i,
    {
        let ca = a.as_str().get_char(off + i);
        let cb = b.as_str().get_char(i);
        if ca != cb {
            proof {
                assert(a@.skip(off as int)[i as int] == a@[off + i]);
            }
            return false;
        }
        i += 1;
    }
    proof {
        assert(a@.skip(off as int) =~= b@);
    }
    true
}

/// Verify that a message's statement matches its encoded capabilities.
///
/// Decodes the capability resource entries, regenerates the statement text
/// they demand for the message's URI, and checks that the message's
/// statement ends with it. A resource entry bearing the capability prefix
/// that cannot be decoded is an error: such a message cannot be
/// authenticated, which is distinct from a clean mismatch.
pub fn verify_statement(message: &Message) -> (r: Result<bool, Error>)
    ensures
        r == verify_spec(message@),
{
    let extracted = extract_capabilities(message);
    let capabilities = match extracted {
        Err(e) => {
            return Err(e);
        },
        Ok(c) => c,
    };
    let generated = capabilities_to_statement(&capabilities, message.uri.as_str());
    let verified = match &message.statement {
        None => match &generated {
            None => true,
            Some(_) => false,
        },
        Some(o) => match &generated {
            None => false,
            Some(g) => text_ends_with(o, g),
        },
    };
    Ok(verified)
}

} // verus!
