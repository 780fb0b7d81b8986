use crate::capability::{wf_set, EntryView};
use crate::error::Error;
use crate::namespace::Namespace;
use crate::payload::cap_fits;
use crate::set::{set_add_defaults, set_add_resource, tokens_nonempty, CapabilitySet};
use crate::translation::{
    capabilities_to_statement, encode_namespace, encoded_entry, generated_statement, Message,
    MsgView,
};
use vstd::prelude::*;
use vstd::string::StringExecFns;

verus! {

/// Every entry of the set fits the wire encoding's length fields.
pub open spec fn set_fits(s: Seq<EntryView>) -> bool {
    forall|i: int| 0 <= i < s.len() ==> cap_fits((#[trigger] s[i]).cap)
}

/// What building does to a message: nothing when the set is empty; otherwise
/// the statement text is appended to any present statement after a single
/// space, and one encoded resource entry per namespace is appended after the
/// existing resources. Only a set too large for the wire encoding fails.
pub open spec fn build_spec(s: Seq<EntryView>, m: MsgView) -> Result<MsgView, Error> {
    if !set_fits(s) {
        Err(Error::EncodingFailure)
    } else {
        Ok(
            MsgView {
                statement: match generated_statement(s, m.uri) {
                    None => m.statement,
                    Some(g) => match m.statement {
                        None => Some(g),
                        Some(o) => Some(o + " "@ + g),
                    },
                },
                uri: m.uri,
                resources: m.resources + s.map_values(|e: EntryView| encoded_entry(e)),
            },
        )
    }
}

/// The stateful accumulator of declared grants: a fluent declaration API over
/// one exclusively owned set, consumed by `build`.
#[derive(Debug)]
pub struct Builder {
    set: CapabilitySet,
}

impl View for Builder {
    type V = Seq<EntryView>;

    closed spec fn view(&self) -> Seq<EntryView> {
        self.set@
    }
}

impl Builder {
    /// A builder's accumulated set is always well-formed.
    #[verifier::type_invariant]
    spec fn inv(self) -> bool {
        wf_set(self.set@)
    }

    /// A fresh builder with nothing declared.
    pub fn new() -> (r: Builder)
        ensures
            r@ == Seq::<EntryView>::empty(),
    {
        Builder { set: CapabilitySet::new() }
    }

    /// Declare namespace-wide default actions. Action tokens must be
    /// non-empty; the declaration is a union, so repeating it changes
    /// nothing.
    pub fn with_default_actions(self, ns: &Namespace, actions: Vec<String>) -> (r: Builder)
        requires
            tokens_nonempty(actions.deep_view()),
        ensures
            r@ == set_add_defaults(self@, ns@, actions.deep_view()),
    {
        proof {
            use_type_invariant(&self);
            use_type_invariant(ns);
        }
        let Builder { set } = self;
        let mut set = set;
        set.add_defaults_checked(ns, &actions);
        Builder { set }
    }

    /// Declare actions on one resource of a namespace. Action tokens must be
    /// non-empty; the declaration is a union, so repeating it changes
    /// nothing.
    pub fn with_actions(self, ns: &Namespace, resource: &str, actions: Vec<String>) -> (r: Builder)
        requires
            tokens_nonempty(actions.deep_view()),
        ensures
            r@ == set_add_resource(self@, ns@, resource@, actions.deep_view()),
    {
        proof {
            use_type_invariant(&self);
            use_type_invariant(ns);
        }
        let Builder { set } = self;
        let mut set = set;
        let res = resource.to_owned();
        set.add_resource_checked(ns, &res, &actions);
        Builder { set }
    }

    /// The accumulated set, read-only.
    pub fn capabilities(&self) -> (r: &CapabilitySet)
        ensures
            r@ == self@,
            wf_set(self@),
    {
        proof {
            use_type_invariant(&*self);
        }
        &self.set
    }

    /// Consume the builder and write its grants into the message: the
    /// regenerated statement is appended, and one encoded resource entry per
    /// namespace is appended, in first-declaration order.
    #[verifier::loop_isolation(false)]
    pub fn build(self, message: Message) -> (r: Result<Message, Error>)
        ensures
            match r {
                Ok(m) => build_spec(self@, message@) == Ok::<MsgView, Error>(m@),
                Err(e) => build_spec(self@, message@) == Err::<MsgView, Error>(e) && e
                    == Error::EncodingFailure,
            },
    {
        proof {
            use_type_invariant(&self);
        }
        let ghost sv = self@;
        let Builder { set } = self;
        proof {
            assert(set@ == sv);
        }
        let mut newuris: Vec<String> = Vec::new();
        let mut i: usize = 0;
        while i < set.entries.len()
            invariant
                i <= set.entries.len(),
                sv == set@,
                sv.len() == set.entries@.len(),
                newuris@.len() == i,
                forall|j: int| 0 <= j < i ==> cap_fits((#[trigger] sv[j]).cap),
                forall|j: int|
                    0 <= j < i ==> #[trigger] newuris.deep_view()[j] == encoded_entry(sv[j]),
            decreases set.entries.len() - i,
        {
            proof {
                assert(sv[i as int] == set.entries@[i as int]@);
            }
            let e = &set.entries[i];
            let encoded = encode_namespace(&e.namespace, &e.capability);
            match encoded {
                Err(_) => {
                    proof {
                        assert(!cap_fits(sv[i as int].cap));
                        assert(!set_fits(sv));
                    }
                    return Err(Error::EncodingFailure);
                },
                Ok(text) => {
                    let ghost before = newuris.deep_view();
                    let ghost tv = text@;
                    newuris.push(text);
                    proof {
                        assert(newuris.deep_view() =~= before.push(tv));
                    }
                },
            }
            i += 1;
        }
        assert(set_fits(sv));
        let generated = capabilities_to_statement(&set, message.uri.as_str());
        let Message { statement, uri, resources } = message;
        let mut resources = resources;
        let ghost oldres = resources.deep_view();
        let mut k: usize = 0;
        while k < newuris.len()
            invariant
                k <= newuris@.len(),
                newuris@.len() == sv.len(),
                forall|j: int|
                    0 <= j < sv.len() ==> #[trigger] newuris.deep_view()[j] == encoded_entry(sv[j]),
                resources.deep_view() =~= oldres + newuris.deep_view().take(k as int),
            decreases newuris.len() - k,
        {
            resources.push(newuris[k].clone());
            proof {
                assert(newuris.deep_view()[k as int] == newuris@[k as int]@);
                assert(oldres + newuris.deep_view().take(k as int + 1) =~= (oldres
                    + newuris.deep_view().take(k as int)).push(newuris@[k as int]@));
            }
            k += 1;
        }
        proof {
            assert(newuris.deep_view().take(sv.len() as int) =~= newuris.deep_view());
            assert(resources.deep_view() =~= oldres + sv.map_values(|e: EntryView| encoded_entry(e)));
        }
        let new_statement: Option<String> = match generated {
            None => statement,
            Some(g) => match statement {
                None => Some(g),
                Some(o) => {
                    let mut o2 = o;
                    o2.append(" ");
                    o2.append(g.as_str());
                    Some(o2)
                },
            },
        };
        let built = Message { statement: new_statement, uri, resources };
        proof {
            let expect = match build_spec(sv, message@) {
                Ok(m) => m,
                Err(_) => built@,
            };
            assert(built@.resources =~= expect.resources);
            assert(built@ =~= expect);
        }
        Ok(built)
    }
}

} // verus!
