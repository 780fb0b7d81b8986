use crate::namespace::{valid_namespace, Namespace};
use vstd::prelude::*;

verus! {

/// Mathematical model of the actions granted for one resource.
#[verifier::ext_equal]
pub struct GrantView {
    pub resource: Seq<char>,
    pub actions: Seq<Seq<char>>,
}

/// Mathematical model of one namespace's grants: namespace-wide default
/// actions, and per-resource actions in first-declaration order.
#[verifier::ext_equal]
pub struct CapView {
    pub defaults: Seq<Seq<char>>,
    pub grants: Seq<GrantView>,
}

/// Mathematical model of a whole namespace entry of a `Set`.
#[verifier::ext_equal]
pub struct EntryView {
    pub ns: Seq<char>,
    pub cap: CapView,
}

/// No two texts of the sequence are equal.
pub open spec fn distinct_texts(s: Seq<Seq<char>>) -> bool {
    forall|i: int, j: int| #![trigger s[i], s[j]] 0 <= i < j < s.len() ==> s[i] != s[j]
}

/// A well-formed list of action tokens: deduplicated, no token empty.
pub open spec fn wf_actions(s: Seq<Seq<char>>) -> bool {
    &&& distinct_texts(s)
    &&& forall|i: int| 0 <= i < s.len() ==> (#[trigger] s[i]).len() > 0
}

/// A well-formed resource grant: at least one action, actions well-formed.
pub open spec fn wf_grant(g: GrantView) -> bool {
    &&& g.actions.len() > 0
    &&& wf_actions(g.actions)
}

/// A well-formed capability: deduplicated defaults, distinct resources, every
/// grant well-formed, and at least one default action or one resource grant
/// (an entry with nothing declared is pruned).
pub open spec fn wf_cap(c: CapView) -> bool {
    &&& wf_actions(c.defaults)
    &&& forall|i: int| 0 <= i < c.grants.len() ==> wf_grant(#[trigger] c.grants[i])
    &&& forall|i: int, j: int|
        #![trigger c.grants[i], c.grants[j]]
        0 <= i < j < c.grants.len() ==> c.grants[i].resource != c.grants[j].resource
    &&& c.defaults.len() + c.grants.len() > 0
}

/// A well-formed namespace entry.
pub open spec fn wf_entry(e: EntryView) -> bool {
    &&& valid_namespace(e.ns)
    &&& wf_cap(e.cap)
}

/// A well-formed `Set` view: every entry well-formed, namespaces distinct.
pub open spec fn wf_set(s: Seq<EntryView>) -> bool {
    &&& forall|i: int| 0 <= i < s.len() ==> wf_entry(#[trigger] s[i])
    &&& forall|i: int, j: int| #![trigger s[i], s[j]] 0 <= i < j < s.len() ==> s[i].ns != s[j].ns
}

/// The actions granted for one specific resource under a namespace.
#[derive(Debug, Clone, PartialEq, Eq)]
pub struct ResourceGrant {
    pub resource: String,
    pub actions: Vec<String>,
}

impl View for ResourceGrant {
    type V = GrantView;

    open spec fn view(&self) -> GrantView {
        GrantView { resource: self.resource@, actions: self.actions.deep_view() }
    }
}

/// One namespace's accumulated grants: default actions that apply to the
/// namespace as a whole, and actions specific to single resources.
#[derive(Debug, Clone, PartialEq, Eq)]
pub struct Capability {
    pub default_actions: Vec<String>,
    pub grants: Vec<ResourceGrant>,
}

impl View for Capability {
    type V = CapView;

    open spec fn view(&self) -> CapView {
        CapView {
            defaults: self.default_actions.deep_view(),
            grants: self.grants@.map_values(|g: ResourceGrant| g@),
        }
    }
}

/// A namespace together with its capability.
#[derive(Debug, PartialEq, Eq)]
pub struct SetEntry {
    pub namespace: Namespace,
    pub capability: Capability,
}

impl View for SetEntry {
    type V = EntryView;

    open spec fn view(&self) -> EntryView {
        EntryView { ns: self.namespace@, cap: self.capability@ }
    }
}

} // verus!
