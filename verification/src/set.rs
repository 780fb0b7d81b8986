use crate::capability::{distinct_texts, wf_actions, wf_cap, wf_entry, wf_grant, wf_set, CapView, Capability, EntryView, GrantView, ResourceGrant, SetEntry};
use crate::error::Error;
use crate::namespace::{valid_namespace, Namespace};
use vstd::prelude::*;

verus! {

// ------------------------------------------------------------------
// Union-merge, as mathematics: the canonical Set is built with these.
// ------------------------------------------------------------------
/// Append one token unless it is already present.
pub open spec fn push_unique(base: Seq<Seq<char>>, tok: Seq<char>) -> Seq<Seq<char>> {
    if base.contains(tok) {
        base
    } else {
        base.push(tok)
    }
}

/// Union a list of tokens into a deduplicated list, keeping first-seen order.
pub open spec fn union_tokens(base: Seq<Seq<char>>, toks: Seq<Seq<char>>) -> Seq<Seq<char>>
    decreases toks.len(),
{
    if toks.len() == 0 {
        base
    } else {
        union_tokens(push_unique(base, toks[0]), toks.skip(1))
    }
}

pub open spec fn has_ns(s: Seq<EntryView>, ns: Seq<char>) -> bool {
    exists|i: int| 0 <= i < s.len() && s[i].ns == ns
}

pub open spec fn ns_index(s: Seq<EntryView>, ns: Seq<char>) -> int {
    choose|i: int| 0 <= i < s.len() && s[i].ns == ns
}

pub open spec fn has_res(gs: Seq<GrantView>, res: Seq<char>) -> bool {
    exists|i: int| 0 <= i < gs.len() && gs[i].resource == res
}

pub open spec fn res_index(gs: Seq<GrantView>, res: Seq<char>) -> int {
    choose|i: int| 0 <= i < gs.len() && gs[i].resource == res
}

/// Union new default actions into one capability.
pub open spec fn cap_add_defaults(c: CapView, toks: Seq<Seq<char>>) -> CapView {
    CapView { defaults: union_tokens(c.defaults, toks), grants: c.grants }
}

/// Union new actions for one resource into one capability; a resource that
/// would end up with no actions is not created.
pub open spec fn cap_add_resource(c: CapView, res: Seq<char>, toks: Seq<Seq<char>>) -> CapView {
    if has_res(c.grants, res) {
        let i = res_index(c.grants, res);
        CapView {
            defaults: c.defaults,
            grants: c.grants.update(
                i,
                GrantView { resource: res, actions: union_tokens(c.grants[i].actions, toks) },
            ),
        }
    } else {
        let a = union_tokens(Seq::empty(), toks);
        if a.len() == 0 {
            c
        } else {
            CapView {
                defaults: c.defaults,
                grants: c.grants.push(GrantView { resource: res, actions: a }),
            }
        }
    }
}

/// Union default actions for a namespace into a set view, creating the
/// namespace entry when needed; an entry that would be empty is not created.
pub open spec fn set_add_defaults(s: Seq<EntryView>, ns: Seq<char>, toks: Seq<Seq<char>>) -> Seq<
    EntryView,
> {
    if has_ns(s, ns) {
        let i = ns_index(s, ns);
        s.update(i, EntryView { ns: s[i].ns, cap: cap_add_defaults(s[i].cap, toks) })
    } else {
        let d = union_tokens(Seq::empty(), toks);
        if d.len() == 0 {
            s
        } else {
            s.push(EntryView { ns: ns, cap: CapView { defaults: d, grants: Seq::empty() } })
        }
    }
}

/// Union actions for one resource of a namespace into a set view.
pub open spec fn set_add_resource(
    s: Seq<EntryView>,
    ns: Seq<char>,
    res: Seq<char>,
    toks: Seq<Seq<char>>,
) -> Seq<EntryView> {
    if has_ns(s, ns) {
        let i = ns_index(s, ns);
        s.update(i, EntryView { ns: s[i].ns, cap: cap_add_resource(s[i].cap, res, toks) })
    } else {
        let a = union_tokens(Seq::empty(), toks);
        if a.len() == 0 {
            s
        } else {
            s.push(
                EntryView {
                    ns: ns,
                    cap: CapView {
                        defaults: Seq::empty(),
                        grants: seq![GrantView { resource: res, actions: a }],
                    },
                },
            )
        }
    }
}

/// Merge the grants of one entry, resource by resource.
pub open spec fn merge_grants(s: Seq<EntryView>, ns: Seq<char>, gs: Seq<GrantView>) -> Seq<
    EntryView,
>
    decreases gs.len(),
{
    if gs.len() == 0 {
        s
    } else {
        merge_grants(set_add_resource(s, ns, gs[0].resource, gs[0].actions), ns, gs.skip(1))
    }
}

/// Merge one whole entry (defaults, then its grants) into a set view.
pub open spec fn merge_entry(s: Seq<EntryView>, e: EntryView) -> Seq<EntryView> {
    merge_grants(set_add_defaults(s, e.ns, e.cap.defaults), e.ns, e.cap.grants)
}

/// Merge a second set view into a first, entry by entry.
pub open spec fn merge_sets(s: Seq<EntryView>, other: Seq<EntryView>) -> Seq<EntryView>
    decreases other.len(),
{
    if other.len() == 0 {
        s
    } else {
        merge_sets(merge_entry(s, other[0]), other.skip(1))
    }
}

/// All tokens of a list are non-empty.
pub open spec fn tokens_nonempty(toks: Seq<Seq<char>>) -> bool {
    forall|i: int| 0 <= i < toks.len() ==> (#[trigger] toks[i]).len() > 0
}

/// What union-merging an entry needs of it: a valid namespace and non-empty
/// action tokens. A decoded entry meets this even before deduplication.
pub open spec fn mergeable_entry(e: EntryView) -> bool {
    &&& valid_namespace(e.ns)
    &&& tokens_nonempty(e.cap.defaults)
    &&& forall|i: int| 0 <= i < e.cap.grants.len() ==> tokens_nonempty((#[trigger] e.cap.grants[i]).actions)
}

// ------------------------------------------------------------------
// Facts about the union-merge.
// ------------------------------------------------------------------
pub proof fn lemma_union_tokens_wf(base: Seq<Seq<char>>, toks: Seq<Seq<char>>)
    requires
        wf_actions(base),
        tokens_nonempty(toks),
    ensures
        wf_actions(union_tokens(base, toks)),
        union_tokens(base, toks).len() >= base.len(),
        toks.len() > 0 ==> union_tokens(base, toks).len() > 0,
    decreases toks.len(),
{
    if toks.len() > 0 {
        let base1 = push_unique(base, toks[0]);
        assert(wf_actions(base1)) by {
            if !base.contains(toks[0]) {
                assert(forall|i: int|
                    0 <= i < base1.len() ==> (#[trigger] base1[i]).len() > 0);
            }
        }
        assert(base1.len() > 0);
        assert(tokens_nonempty(toks.skip(1))) by {
            assert(forall|i: int|
                0 <= i < toks.skip(1).len() ==> #[trigger] toks.skip(1)[i] == toks[i + 1]);
        }
        lemma_union_tokens_wf(base1, toks.skip(1));
    }
}

/// Unioning a deduplicated, disjoint token list is plain concatenation.
pub proof fn lemma_union_append(base: Seq<Seq<char>>, toks: Seq<Seq<char>>)
    requires
        distinct_texts(toks),
        forall|i: int| 0 <= i < toks.len() ==> !base.contains(#[trigger] toks[i]),
    ensures
        union_tokens(base, toks) == base + toks,
    decreases toks.len(),
{
    if toks.len() == 0 {
        assert(union_tokens(base, toks) =~= base + toks);
    } else {
        let base1 = base.push(toks[0]);
        assert(push_unique(base, toks[0]) == base1);
        let rest = toks.skip(1);
        assert(forall|i: int| 0 <= i < rest.len() ==> #[trigger] rest[i] == toks[i + 1]);
        assert(distinct_texts(rest));
        assert forall|i: int| 0 <= i < rest.len() implies !base1.contains(#[trigger] rest[i]) by {
            assert(rest[i] == toks[i + 1]);
            if base1.contains(rest[i]) {
                let j = choose|j: int| 0 <= j < base1.len() && base1[j] == rest[i];
                if j < base.len() {
                    assert(base.contains(rest[i]));
                } else {
                    assert(base1[j] == toks[0]);
                }
            }
        }
        lemma_union_append(base1, rest);
        assert(base1 + rest =~= base + toks);
    }
}

/// A deduplicated, non-empty-token list unioned into nothing is itself.
pub proof fn lemma_union_identity(toks: Seq<Seq<char>>)
    requires
        distinct_texts(toks),
    ensures
        union_tokens(Seq::empty(), toks) == Seq::empty().add(toks),
        union_tokens(Seq::empty(), toks) == toks,
{
    lemma_union_append(Seq::empty(), toks);
    assert(Seq::empty().add(toks) =~= toks);
}

/// Unfolding the left fold of `union_tokens` one element at the back.
pub proof fn lemma_union_snoc(base: Seq<Seq<char>>, toks: Seq<Seq<char>>, t: Seq<char>)
    ensures
        union_tokens(base, toks.push(t)) == push_unique(union_tokens(base, toks), t),
    decreases toks.len(),
{
    let p = toks.push(t);
    if toks.len() == 0 {
        assert(p[0] == t);
        assert(p.skip(1) =~= Seq::<Seq<char>>::empty());
        assert(union_tokens(base, p) == union_tokens(push_unique(base, t), p.skip(1)));
        assert(union_tokens(push_unique(base, t), p.skip(1)) == push_unique(base, t));
        assert(union_tokens(base, toks) == base);
    } else {
        assert(p[0] == toks[0]);
        assert(p.skip(1) =~= toks.skip(1).push(t));
        lemma_union_snoc(push_unique(base, toks[0]), toks.skip(1), t);
        assert(union_tokens(base, p) == union_tokens(push_unique(base, toks[0]), p.skip(1)));
        assert(union_tokens(base, toks) == union_tokens(push_unique(base, toks[0]), toks.skip(1)));
    }
}

/// Unfolding the left fold of `merge_grants` one grant at the back.
pub proof fn lemma_merge_grants_snoc(
    s: Seq<EntryView>,
    ns: Seq<char>,
    gs: Seq<GrantView>,
    g: GrantView,
)
    ensures
        merge_grants(s, ns, gs.push(g)) == set_add_resource(
            merge_grants(s, ns, gs),
            ns,
            g.resource,
            g.actions,
        ),
    decreases gs.len(),
{
    let p = gs.push(g);
    if gs.len() == 0 {
        assert(p[0] == g);
        assert(p.skip(1) =~= Seq::<GrantView>::empty());
        assert(merge_grants(s, ns, p) == merge_grants(
            set_add_resource(s, ns, g.resource, g.actions),
            ns,
            p.skip(1),
        ));
        assert(merge_grants(set_add_resource(s, ns, g.resource, g.actions), ns, p.skip(1))
            == set_add_resource(s, ns, g.resource, g.actions));
        assert(merge_grants(s, ns, gs) == s);
    } else {
        assert(p[0] == gs[0]);
        assert(p.skip(1) =~= gs.skip(1).push(g));
        let s1 = set_add_resource(s, ns, gs[0].resource, gs[0].actions);
        lemma_merge_grants_snoc(s1, ns, gs.skip(1), g);
        assert(merge_grants(s, ns, p) == merge_grants(s1, ns, p.skip(1)));
        assert(merge_grants(s, ns, gs) == merge_grants(s1, ns, gs.skip(1)));
    }
}

/// Unfolding the left fold of `merge_sets` one entry at the back.
pub proof fn lemma_merge_sets_snoc(s: Seq<EntryView>, other: Seq<EntryView>, e: EntryView)
    ensures
        merge_sets(s, other.push(e)) == merge_entry(merge_sets(s, other), e),
    decreases other.len(),
{
    let p = other.push(e);
    if other.len() == 0 {
        assert(p[0] == e);
        assert(p.skip(1) =~= Seq::<EntryView>::empty());
        assert(merge_sets(s, p) == merge_sets(merge_entry(s, e), p.skip(1)));
        assert(merge_sets(merge_entry(s, e), p.skip(1)) == merge_entry(s, e));
        assert(merge_sets(s, other) == s);
    } else {
        assert(p[0] == other[0]);
        assert(p.skip(1) =~= other.skip(1).push(e));
        let s1 = merge_entry(s, other[0]);
        lemma_merge_sets_snoc(s1, other.skip(1), e);
        assert(merge_sets(s, p) == merge_sets(s1, p.skip(1)));
        assert(merge_sets(s, other) == merge_sets(s1, other.skip(1)));
    }
}

pub proof fn lemma_set_add_defaults_wf(s: Seq<EntryView>, ns: Seq<char>, toks: Seq<Seq<char>>)
    requires
        wf_set(s),
        valid_namespace(ns),
        tokens_nonempty(toks),
    ensures
        wf_set(set_add_defaults(s, ns, toks)),
        set_add_defaults(s, ns, toks).len() >= s.len(),
{
    let r = set_add_defaults(s, ns, toks);
    if has_ns(s, ns) {
        let i = ns_index(s, ns);
        assert(0 <= i < s.len() && s[i].ns == ns);
        lemma_union_tokens_wf(s[i].cap.defaults, toks);
        assert(wf_entry(r[i]));
        assert(forall|k: int| 0 <= k < r.len() && k != i ==> r[k] == s[k]);
    } else {
        if union_tokens(Seq::empty(), toks).len() != 0 {
            assert(wf_actions(Seq::<Seq<char>>::empty()));
            lemma_union_tokens_wf(Seq::empty(), toks);
            assert(wf_entry(r[s.len() as int]));
            assert(forall|k: int| 0 <= k < s.len() ==> r[k] == s[k]);
            assert forall|i: int, j: int| #![trigger r[i], r[j]] 0 <= i < j < r.len() implies r[i].ns != r[j].ns by {
                if j == s.len() as int {
                    assert(!(s[i].ns == ns));
                }
            }
        }
    }
}

pub proof fn lemma_cap_add_resource_wf(c: CapView, res: Seq<char>, toks: Seq<Seq<char>>)
    requires
        wf_cap(c),
        tokens_nonempty(toks),
    ensures
        wf_cap(cap_add_resource(c, res, toks)),
{
    let r = cap_add_resource(c, res, toks);
    if has_res(c.grants, res) {
        let i = res_index(c.grants, res);
        assert(0 <= i < c.grants.len() && c.grants[i].resource == res);
        assert(wf_grant(c.grants[i]));
        lemma_union_tokens_wf(c.grants[i].actions, toks);
        assert(forall|k: int| 0 <= k < r.grants.len() && k != i ==> r.grants[k] == c.grants[k]);
        assert(wf_grant(r.grants[i]));
    } else {
        if union_tokens(Seq::empty(), toks).len() != 0 {
            assert(wf_actions(Seq::<Seq<char>>::empty()));
            lemma_union_tokens_wf(Seq::empty(), toks);
            assert(forall|k: int| 0 <= k < c.grants.len() ==> r.grants[k] == c.grants[k]);
            assert(wf_grant(r.grants[c.grants.len() as int]));
            assert forall|i: int, j: int|
                #![trigger r.grants[i], r.grants[j]]
                0 <= i < j < r.grants.len() implies r.grants[i].resource != r.grants[j].resource by {
                if j == c.grants.len() as int {
                    assert(!(c.grants[i].resource == res));
                }
            }
        }
    }
}

pub proof fn lemma_set_add_resource_wf(
    s: Seq<EntryView>,
    ns: Seq<char>,
    res: Seq<char>,
    toks: Seq<Seq<char>>,
)
    requires
        wf_set(s),
        valid_namespace(ns),
        tokens_nonempty(toks),
    ensures
        wf_set(set_add_resource(s, ns, res, toks)),
        set_add_resource(s, ns, res, toks).len() >= s.len(),
{
    let r = set_add_resource(s, ns, res, toks);
    if has_ns(s, ns) {
        let i = ns_index(s, ns);
        assert(0 <= i < s.len() && s[i].ns == ns);
        lemma_cap_add_resource_wf(s[i].cap, res, toks);
        assert(wf_entry(r[i]));
        assert(forall|k: int| 0 <= k < r.len() && k != i ==> r[k] == s[k]);
    } else {
        if union_tokens(Seq::empty(), toks).len() != 0 {
            assert(wf_actions(Seq::<Seq<char>>::empty()));
            lemma_union_tokens_wf(Seq::empty(), toks);
            let e = r[s.len() as int];
            assert(e.cap.grants[0] == GrantView {
                resource: res,
                actions: union_tokens(Seq::empty(), toks),
            });
            assert(wf_entry(e));
            assert(forall|k: int| 0 <= k < s.len() ==> r[k] == s[k]);
            assert forall|i: int, j: int| #![trigger r[i], r[j]] 0 <= i < j < r.len() implies r[i].ns != r[j].ns by {
                if j == s.len() as int {
                    assert(!(s[i].ns == ns));
                }
            }
        }
    }
}

/// Merging an entry whose namespace the set does not hold yet appends exactly
/// that entry: decode order cannot change the canonical content.
pub proof fn lemma_merge_fresh_entry(s: Seq<EntryView>, e: EntryView)
    requires
        wf_set(s),
        wf_entry(e),
        !has_ns(s, e.ns),
    ensures
        merge_entry(s, e) == s.push(e),
        wf_set(s.push(e)),
{
    let s1 = set_add_defaults(s, e.ns, e.cap.defaults);
    if e.cap.defaults.len() > 0 {
        lemma_union_identity(e.cap.defaults);
        let e0 = EntryView { ns: e.ns, cap: CapView { defaults: e.cap.defaults, grants: Seq::empty() } };
        assert(s1 =~= s.push(e0));
        assert(e0.cap.grants =~= e.cap.grants.take(0));
        assert(e.cap.grants.skip(0) =~= e.cap.grants);
        lemma_merge_grants_fills_last(s, e0, e.cap.grants, e);
        assert(merge_grants(s1, e.ns, e.cap.grants) == merge_grants(s.push(e0), e.ns, e.cap.grants));
    } else {
        assert(union_tokens(Seq::empty(), e.cap.defaults).len() == 0);
        assert(s1 == s);
        assert(e.cap.grants.len() > 0);
        let g0 = e.cap.grants[0];
        assert(wf_grant(g0));
        lemma_union_identity(g0.actions);
        let s2 = set_add_resource(s, e.ns, g0.resource, g0.actions);
        let e1 = EntryView {
            ns: e.ns,
            cap: CapView { defaults: Seq::empty(), grants: seq![g0] },
        };
        assert(s2 =~= s.push(e1));
        assert(e.cap.defaults =~= Seq::<Seq<char>>::empty());
        assert(e1.cap.defaults == e.cap.defaults);
        assert(e1.cap.grants =~= e.cap.grants.take(1));
        lemma_merge_grants_fills_last(s, e1, e.cap.grants.skip(1), e);
        assert(merge_grants(s1, e.ns, e.cap.grants) == merge_grants(s2, e.ns, e.cap.grants.skip(1)));
    }
    lemma_wf_push(s, e);
}

pub proof fn lemma_wf_push(s: Seq<EntryView>, e: EntryView)
    requires
        wf_set(s),
        wf_entry(e),
        !has_ns(s, e.ns),
    ensures
        wf_set(s.push(e)),
{
    let r = s.push(e);
    assert(forall|k: int| 0 <= k < s.len() ==> r[k] == s[k]);
    assert(r[s.len() as int] == e);
    assert forall|i: int, j: int| #![trigger r[i], r[j]] 0 <= i < j < r.len() implies r[i].ns != r[j].ns by {
        if j == s.len() as int {
            assert(!(s[i].ns == e.ns));
        }
    }
}

/// Helper for the fresh-entry lemma: once the fresh entry sits at the back of
/// the set with a prefix of its grants, merging the remaining grants extends
/// it in place until it equals the full entry.
proof fn lemma_merge_grants_fills_last(
    s: Seq<EntryView>,
    partial: EntryView,
    rest: Seq<GrantView>,
    e: EntryView,
)
    requires
        wf_set(s),
        wf_entry(e),
        !has_ns(s, e.ns),
        partial.ns == e.ns,
        partial.cap.defaults == e.cap.defaults,
        0 <= e.cap.grants.len() - rest.len(),
        partial.cap.grants == e.cap.grants.take(e.cap.grants.len() - rest.len()),
        rest == e.cap.grants.skip(e.cap.grants.len() - rest.len()),
    ensures
        merge_grants(s.push(partial), e.ns, rest) == s.push(e),
    decreases rest.len(),
{
    let done = (e.cap.grants.len() - rest.len()) as int;
    if rest.len() == 0 {
        assert(partial.cap.grants =~= e.cap.grants);
        assert(partial.cap =~= e.cap);
        assert(partial =~= e);
    } else {
        let g = rest[0];
        assert(g == e.cap.grants[done]);
        assert(wf_grant(g));
        let sp = s.push(partial);
        // the namespace is present exactly at the last position
        assert(sp[s.len() as int].ns == e.ns);
        assert(has_ns(sp, e.ns));
        let i = ns_index(sp, e.ns);
        assert(0 <= i < sp.len() && sp[i].ns == e.ns);
        assert forall|k: int| 0 <= k < s.len() implies sp[k].ns != e.ns by {
            assert(!(s[k].ns == e.ns));
        }
        assert(i == s.len() as int);
        // the resource is fresh in the partial entry
        assert forall|k: int| 0 <= k < partial.cap.grants.len() implies partial.cap.grants[k].resource
            != g.resource by {
            assert(partial.cap.grants[k] == e.cap.grants[k]);
            assert(e.cap.grants[k].resource != e.cap.grants[done].resource);
        }
        assert(!has_res(partial.cap.grants, g.resource));
        lemma_union_identity(g.actions);
        let newcap = cap_add_resource(partial.cap, g.resource, g.actions);
        assert(newcap.grants == partial.cap.grants.push(g));
        let partial2 = EntryView { ns: partial.ns, cap: newcap };
        assert(set_add_resource(sp, e.ns, g.resource, g.actions) =~= s.push(partial2));
        assert(partial2.cap.grants =~= e.cap.grants.take(done + 1)) by {
            assert(e.cap.grants.take(done + 1) =~= e.cap.grants.take(done).push(e.cap.grants[done]));
        }
        assert(rest.skip(1) =~= e.cap.grants.skip(done + 1));
        lemma_merge_grants_fills_last(s, partial2, rest.skip(1), e);
    }
}

// ------------------------------------------------------------------
// The executable Set.
// ------------------------------------------------------------------
/// The canonical aggregate of all declared grants, keyed by namespace in
/// first-declaration order. Mutation is union-merge only.
#[derive(Debug, PartialEq, Eq)]
pub struct CapabilitySet {
    pub entries: Vec<SetEntry>,
}

impl View for CapabilitySet {
    type V = Seq<EntryView>;

    open spec fn view(&self) -> Seq<EntryView> {
        self.entries@.map_values(|e: SetEntry| e@)
    }
}

/// True when every action string of the list is non-empty.
fn check_tokens(actions: &Vec<String>) -> (r: bool)
    ensures
        r == tokens_nonempty(actions.deep_view()),
{
    let mut i: usize = 0;
    while i < actions.len()
        invariant
            i <= actions.len(),
            forall|j: int| 0 <= j < i ==> (#[trigger] actions.deep_view()[j]).len() > 0,
        decreases actions.len() - i,
    {
        assert(actions.deep_view()[i as int] == actions@[i as int]@);
        if actions[i].as_str().is_empty() {
            return false;
        }
        i += 1;
    }
    true
}

/// True when the token list contains the given text.
fn contains_text(v: &Vec<String>, tok: &String) -> (r: bool)
    ensures
        r == v.deep_view().contains(tok@),
{
    let mut i: usize = 0;
    while i < v.len()
        invariant
            i <= v.len(),
            forall|j: int| 0 <= j < i ==> #[trigger] v.deep_view()[j] != tok@,
        decreases v.len() - i,
    {
        assert(v.deep_view()[i as int] == v@[i as int]@);
        if v[i].eq(tok) {
            assert(v.deep_view().contains(tok@));
            return true;
        }
        i += 1;
    }
    assert(forall|j: int| 0 <= j < v.deep_view().len() ==> #[trigger] v.deep_view()[j] != tok@);
    false
}

/// Union a list of tokens into a deduplicated destination list.
fn union_into(dst: &mut Vec<String>, toks: &Vec<String>)
    ensures
        final(dst).deep_view() == union_tokens(old(dst).deep_view(), toks.deep_view()),
{
    let ghost base = dst.deep_view();
    let ghost all = toks.deep_view();
    let mut i: usize = 0;
    while i < toks.len()
        invariant
            i <= toks.len(),
            all == toks.deep_view(),
            dst.deep_view() == union_tokens(base, all.take(i as int)),
        decreases toks.len() - i,
    {
        proof {
            lemma_union_snoc(base, all.take(i as int), all[i as int]);
            assert(all.take(i as int).push(all[i as int]) =~= all.take(i as int + 1));
            assert(all[i as int] == toks@[i as int]@);
        }
        let present = contains_text(dst, &toks[i]);
        if !present {
            let ghost before = dst.deep_view();
            dst.push(toks[i].clone());
            assert(dst.deep_view() =~= before.push(all[i as int]));
        }
        i += 1;
    }
    assert(all.take(toks.len() as int) =~= all);
}

impl CapabilitySet {
    /// A fresh, empty set.
    pub fn new() -> (r: CapabilitySet)
        ensures
            r@ == Seq::<EntryView>::empty(),
    {
        let r = CapabilitySet { entries: Vec::new() };
        proof {
            assert(r@ =~= Seq::<EntryView>::empty());
        }
        r
    }

    /// True iff no namespace entry remains.
    pub fn is_empty(&self) -> (r: bool)
        ensures
            r == (self@.len() == 0),
    {
        self.entries.len() == 0
    }

    /// The index of the entry for a namespace, if the set holds one.
    fn find_ns(&self, ns: &Namespace) -> (r: Option<usize>)
        ensures
            match r {
                Some(i) => i < self@.len() && self@[i as int].ns == ns@,
                None => !has_ns(self@, ns@),
            },
    {
        let mut i: usize = 0;
        while i < self.entries.len()
            invariant
                i <= self.entries.len(),
                forall|j: int| 0 <= j < i ==> #[trigger] self@[j].ns != ns@,
            decreases self.entries.len() - i,
        {
            assert(self@[i as int] == self.entries@[i as int]@);
            if self.entries[i].namespace.text_equals(ns) {
                return Some(i);
            }
            i += 1;
        }
        None
    }

    /// Union default actions for a namespace into the set.
    ///
    /// Callers who cannot show their action tokens non-empty use
    /// [`CapabilitySet::add_default_actions`] instead.
    pub fn add_defaults_checked(&mut self, ns: &Namespace, actions: &Vec<String>)
        requires
            wf_set(old(self)@),
            valid_namespace(ns@),
            tokens_nonempty(actions.deep_view()),
        ensures
            final(self)@ == set_add_defaults(old(self)@, ns@, actions.deep_view()),
            wf_set(final(self)@),
    {
        proof {
            lemma_set_add_defaults_wf(old(self)@, ns@, actions.deep_view());
        }
        let found = self.find_ns(ns);
        match found {
            Some(i) => {
                proof {
                    lemma_ns_index_unique(self@, ns@, i as int);
                }
                let mut e = self.entries.remove(i);
                union_into(&mut e.capability.default_actions, actions);
                self.entries.insert(i, e);
                assert(self@ =~= set_add_defaults(old(self)@, ns@, actions.deep_view()));
            },
            None => {
                let mut fresh: Vec<String> = Vec::new();
                assert(fresh.deep_view() =~= Seq::<Seq<char>>::empty());
                union_into(&mut fresh, actions);
                if fresh.len() > 0 {
                    let entry = SetEntry {
                        namespace: ns.duplicate(),
                        capability: Capability { default_actions: fresh, grants: Vec::new() },
                    };
                    assert(entry.capability@.grants =~= Seq::<GrantView>::empty());
                    self.entries.push(entry);
                }
                assert(self@ =~= set_add_defaults(old(self)@, ns@, actions.deep_view()));
            },
        }
    }

    /// Union actions for one resource of a namespace into the set.
    pub fn add_resource_checked(
        &mut self,
        ns: &Namespace,
        resource: &String,
        actions: &Vec<String>,
    )
        requires
            wf_set(old(self)@),
            valid_namespace(ns@),
            tokens_nonempty(actions.deep_view()),
        ensures
            final(self)@ == set_add_resource(old(self)@, ns@, resource@, actions.deep_view()),
            wf_set(final(self)@),
    {
        proof {
            lemma_set_add_resource_wf(old(self)@, ns@, resource@, actions.deep_view());
        }
        let found = self.find_ns(ns);
        match found {
            Some(i) => {
                proof {
                    lemma_ns_index_unique(self@, ns@, i as int);
                }
                let mut e = self.entries.remove(i);
                proof {
                    assert(e@ == old(self)@[i as int]);
                    assert(wf_entry(e@));
                }
                e.capability.union_resource(resource, actions);
                self.entries.insert(i, e);
                assert(self@ =~= set_add_resource(old(self)@, ns@, resource@, actions.deep_view()));
            },
            None => {
                let mut fresh: Vec<String> = Vec::new();
                assert(fresh.deep_view() =~= Seq::<Seq<char>>::empty());
                union_into(&mut fresh, actions);
                if fresh.len() > 0 {
                    let grant = ResourceGrant { resource: resource.clone(), actions: fresh };
                    let mut grants: Vec<ResourceGrant> = Vec::new();
                    grants.push(grant);
                    let entry = SetEntry {
                        namespace: ns.duplicate(),
                        capability: Capability { default_actions: Vec::new(), grants: grants },
                    };
                    assert(entry.capability@.defaults =~= Seq::<Seq<char>>::empty());
                    assert(entry.capability@.grants =~= seq![
                        GrantView {
                            resource: resource@,
                            actions: union_tokens(Seq::empty(), actions.deep_view()),
                        },
                    ]);
                    self.entries.push(entry);
                }
                assert(self@ =~= set_add_resource(old(self)@, ns@, resource@, actions.deep_view()));
            },
        }
    }

    /// Union default actions into the set, rejecting empty action tokens.
    pub fn add_default_actions(&mut self, ns: &Namespace, actions: &Vec<String>) -> (r: Result<
        (),
        Error,
    >)
        requires
            wf_set(old(self)@),
            valid_namespace(ns@),
        ensures
            match r {
                Ok(()) => tokens_nonempty(actions.deep_view()) && final(self)@
                    == set_add_defaults(old(self)@, ns@, actions.deep_view()) && wf_set(
                    final(self)@,
                ),
                Err(e) => e == Error::InvalidAction && !tokens_nonempty(actions.deep_view())
                    && final(self)@ == old(self)@,
            },
    {
        if !check_tokens(actions) {
            return Err(Error::InvalidAction);
        }
        self.add_defaults_checked(ns, actions);
        Ok(())
    }

    /// Union actions for one resource into the set, rejecting empty action
    /// tokens.
    pub fn add_resource_actions(
        &mut self,
        ns: &Namespace,
        resource: &String,
        actions: &Vec<String>,
    ) -> (r: Result<(), Error>)
        requires
            wf_set(old(self)@),
            valid_namespace(ns@),
        ensures
            match r {
                Ok(()) => tokens_nonempty(actions.deep_view()) && final(self)@
                    == set_add_resource(old(self)@, ns@, resource@, actions.deep_view()) && wf_set(
                    final(self)@,
                ),
                Err(e) => e == Error::InvalidAction && !tokens_nonempty(actions.deep_view())
                    && final(self)@ == old(self)@,
            },
    {
        if !check_tokens(actions) {
            return Err(Error::InvalidAction);
        }
        self.add_resource_checked(ns, resource, actions);
        Ok(())
    }

    /// Union another whole set into this one, namespace by namespace,
    /// default by default, resource by resource.
    pub fn merge(&mut self, other: &CapabilitySet)
        requires
            wf_set(old(self)@),
            wf_set(other@),
        ensures
            final(self)@ == merge_sets(old(self)@, other@),
            wf_set(final(self)@),
    {
        let ghost base = self@;
        let ghost oview = other@;
        let mut i: usize = 0;
        while i < other.entries.len()
            invariant
                i <= other.entries.len(),
                oview == other@,
                wf_set(oview),
                wf_set(self@),
                self@ == merge_sets(base, oview.take(i as int)),
            decreases other.entries.len() - i,
        {
            proof {
                lemma_merge_sets_snoc(base, oview.take(i as int), oview[i as int]);
                assert(oview.take(i as int).push(oview[i as int]) =~= oview.take(i as int + 1));
                assert(oview[i as int] == other.entries@[i as int]@);
                assert(wf_entry(oview[i as int]));
                assert(mergeable_entry(oview[i as int]));
            }
            self.merge_one(&other.entries[i]);
            i += 1;
        }
        assert(oview.take(other.entries.len() as int) =~= oview);
    }

    /// Union a single entry into the set.
    pub fn merge_one(&mut self, e: &SetEntry)
        requires
            wf_set(old(self)@),
            mergeable_entry(e@),
        ensures
            final(self)@ == merge_entry(old(self)@, e@),
            wf_set(final(self)@),
    {
        self.add_defaults_checked(&e.namespace, &e.capability.default_actions);
        let ghost mid = self@;
        let ghost gs = e@.cap.grants;
        let mut j: usize = 0;
        while j < e.capability.grants.len()
            invariant
                j <= e.capability.grants.len(),
                gs == e@.cap.grants,
                mergeable_entry(e@),
                wf_set(self@),
                valid_namespace(e.namespace@),
                e.namespace@ == e@.ns,
                self@ == merge_grants(mid, e@.ns, gs.take(j as int)),
            decreases e.capability.grants.len() - j,
        {
            proof {
                lemma_merge_grants_snoc(mid, e@.ns, gs.take(j as int), gs[j as int]);
                assert(gs.take(j as int).push(gs[j as int]) =~= gs.take(j as int + 1));
                assert(gs[j as int] == e.capability.grants@[j as int]@);
            }
            let g = &e.capability.grants[j];
            self.add_resource_checked(&e.namespace, &g.resource, &g.actions);
            j += 1;
        }
        assert(gs.take(e.capability.grants.len() as int) =~= gs);
    }
}

impl Capability {
    /// Union actions for one resource into this capability.
    fn union_resource(&mut self, resource: &String, actions: &Vec<String>)
        requires
            forall|a: int, b: int|
                #![trigger old(self)@.grants[a], old(self)@.grants[b]]
                0 <= a < b < old(self)@.grants.len() ==> old(self)@.grants[a].resource != old(
                    self,
                )@.grants[b].resource,
        ensures
            final(self)@ == cap_add_resource(old(self)@, resource@, actions.deep_view()),
    {
        let found = self.find_res(resource);
        match found {
            Some(j) => {
                proof {
                    lemma_res_index_unique_any(old(self)@.grants, resource@, j as int);
                }
                let mut g = self.grants.remove(j);
                union_into(&mut g.actions, actions);
                self.grants.insert(j, g);
                assert(self@.grants =~= cap_add_resource(old(self)@, resource@, actions.deep_view()).grants);
                assert(self@ =~= cap_add_resource(old(self)@, resource@, actions.deep_view()));
            },
            None => {
                let mut fresh: Vec<String> = Vec::new();
                assert(fresh.deep_view() =~= Seq::<Seq<char>>::empty());
                union_into(&mut fresh, actions);
                if fresh.len() > 0 {
                    self.grants.push(ResourceGrant { resource: resource.clone(), actions: fresh });
                }
                assert(self@ =~= cap_add_resource(old(self)@, resource@, actions.deep_view()));
            },
        }
    }

    /// The index of the grant for a resource, if the capability holds one.
    fn find_res(&self, resource: &String) -> (r: Option<usize>)
        ensures
            match r {
                Some(j) => j < self@.grants.len() && self@.grants[j as int].resource == resource@,
                None => !has_res(self@.grants, resource@),
            },
    {
        let mut j: usize = 0;
        while j < self.grants.len()
            invariant
                j <= self.grants.len(),
                forall|k: int| 0 <= k < j ==> #[trigger] self@.grants[k].resource != resource@,
            decreases self.grants.len() - j,
        {
            assert(self@.grants[j as int] == self.grants@[j as int]@);
            if self.grants[j].resource.eq(resource) {
                return Some(j);
            }
            j += 1;
        }
        None
    }
}

/// In a well-formed set the witness `ns_index` picks is the only entry with
/// its namespace.
pub proof fn lemma_ns_index_unique(s: Seq<EntryView>, ns: Seq<char>, i: int)
    requires
        wf_set(s),
        0 <= i < s.len(),
        s[i].ns == ns,
    ensures
        has_ns(s, ns),
        ns_index(s, ns) == i,
{
    assert(has_ns(s, ns));
    let j = ns_index(s, ns);
    assert(0 <= j < s.len() && s[j].ns == ns);
    if i < j {
        assert(s[i].ns != s[j].ns);
    } else if j < i {
        assert(s[j].ns != s[i].ns);
    }
}

/// Likewise for `res_index` over grants with distinct resources.
pub proof fn lemma_res_index_unique_any(gs: Seq<GrantView>, res: Seq<char>, j: int)
    requires
        forall|a: int, b: int| #![trigger gs[a], gs[b]] 0 <= a < b < gs.len() ==> gs[a].resource != gs[b].resource,
        0 <= j < gs.len(),
        gs[j].resource == res,
    ensures
        has_res(gs, res),
        res_index(gs, res) == j,
{
    assert(has_res(gs, res));
    let k = res_index(gs, res);
    assert(0 <= k < gs.len() && gs[k].resource == res);
    if j < k {
        assert(gs[j].resource != gs[k].resource);
    } else if k < j {
        assert(gs[k].resource != gs[j].resource);
    }
}

} // verus!
