//! Name resolution over a project: lexical scopes, packages, root
//! declarations, visibility-aware imports, qualified and feature-chain
//! segments, and members inherited through types and specializations.
//! Resolution is guarded against cycles by the lookups in progress; the
//! number of lookups that can be in progress at once is finite, which is what
//! makes every resolution terminate.

use vstd::prelude::*;
use vstd::set_lib::{lemma_int_range, lemma_len_subset, set_int_range};
use crate::idset::IdSet;
use crate::marks::Marks;
use crate::project::{ElementId, Import, ImportVisibility, Project, Reference, ReferenceForm, SourceId, Span};
use crate::strings::owned;

verus! {

#[derive(Debug, Clone, Copy, PartialEq, Eq, Structural)]
pub enum Resolution {
    Found(ElementId),
    Missing,
    Ambiguous,
}

/// A reference on the way to a resolution that did not resolve uniquely.
pub struct ResolutionFailure {
    pub span: Span,
    pub text: String,
    pub resolution: Resolution,
}

/// The resolution of a reference with what was learned on the way: every
/// candidate seen, the candidates reached without any failure, the failures
/// of parent relationships traversed, and whether an unresolved or ambiguous
/// result stands on its own rather than following from those failures.
pub struct ResolutionOutcome {
    pub resolution: Resolution,
    pub known_ids: IdSet,
    pub definite_ids: IdSet,
    pub failures: Vec<ResolutionFailure>,
    pub main_is_proven: bool,
}

#[derive(Debug, Clone, Copy, PartialEq, Eq, Structural)]
pub enum MemberAccess {
    Local,
    Qualified,
}

#[derive(Debug, Clone, Copy, PartialEq, Eq, Structural)]
pub enum ImportLookupScope {
    Root(SourceId),
    Owned(ElementId),
}

/// The lookups in progress: import targets by source and start byte, and
/// member lookups by parent, name and qualified access.
pub struct ResolutionState {
    pub imports: Vec<(usize, usize)>,
    pub members: Vec<(usize, usize, bool)>,
}

pub open spec fn import_key(import: Import) -> (usize, usize) {
    (import.span.source, import.span.start.byte)
}

pub open spec fn member_code(key: (usize, usize, bool), names: int) -> int {
    (key.0 * names + key.1) * 2 + if key.2 { 1int } else { 0int }
}

pub proof fn lemma_distinct_bounded(codes: Seq<int>, u: int)
    requires
        codes.no_duplicates(),
        0 <= u,
        forall|j: int| 0 <= j < codes.len() ==> 0 <= #[trigger] codes[j] < u,
    ensures
        codes.len() <= u,
{
    codes.unique_seq_to_set();
    lemma_int_range(0, u);
    assert(codes.to_set().subset_of(set_int_range(0, u)));
    lemma_len_subset(codes.to_set(), set_int_range(0, u));
}

proof fn lemma_member_code_range(p: int, q: int, r: int, n: int, m: int)
    requires
        0 <= p < n,
        0 <= q < m,
        0 <= r <= 1,
    ensures
        0 <= (p * m + q) * 2 + r < n * m * 2,
{
    assert(p * m + q < n * m) by (nonlinear_arith)
        requires
            0 <= p < n,
            0 <= q < m,
    {
        assert(p * m <= (n - 1) * m);
    }
    assert(0 <= p * m) by (nonlinear_arith)
        requires
            0 <= p,
            0 <= m,
    ;
}

proof fn lemma_member_code_injective(p1: int, q1: int, r1: int, p2: int, q2: int, r2: int, m: int)
    requires
        0 <= p1,
        0 <= p2,
        0 <= q1 < m,
        0 <= q2 < m,
        0 <= r1 <= 1,
        0 <= r2 <= 1,
        (p1 * m + q1) * 2 + r1 == (p2 * m + q2) * 2 + r2,
    ensures
        p1 == p2 && q1 == q2 && r1 == r2,
{
    assert(r1 == r2);
    assert(p1 * m + q1 == p2 * m + q2);
    assert(p1 == p2) by (nonlinear_arith)
        requires
            0 <= p1,
            0 <= p2,
            0 <= q1 < m,
            0 <= q2 < m,
            p1 * m + q1 == p2 * m + q2,
    {
        if p1 < p2 {
            assert(p1 * m + m <= p2 * m);
        } else if p2 < p1 {
            assert(p2 * m + m <= p1 * m);
        }
    }
}

/// Some failure in `list` has span `s`.
pub open spec fn span_in(s: Span, list: Seq<ResolutionFailure>) -> bool {
    exists|k: int| 0 <= k < list.len() && #[trigger] list[k].span == s
}

/// Element `id` is directly owned by `parent` (by nothing, for `None`) and
/// has the given name or short name.
pub open spec fn is_member_named(p: &Project, id: usize, parent: Option<ElementId>, name: usize) -> bool {
    &&& id < p.elements@.len()
    &&& p.elements@[id as int].owner == parent
    &&& (p.elements@[id as int].name_id == Some(name) || p.elements@[id as int].short_name_id == Some(name))
}

/// Element `x` is the only member of `parent` named `name`.
pub open spec fn sole_member(p: &Project, x: usize, parent: Option<ElementId>, name: usize) -> bool {
    &&& is_member_named(p, x, parent, name)
    &&& forall|y: usize| #[trigger] is_member_named(p, y, parent, name) ==> y == x
}

/// Reference `r` is one plain name written in the scope of `owner`, and `x`
/// is the only member of that scope with the name.
pub open spec fn direct_target(p: &Project, r: Reference, owner: Option<ElementId>, x: usize) -> bool {
    &&& r.names@.len() == 1
    &&& r.form != ReferenceForm::FeatureChain
    &&& owner matches Some(scope) && sole_member(p, x, Some(scope), r.names@[0])
}

/// `o` is the clean result of the members of `parent` named `name`: found
/// when there is one, ambiguous when there are more, with exactly them as
/// its candidates and nothing failed on the way.
pub open spec fn direct_result(p: &Project, o: ResolutionOutcome, parent: Option<ElementId>, name: usize) -> bool {
    &&& o.resolution != Resolution::Missing
    &&& forall|x: usize| #[trigger] sole_member(p, x, parent, name) ==> o.resolution == Resolution::Found(x)
    &&& o.failures@.len() == 0
    &&& forall|id: usize| #[trigger] o.known_ids.has(id) <==> is_member_named(p, id, parent, name)
    &&& (o.resolution matches Resolution::Found(x) ==> is_member_named(p, x, parent, name))
}

/// Element `id` carries `name` as its name or short name.
pub open spec fn carries_name(p: &Project, id: usize, name: usize) -> bool {
    &&& id < p.elements@.len()
    &&& (p.elements@[id as int].name_id == Some(name) || p.elements@[id as int].short_name_id == Some(name))
}

/// A found outcome has its element as its only candidate, and an unresolved
/// one has no candidate.
pub open spec fn single_known(o: ResolutionOutcome) -> bool {
    &&& (o.resolution matches Resolution::Found(x) ==> forall|y: usize| #[trigger] o.known_ids.has(y) ==> y == x)
    &&& (o.resolution is Missing ==> forall|y: usize| !(#[trigger] o.known_ids.has(y)))
}

/// What `o` finds carries `name`.
pub open spec fn finds_named(p: &Project, o: ResolutionOutcome, name: usize) -> bool {
    &&& single_known(o)
    &&& (o.resolution matches Resolution::Found(x) ==> carries_name(p, x, name))
}

/// What `o` finds carries the last name of reference `r`; a reference with
/// no name finds nothing.
pub open spec fn finds_reference(p: &Project, o: ResolutionOutcome, r: Reference) -> bool {
    if r.names@.len() == 0 {
        o.resolution is Missing && single_known(o)
    } else {
        finds_named(p, o, r.names@.last())
    }
}

/// Element `id` carries the last name of reference `r`.
pub open spec fn carries_reference_name(p: &Project, r: Reference, id: usize) -> bool {
    r.names@.len() > 0 && carries_name(p, id, r.names@.last())
}

pub struct Resolver<'a> {
    pub project: &'a Project,
}

impl ResolutionOutcome {
    /// Element numbers and failure spans of the outcome lie within the project.
    pub open spec fn ok(&self, p: &Project) -> bool {
        &&& (self.resolution matches Resolution::Found(id) ==> id < p.elements@.len())
        &&& self.known_ids.wf() && self.known_ids.below(p.elements@.len())
        &&& self.definite_ids.wf() && self.definite_ids.below(p.elements@.len())
        &&& forall|j: int| 0 <= j < self.failures@.len() ==> #[trigger] p.span_ok(self.failures@[j].span)
    }

    /// The outcome of a set of candidates: none is missing, one is found, more
    /// are ambiguous and, being distinct, stand on their own.
    pub fn from_candidates(candidates: &IdSet) -> (o: Self)
        requires
            candidates.wf(),
        ensures
            o.known_ids.items@ == candidates.items@,
            o.definite_ids.items@ == candidates.items@,
            o.failures@.len() == 0,
            o.resolution == (if candidates.items@.len() == 0 {
                Resolution::Missing
            } else if candidates.items@.len() == 1 {
                Resolution::Found(candidates.items@[0])
            } else {
                Resolution::Ambiguous
            }),
            o.main_is_proven == (candidates.items@.len() > 1),
            single_known(o),
            o.resolution matches Resolution::Found(x) ==> candidates.has(x),
    {
        let n = candidates.len();
        let resolution = if n == 0 {
            Resolution::Missing
        } else if n == 1 {
            Resolution::Found(candidates.items[0])
        } else {
            Resolution::Ambiguous
        };
        ResolutionOutcome {
            resolution,
            known_ids: candidates.clone_set(),
            definite_ids: candidates.clone_set(),
            failures: Vec::new(),
            main_is_proven: n > 1,
        }
    }

    pub fn missing() -> (o: Self)
        ensures
            o.resolution == Resolution::Missing,
            o.known_ids.items@.len() == 0,
            o.definite_ids.items@.len() == 0,
            o.failures@.len() == 0,
            !o.main_is_proven,
            o.known_ids.wf() && o.definite_ids.wf(),
            single_known(o),
    {
        ResolutionOutcome {
            resolution: Resolution::Missing,
            known_ids: IdSet::new(),
            definite_ids: IdSet::new(),
            failures: Vec::new(),
            main_is_proven: false,
        }
    }

    /// Adds each failure that is not yet recorded for the same span and result.
    pub(crate) fn extend_failures(&mut self, failures: Vec<ResolutionFailure>)
        ensures
            final(self).resolution == old(self).resolution,
            final(self).known_ids == old(self).known_ids,
            final(self).definite_ids == old(self).definite_ids,
            final(self).main_is_proven == old(self).main_is_proven,
            old(self).failures@.len() <= final(self).failures@.len(),
            failures@.len() > 0 ==> final(self).failures@.len() > 0,
            failures@.len() == 0 ==> final(self).failures@ == old(self).failures@,
            forall|j: int| 0 <= j < final(self).failures@.len() ==> span_in(#[trigger] final(self).failures@[j].span,
                old(self).failures@) || span_in(final(self).failures@[j].span, failures@),
            forall|j: int| 0 <= j < failures@.len() ==> recorded(final(self).failures@, #[trigger] failures@[j]),
    {
        extend_failure_list(&mut self.failures, failures);
        proof {
            if failures@.len() == 0 {
                assert(self.failures@ =~= old(self).failures@);
            }
        }
    }

    /// Records failures of a higher-precedence scope; when there are any, no
    /// candidate is definite and no result stands on its own.
    pub(crate) fn extend_higher_precedence_failures(&mut self, failures: Vec<ResolutionFailure>)
        requires
            old(self).definite_ids.wf(),
        ensures
            final(self).resolution == old(self).resolution,
            final(self).known_ids == old(self).known_ids,
            final(self).definite_ids.wf(),
            failures@.len() > 0 ==> final(self).definite_ids.items@.len() == 0 && !final(self).main_is_proven,
            failures@.len() == 0 ==> final(self).definite_ids == old(self).definite_ids
                && final(self).main_is_proven == old(self).main_is_proven
                && final(self).failures@ == old(self).failures@,
            forall|j: int| 0 <= j < final(self).failures@.len() ==> span_in(#[trigger] final(self).failures@[j].span,
                old(self).failures@) || span_in(final(self).failures@[j].span, failures@),
    {
        let tainted = failures.len() > 0;
        let ghost empty = failures@.len() == 0;
        extend_failure_list(&mut self.failures, failures);
        proof {
            if empty {
                assert(self.failures@ =~= old(self).failures@);
            }
        }
        if tainted {
            self.definite_ids.clear();
            self.main_is_proven = false;
        }
    }

    /// Continues from this outcome to the resolution of the next segment: the
    /// next segment's result, with this outcome's failures carried along. A
    /// failure on the way leaves nothing definite, and an unresolved or
    /// ambiguous result stands on its own when the next step itself was clean
    /// or already stood on its own.
    pub(crate) fn advance(self, next: Self) -> (o: Self)
        requires
            next.definite_ids.wf(),
        ensures
            o.resolution == next.resolution,
            o.known_ids == next.known_ids,
            o.definite_ids.wf(),
            self.failures@.len() > 0 ==> o.definite_ids.items@.len() == 0,
            self.failures@.len() == 0 ==> o.definite_ids == next.definite_ids,
            o.main_is_proven == (next.main_is_proven || (self.failures@.len() > 0
                && !(next.resolution is Found) && next.failures@.len() == 0)),
            forall|j: int| 0 <= j < o.failures@.len() ==> span_in(#[trigger] o.failures@[j].span,
                next.failures@) || span_in(o.failures@[j].span, self.failures@),
    {
        let prefix_was_tainted = self.failures.len() > 0;
        let next_was_clean = next.failures.len() == 0;
        let next_was_independently_proven = next.main_is_proven;
        let mut next = next;
        let resolution = next.resolution;
        extend_failure_list(&mut next.failures, self.failures);
        if prefix_was_tainted {
            next.definite_ids.clear();
            if !matches!(resolution, Resolution::Found(_)) && (next_was_clean || next_was_independently_proven) {
                next.main_is_proven = true;
            }
        }
        next
    }
}

/// Appends each failure whose span and result are not yet in `list`.
pub(crate) fn extend_failure_list(list: &mut Vec<ResolutionFailure>, failures: Vec<ResolutionFailure>)
    ensures
        old(list)@.len() <= final(list)@.len() <= old(list)@.len() + failures@.len(),
        forall|j: int| 0 <= j < failures@.len() ==> recorded(final(list)@, #[trigger] failures@[j]),
        failures@.len() > 0 ==> final(list)@.len() > 0,
        forall|j: int| 0 <= j < old(list)@.len() ==> #[trigger] final(list)@[j] == old(list)@[j],
        forall|j: int| 0 <= j < final(list)@.len() ==> span_in(#[trigger] final(list)@[j].span, old(list)@)
            || span_in(final(list)@[j].span, failures@),
{
    let ghost start = list@;
    let mut failures = failures;
    let ghost incoming = failures@;
    // take the failures out front to back
    let mut pending: Vec<ResolutionFailure> = Vec::new();
    while failures.len() > 0
        invariant
            failures@.len() + pending@.len() == incoming.len(),
            forall|j: int| 0 <= j < pending@.len() ==> #[trigger] pending@[j] == incoming[incoming.len() - 1 - j],
            forall|j: int| 0 <= j < failures@.len() ==> #[trigger] failures@[j] == incoming[j],
        decreases failures@.len(),
    {
        let f = failures.pop().unwrap();
        pending.push(f);
    }
    while pending.len() > 0
        invariant
            start.len() <= list@.len(),
            pending@.len() <= incoming.len(),
            forall|j: int| 0 <= j < pending@.len() ==> #[trigger] pending@[j] == incoming[incoming.len() - 1 - j],
            incoming.len() > 0 && pending@.len() < incoming.len() ==> list@.len() > 0,
            forall|j: int| 0 <= j < start.len() ==> #[trigger] list@[j] == start[j],
            forall|j: int| 0 <= j < list@.len() ==> span_in(#[trigger] list@[j].span, start)
                || span_in(list@[j].span, incoming),
            list@.len() <= start.len() + (incoming.len() - pending@.len()),
            forall|j: int| 0 <= j < incoming.len() - pending@.len() ==> recorded(list@, #[trigger] incoming[j]),
        decreases pending@.len(),
    {
        let failure = pending.pop().unwrap();
        let ghost idx = incoming.len() - 1 - pending@.len();
        assert(failure == incoming[idx]);
        let mut present = false;
        let mut j: usize = 0;
        while j < list.len()
            invariant
                j <= list@.len(),
                present ==> recorded(list@, failure),
            decreases list@.len() - j,
        {
            if list[j].span == failure.span && list[j].resolution == failure.resolution {
                present = true;
                assert(same_failure(list@[j as int], failure));
            }
            j = j + 1;
        }
        if !present {
            let ghost before = list@;
            list.push(failure);
            proof {
                assert forall|j: int| 0 <= j < list@.len() implies span_in(#[trigger] list@[j].span, start)
                    || span_in(list@[j].span, incoming) by {
                    if j < before.len() {
                        assert(list@[j] == before[j]);
                    } else {
                        assert(incoming[idx].span == list@[j].span);
                    }
                }
                assert(same_failure(list@[list@.len() - 1], failure));
                assert forall|j: int| 0 <= j < incoming.len() - pending@.len() implies recorded(list@,
                    #[trigger] incoming[j]) by {
                    if j < idx {
                        let k = choose|k: int| 0 <= k < before.len() && same_failure(#[trigger] before[k], incoming[j]);
                        assert(list@[k] == before[k]);
                    }
                }
            }
        }
    }
}

/// Failures `a` and `b` have the same span and result.
pub open spec fn same_failure(a: ResolutionFailure, b: ResolutionFailure) -> bool {
    a.span == b.span && a.resolution == b.resolution
}

/// `list` records a failure with the span and result of `f`.
pub open spec fn recorded(list: Seq<ResolutionFailure>, f: ResolutionFailure) -> bool {
    exists|k: int| 0 <= k < list.len() && same_failure(#[trigger] list[k], f)
}

/// A tally of candidate outcomes from several lookups of one name.
pub struct ResolutionCandidates {
    pub known_ids: IdSet,
    pub definite_ids: IdSet,
    pub ambiguous: bool,
    pub proven_ambiguous: bool,
    pub proven_missing: bool,
    pub failures: Vec<ResolutionFailure>,
}

impl ResolutionCandidates {
    pub open spec fn ok(&self, p: &Project) -> bool {
        &&& self.known_ids.wf() && self.known_ids.below(p.elements@.len())
        &&& self.definite_ids.wf() && self.definite_ids.below(p.elements@.len())
        &&& forall|j: int| 0 <= j < self.failures@.len() ==> #[trigger] p.span_ok(self.failures@[j].span)
    }

    /// Unless an outcome was ambiguous, every candidate carries `name`.
    pub open spec fn all_named(&self, p: &Project, name: usize) -> bool {
        !self.ambiguous ==> forall|y: usize| #[trigger] self.known_ids.has(y) ==> carries_name(p, y, name)
    }

    pub(crate) fn new() -> (c: Self)
        ensures
            c.known_ids.wf() && c.definite_ids.wf(),
            c.known_ids.items@.len() == 0 && c.definite_ids.items@.len() == 0,
            c.failures@.len() == 0,
            !c.ambiguous && !c.proven_ambiguous && !c.proven_missing,
    {
        ResolutionCandidates {
            known_ids: IdSet::new(),
            definite_ids: IdSet::new(),
            ambiguous: false,
            proven_ambiguous: false,
            proven_missing: false,
            failures: Vec::new(),
        }
    }

    /// Adds one outcome: its candidates, its definite candidates when it is
    /// clean, its failures, and whether it is ambiguous or stands unresolved.
    pub(crate) fn add_outcome(&mut self, outcome: ResolutionOutcome, Ghost(p): Ghost<&Project>)
        requires
            old(self).ok(p),
            outcome.ok(p),
        ensures
            final(self).ok(p),
            final(self).ambiguous == (old(self).ambiguous || outcome.resolution is Ambiguous),
            final(self).proven_ambiguous == (old(self).proven_ambiguous || (outcome.resolution is Ambiguous
                && outcome.main_is_proven)),
            final(self).proven_missing == (old(self).proven_missing || (outcome.resolution is Missing
                && outcome.main_is_proven)),
            forall|name: usize| old(self).all_named(p, name) && finds_named(p, outcome, name) ==> #[trigger] final(
                self).all_named(p, name),
    {
        let clean = outcome.failures.len() == 0;
        self.known_ids.extend(&outcome.known_ids);
        if clean {
            self.definite_ids.extend(&outcome.definite_ids);
        }
        let resolution = outcome.resolution;
        let main_is_proven = outcome.main_is_proven;
        let ghost old_failures = self.failures@;
        let ghost new_failures = outcome.failures@;
        extend_failure_list(&mut self.failures, outcome.failures);
        match resolution {
            Resolution::Found(id) => {
                self.known_ids.insert(id);
                if clean {
                    self.definite_ids.insert(id);
                }
            }
            Resolution::Ambiguous => {
                self.ambiguous = true;
                self.proven_ambiguous = self.proven_ambiguous || main_is_proven;
            }
            Resolution::Missing => {
                self.proven_missing = self.proven_missing || main_is_proven;
            }
        }
        proof {
            crate::idset::lemma_below_from_has(&self.known_ids, p.elements@.len());
            crate::idset::lemma_below_from_has(&self.definite_ids, p.elements@.len());
            assert forall|name: usize| old(self).all_named(p, name) && finds_named(p, outcome, name) implies #[trigger] self.all_named(
                p, name) by {
                if !self.ambiguous {
                    assert forall|y: usize| #[trigger] self.known_ids.has(y) implies carries_name(p, y, name) by {
                        if !old(self).known_ids.has(y) && !outcome.known_ids.has(y) {
                            assert(outcome.resolution == Resolution::Found(y));
                        }
                    }
                }
            }
        }
    }

    /// The combined outcome: ambiguous when any outcome was or more than one
    /// candidate was seen, found when exactly one was, missing otherwise.
    pub(crate) fn finish(self, Ghost(p): Ghost<&Project>) -> (o: ResolutionOutcome)
        requires
            self.ok(p),
        ensures
            o.ok(p),
            o.resolution == (if self.ambiguous || self.known_ids.items@.len() > 1 {
                Resolution::Ambiguous
            } else if self.known_ids.items@.len() == 1 {
                Resolution::Found(self.known_ids.items@[0])
            } else {
                Resolution::Missing
            }),
            o.main_is_proven == match o.resolution {
                Resolution::Ambiguous => self.definite_ids.items@.len() > 1 || self.proven_ambiguous,
                Resolution::Missing => self.proven_missing,
                Resolution::Found(_) => false,
            },
            o.known_ids == self.known_ids,
            o.definite_ids == self.definite_ids,
            o.failures@ == self.failures@,
            forall|name: usize| self.all_named(p, name) ==> #[trigger] finds_named(p, o, name),
    {
        let distinct_known_ids = self.known_ids.len();
        let resolution = if self.ambiguous || distinct_known_ids > 1 {
            Resolution::Ambiguous
        } else {
            match self.known_ids.first() {
                Some(id) => Resolution::Found(id),
                None => Resolution::Missing,
            }
        };
        let main_is_proven = match resolution {
            Resolution::Ambiguous => self.definite_ids.len() > 1 || self.proven_ambiguous,
            Resolution::Missing => self.proven_missing,
            Resolution::Found(_) => false,
        };
        let o = ResolutionOutcome {
            resolution,
            known_ids: self.known_ids,
            definite_ids: self.definite_ids,
            failures: self.failures,
            main_is_proven,
        };
        proof {
            if let Resolution::Found(x) = resolution {
                assert(o.known_ids.has(x));
                assert forall|y: usize| #[trigger] o.known_ids.has(y) implies y == x by {
                    let j = choose|j: int| 0 <= j < o.known_ids.items@.len() && o.known_ids.items@[j] == y;
                }
            }
        }
        o
    }
}


/// Whether an import takes part in a lookup of the given access: private
/// imports only locally, public imports owned by a namespace in both local and
/// qualified lookups.
pub open spec fn import_visible(import: Import, access: MemberAccess) -> bool {
    match (import.visibility, access) {
        (ImportVisibility::Private, MemberAccess::Local) => true,
        (ImportVisibility::Public, _) => import.scope.is_some(),
        _ => false,
    }
}

pub(crate) fn import_is_visible(import: &Import, access: MemberAccess) -> (b: bool)
    ensures
        b == import_visible(*import, access),
{
    match (import.visibility, access) {
        (ImportVisibility::Private, MemberAccess::Local) => true,
        (ImportVisibility::Public, _) => import.scope.is_some(),
        _ => false,
    }
}

/// Import `import` takes part in a lookup of `scope` for `access`: it
/// belongs to the scope, is visible for the access, and is of a kind that
/// this profile supports (not `all`, not recursive, not filtered).
pub open spec fn takes_part(scope: ImportLookupScope, import: Import, access: MemberAccess) -> bool {
    &&& scope_contains(scope, import)
    &&& !import.all && !import.recursive && !import.filtered
    &&& import_visible(import, access)
}

/// Looking up `name` in `scope` for `access` finds nothing there: no member
/// of the scope carries the name, none of its imports takes part in the
/// lookup, and it has no declared type or specialization to inherit from.
pub open spec fn empty_scope(p: &Project, scope: ElementId, name: usize, access: MemberAccess) -> bool {
    &&& forall|id: usize| !#[trigger] is_member_named(p, id, Some(scope), name)
    &&& forall|j: int| 0 <= j < p.imports@.len() ==> !takes_part(ImportLookupScope::Owned(scope),
        #[trigger] p.imports@[j], access)
    &&& p.elements@[scope as int].declared_types@.len() == 0
    &&& p.elements@[scope as int].specializations@.len() == 0
}

/// Walking out from scope `current` through enclosing owners, looking up a
/// simple name, reaches `target` first: every scope before it is empty for
/// the name, each is met once, and `target` has a member of that name and is
/// not being looked up already.
pub open spec fn walks_to(p: &Project, current: ElementId, name: usize, target: ElementId, members: Seq<(
    usize,
    usize,
    bool,
)>, seen: Set<ElementId>, fuel: nat) -> bool
    decreases fuel,
{
    &&& fuel > 0
    &&& current < p.elements@.len()
    &&& !seen.contains(current)
    &&& if current == target {
        !members.contains((current, name, false)) && exists|id: usize| is_member_named(p, id, Some(current), name)
    } else {
        &&& empty_scope(p, current, name, MemberAccess::Local)
        &&& p.elements@[current as int].owner matches Some(next)
        &&& walks_to(p, next, name, target, members, seen.insert(current), (fuel - 1) as nat)
    }
}

pub open spec fn scope_contains(scope: ImportLookupScope, import: Import) -> bool {
    match scope {
        ImportLookupScope::Root(source) => import.scope.is_none() && import.span.source == source,
        ImportLookupScope::Owned(owner) => import.scope == Some(owner),
    }
}

impl ImportLookupScope {
    pub(crate) fn contains(self, import: &Import) -> (b: bool)
        ensures
            b == scope_contains(self, *import),
    {
        match self {
            ImportLookupScope::Root(source) => import.scope.is_none() && import.span.source == source,
            ImportLookupScope::Owned(owner) => import.scope == Some(owner),
        }
    }
}

impl ResolutionState {
    pub(crate) fn new() -> (st: Self)
        ensures
            st.imports@.len() == 0,
            st.members@.len() == 0,
    {
        ResolutionState { imports: Vec::new(), members: Vec::new() }
    }
}

impl<'a> Resolver<'a> {
    pub open spec fn n(&self) -> nat {
        self.project.elements@.len()
    }

    pub open spec fn member_universe(&self) -> int {
        (self.project.elements@.len() * self.project.names@.len() * 2) as int
    }

    /// Lookups that can still be started before every possible one is in progress.
    pub open spec fn budget(&self, st: &ResolutionState) -> int {
        self.member_universe() - st.members@.len() + self.project.imports@.len() - st.imports@.len()
    }

    /// The lookups in progress are distinct and name existing parents, names and imports.
    pub open spec fn state_ok(&self, st: &ResolutionState) -> bool {
        &&& forall|j: int| 0 <= j < st.members@.len() ==> (#[trigger] st.members@[j]).0 < self.project.elements@.len()
            && st.members@[j].1 < self.project.names@.len()
        &&& st.members@.no_duplicates()
        &&& forall|j: int| 0 <= j < st.imports@.len() ==> self.is_import_key(#[trigger] st.imports@[j])
        &&& st.imports@.no_duplicates()
    }

    /// Some import of the project starts at this source and byte.
    pub open spec fn is_import_key(&self, key: (usize, usize)) -> bool {
        exists|i: int| 0 <= i < self.project.imports@.len() && #[trigger] import_key(self.project.imports@[i]) == key
    }

    pub proof fn lemma_budget_nonnegative(&self, st: &ResolutionState)
        requires
            self.state_ok(st),
        ensures
            self.budget(st) >= 0,
            st.members@.len() <= self.member_universe(),
            st.imports@.len() <= self.project.imports@.len(),
    {
        let n = self.project.elements@.len() as int;
        let m = self.project.names@.len() as int;
        let codes = st.members@.map_values(|k: (usize, usize, bool)| member_code(k, m));
        assert forall|j: int| 0 <= j < codes.len() implies 0 <= #[trigger] codes[j] < n * m * 2 by {
            let k = st.members@[j];
            lemma_member_code_range(k.0 as int, k.1 as int, if k.2 { 1int } else { 0int }, n, m);
        }
        assert forall|a: int, b: int| 0 <= a < codes.len() && 0 <= b < codes.len() && a != b
            implies codes[a] != codes[b] by {
            let ka = st.members@[a];
            let kb = st.members@[b];
            if codes[a] == codes[b] {
                lemma_member_code_injective(
                    ka.0 as int, ka.1 as int, if ka.2 { 1int } else { 0int },
                    kb.0 as int, kb.1 as int, if kb.2 { 1int } else { 0int }, m);
                assert(ka == kb);
            }
        }
        assert(0 <= n * m * 2) by (nonlinear_arith)
            requires
                0 <= n,
                0 <= m,
        ;
        lemma_distinct_bounded(codes, n * m * 2);
        let witnesses = st.imports@.map_values(|key: (usize, usize)| choose|i: int| 0 <= i
            < self.project.imports@.len() && #[trigger] import_key(self.project.imports@[i]) == key);
        assert forall|j: int| 0 <= j < witnesses.len() implies 0 <= #[trigger] witnesses[j]
            < self.project.imports@.len() && import_key(self.project.imports@[witnesses[j]]) == st.imports@[j] by {
            assert(self.is_import_key(st.imports@[j]));
        }
        assert forall|a: int, b: int| 0 <= a < witnesses.len() && 0 <= b < witnesses.len() && a != b
            implies witnesses[a] != witnesses[b] by {
            assert(import_key(self.project.imports@[witnesses[a]]) == st.imports@[a]);
            assert(import_key(self.project.imports@[witnesses[b]]) == st.imports@[b]);
        }
        lemma_distinct_bounded(witnesses, self.project.imports@.len() as int);
    }

    pub proof fn lemma_state_ok_same(&self, a: &ResolutionState, b: &ResolutionState)
        requires
            self.state_ok(a),
            a.members@ == b.members@,
            a.imports@ == b.imports@,
        ensures
            self.state_ok(b),
    {
        assert forall|j: int| 0 <= j < b.imports@.len() implies self.is_import_key(#[trigger] b.imports@[j]) by {
            assert(b.imports@[j] == a.imports@[j]);
        }
        assert forall|j: int| 0 <= j < b.members@.len() implies (#[trigger] b.members@[j]).0 < self.project.elements@.len()
            && b.members@[j].1 < self.project.names@.len() by {
            assert(b.members@[j] == a.members@[j]);
        }
    }

    pub(crate) fn element_has_name(&self, id: ElementId, name: usize) -> (b: bool)
        requires
            id < self.project.elements@.len(),
        ensures
            b == (self.project.elements@[id as int].name_id == Some(name)
                || self.project.elements@[id as int].short_name_id == Some(name)),
    {
        let element = &self.project.elements[id];
        element.name_id == Some(name) || element.short_name_id == Some(name)
    }

    /// Elements directly owned by `parent` (or owned by nothing, for `None`)
    /// with the given name or short name, in increasing order.
    pub(crate) fn named_members(&self, parent: Option<ElementId>, name: usize) -> (ids: IdSet)
        ensures
            ids.wf(),
            ids.below(self.project.elements@.len()),
            forall|id: usize| #[trigger] ids.has(id) <==> (id < self.project.elements@.len()
                && self.project.elements@[id as int].owner == parent && (self.project.elements@[id as int].name_id
                == Some(name) || self.project.elements@[id as int].short_name_id == Some(name))),
    {
        let mut ids = IdSet::new();
        let mut i: usize = 0;
        while i < self.project.elements.len()
            invariant
                i <= self.project.elements@.len(),
                ids.wf(),
                ids.below(i as nat),
                forall|j: int| 0 <= j < ids.items@.len() ==> ids.items@[j] < i,
                forall|id: usize| #[trigger] ids.has(id) <==> (id < i
                    && self.project.elements@[id as int].owner == parent && (self.project.elements@[id as int].name_id
                    == Some(name) || self.project.elements@[id as int].short_name_id == Some(name))),
            decreases self.project.elements@.len() - i,
        {
            if self.project.elements[i].owner == parent && self.element_has_name(i, name) {
                ids.insert(i);
            }
            proof {
                crate::idset::lemma_below_from_has(&ids, (i + 1) as nat);
            }
            i = i + 1;
        }
        ids
    }

    fn member_in_progress(st: &ResolutionState, key: (usize, usize, bool)) -> (b: bool)
        ensures
            b == st.members@.contains(key),
    {
        let mut j: usize = 0;
        while j < st.members.len()
            invariant
                j <= st.members@.len(),
                forall|k: int| 0 <= k < j ==> st.members@[k] != key,
            decreases st.members@.len() - j,
        {
            let k = st.members[j];
            if k.0 == key.0 && k.1 == key.1 && k.2 == key.2 {
                return true;
            }
            j = j + 1;
        }
        false
    }

    fn import_in_progress(st: &ResolutionState, key: (usize, usize)) -> (b: bool)
        ensures
            b == st.imports@.contains(key),
    {
        let mut j: usize = 0;
        while j < st.imports.len()
            invariant
                j <= st.imports@.len(),
                forall|k: int| 0 <= k < j ==> st.imports@[k] != key,
            decreases st.imports@.len() - j,
        {
            let k = st.imports[j];
            if k.0 == key.0 && k.1 == key.1 {
                return true;
            }
            j = j + 1;
        }
        false
    }

    /// Resolves a reference from the scope of `owner` within `package`: its
    /// first segment lexically, each later one as a member of the previous
    /// result, stopping at the first segment that does not resolve uniquely.
    pub(crate) fn resolve_reference_guarded(
        &self,
        reference: &Reference,
        owner: Option<ElementId>,
        package: Option<ElementId>,
        state: &mut ResolutionState,
    ) -> (o: ResolutionOutcome)
        requires
            self.project.wf(),
            self.project.reference_ok(*reference),
            self.project.opt_id_ok(owner),
            self.project.opt_id_ok(package),
            self.state_ok(old(state)),
        ensures
            o.ok(self.project),
            final(state).members@ == old(state).members@,
            final(state).imports@ == old(state).imports@,
            finds_reference(self.project, o, *reference),
            forall|x: usize| #[trigger] direct_target(self.project, *reference, owner, x) && !old(state).members@.contains(
                (owner.unwrap(), reference.names@[0], false)) ==> o.resolution == Resolution::Found(x)
                && o.failures@.len() == 0,
        decreases self.budget(state), 3int, 0int,
    {
        proof { self.lemma_budget_nonnegative(state); }
        if reference.names.len() == 0 {
            return ResolutionOutcome::missing();
        }
        let first = reference.names[0];
        let mut outcome = self.resolve_simple_guarded(first, owner, package, reference.span.source, state);
        proof { self.lemma_state_ok_same(&*old(state), &*state); }
        if reference.form == ReferenceForm::FeatureChain || reference.names.len() > 1 {
            let mut k: usize = 1;
            while k < reference.names.len()
                invariant
                    self.project.wf(),
                    self.project.reference_ok(*reference),
                    self.state_ok(state),
                    self.state_ok(old(state)),
                    state.members@ == old(state).members@,
                    state.imports@ == old(state).imports@,
                    outcome.ok(self.project),
                    1 <= k <= reference.names@.len(),
                    finds_named(self.project, outcome, reference.names@[k - 1]),
                ensures
                    self.state_ok(state),
                    state.members@ == old(state).members@,
                    state.imports@ == old(state).imports@,
                    outcome.ok(self.project),
                    finds_named(self.project, outcome, reference.names@.last()),
                decreases reference.names@.len() - k,
            {
                let parent = match outcome.resolution {
                    Resolution::Found(parent) => parent,
                    _ => { break; }
                };
                assert(self.project.name_is(reference.names@[k as int], reference.segments@[k as int]@));
                let next = self.resolve_members_guarded(parent, reference.names[k], MemberAccess::Qualified, state);
                proof { self.lemma_state_ok_same(&*old(state), &*state); }
                outcome = outcome.advance(next);
                k = k + 1;
            }
        }
        outcome
    }

    /// Resolves a simple name: through the enclosing owners from the nearest
    /// outwards, then the package, then the top-level declarations of every
    /// source, then the top-level imports of the reference's own source.
    pub(crate) fn resolve_simple_guarded(
        &self,
        name: usize,
        owner: Option<ElementId>,
        package: Option<ElementId>,
        source: SourceId,
        state: &mut ResolutionState,
    ) -> (o: ResolutionOutcome)
        requires
            self.project.wf(),
            name < self.project.names@.len(),
            self.project.opt_id_ok(owner),
            self.project.opt_id_ok(package),
            self.state_ok(old(state)),
        ensures
            o.ok(self.project),
            final(state).members@ == old(state).members@,
            final(state).imports@ == old(state).imports@,
            owner matches Some(scope) ==> (!old(state).members@.contains((scope, name, false)) && (exists|id: usize|
                is_member_named(self.project, id, Some(scope), name)) ==> direct_result(self.project, o, Some(scope),
                name)),
            finds_named(self.project, o, name),
            forall|pk: ElementId|
                owner is None && package == Some(pk) && !old(state).members@.contains((pk, name, false)) && (exists|
                    id: usize| is_member_named(self.project, id, Some(pk), name)) ==> #[trigger] direct_result(
                    self.project,
                    o,
                    Some(pk),
                    name,
                ),
            owner is None && package is None && (exists|id: usize| is_member_named(self.project, id, None, name))
                ==> direct_result(self.project, o, None, name),
            forall|s0: ElementId, t: ElementId| owner == Some(s0) && #[trigger] walks_to(self.project, s0, name, t,
                old(state).members@, Set::empty(), self.project.elements@.len()) ==> direct_result(self.project, o,
                Some(t), name),
        decreases self.budget(state), 2int, 0int,
    {
        proof { self.lemma_budget_nonnegative(state); }
        let n = self.project.elements.len();
        let mut visited = Marks::new(n);
        let mut pending_failures: Vec<ResolutionFailure> = Vec::new();
        let ghost initial = owner;
        let ghost innermost_has = initial matches Some(scope) && !old(state).members@.contains((scope, name, false))
            && (exists|id: usize| is_member_named(self.project, id, Some(scope), name));
        let mut current = owner;
        let ghost members0 = old(state).members@;
        let ghost mut seen: Set<ElementId> = Set::empty();
        let ghost mut fuel: nat = n as nat;
        loop
            invariant
                initial == owner,
                initial is None ==> current is None && pending_failures@.len() == 0 && forall|i: int|
                    !visited.contains(i),
                innermost_has ==> current == initial && pending_failures@.len() == 0 && forall|i: int|
                    !visited.contains(i),
                innermost_has == (initial matches Some(scope) && !old(state).members@.contains((scope, name, false))
                    && (exists|id: usize| is_member_named(self.project, id, Some(scope), name))),
                self.project.wf(),
                name < self.project.names@.len(),
                n == self.project.elements@.len(),
                visited.bound() == n,
                self.project.opt_id_ok(current),
                self.project.opt_id_ok(package),
                self.state_ok(state),
                self.state_ok(old(state)),
                state.members@ == old(state).members@,
                state.imports@ == old(state).imports@,
                forall|j: int| 0 <= j < pending_failures@.len() ==> #[trigger] self.project.span_ok(pending_failures@[j].span),
                members0 == old(state).members@,
                forall|i: ElementId| visited.contains(i as int) ==> seen.contains(i),
                forall|s0: ElementId, t: ElementId| initial == Some(s0) && #[trigger] walks_to(self.project, s0, name, t,
                    members0, Set::empty(), n as nat) ==> (current matches Some(c) && walks_to(self.project, c, name, t,
                    members0, seen, fuel) && pending_failures@.len() == 0),
            ensures
                !innermost_has,
                forall|s0: ElementId, t: ElementId| !(initial == Some(s0) && #[trigger] walks_to(self.project, s0,
                    name, t, members0, Set::empty(), n as nat)),
            decreases visited.remaining(),
        {
            let scope = match current {
                Some(scope) => scope,
                None => { break; }
            };
            let ghost was_visited = visited.contains(scope as int);
            if !visited.insert(scope) {
                proof {
                    assert forall|s0: ElementId, t: ElementId| !(initial == Some(s0) && #[trigger] walks_to(self.project,
                        s0, name, t, members0, Set::empty(), n as nat)) by {
                        if initial == Some(s0) && walks_to(self.project, s0, name, t, members0, Set::empty(), n as nat) {
                            assert(walks_to(self.project, scope, name, t, members0, seen, fuel));
                            assert(seen.contains(scope));
                        }
                    }
                }
                break;
            }
            let ghost members_before = state.members@;
            let mut scoped = self.resolve_members_guarded(scope, name, MemberAccess::Local, state);
            proof {
                self.lemma_state_ok_same(&*old(state), &*state);
                if innermost_has {
                    assert(members_before == old(state).members@);
                    assert(!members_before.contains((scope, name, false)));
                    assert(direct_result(self.project, scoped, Some(scope), name));
                }
            }
            proof {
                assert forall|s0: ElementId, t: ElementId| initial == Some(s0) && #[trigger] walks_to(self.project,
                    s0, name, t, members0, Set::empty(), n as nat) implies (scope == t ==> direct_result(self.project,
                    scoped, Some(scope), name)) && (scope != t ==> scoped.resolution is Missing
                    && scoped.failures@.len() == 0 && self.project.elements@[scope as int].owner is Some
                    && walks_to(self.project, self.project.elements@[scope as int].owner.unwrap(), name, t, members0,
                    seen.insert(scope), (fuel - 1) as nat)) by {
                    assert(walks_to(self.project, scope, name, t, members0, seen, fuel));
                }
            }
            if scoped.resolution != Resolution::Missing {
                let ghost before_extend = scoped;
                scoped.extend_higher_precedence_failures(pending_failures);
                proof {
                    assert forall|s0: ElementId, t: ElementId| owner == Some(s0) && #[trigger] walks_to(self.project,
                        s0, name, t, old(state).members@, Set::empty(), self.project.elements@.len()) implies
                        direct_result(self.project, scoped, Some(t), name) by {
                        assert(scope == t);
                        assert(pending_failures@.len() == 0);
                    }
                    if innermost_has {
                        assert(scoped.known_ids == before_extend.known_ids);
                        assert(scoped.failures@ == before_extend.failures@);
                        assert(scoped.resolution == before_extend.resolution);
                        assert(direct_result(self.project, scoped, Some(scope), name));
                        assert(initial == Some(scope));
                    }
                }
                return scoped;
            }
            proof {
                // the innermost scope's own members would have resolved
                assert(!innermost_has);
            }
            let mut failures = scoped.failures;
            append_failures(&mut pending_failures, &mut failures);
            assert(self.project.element_ok(scope as int));
            current = self.project.elements[scope].owner;
            proof {
                let old_seen = seen;
                seen = seen.insert(scope);
                fuel = (fuel - 1) as nat;
                assert forall|i: ElementId| visited.contains(i as int) implies seen.contains(i) by {
                    if i != scope {
                        assert(old_seen.contains(i));
                    }
                }
            }
        }
        if let Some(package) = package {
            let ghost package_has = initial is None && !old(state).members@.contains((package, name, false)) && (exists|
                id: usize| is_member_named(self.project, id, Some(package), name));
            if visited.insert(package) {
                let ghost members_before = state.members@;
                let mut scoped = self.resolve_members_guarded(package, name, MemberAccess::Local, state);
                proof {
                    self.lemma_state_ok_same(&*old(state), &*state);
                    if package_has {
                        assert(members_before == old(state).members@);
                        assert(direct_result(self.project, scoped, Some(package), name));
                    }
                }
                if scoped.resolution != Resolution::Missing {
                    let ghost before_extend = scoped;
                    scoped.extend_higher_precedence_failures(pending_failures);
                    proof {
                        if package_has {
                            assert(scoped.known_ids == before_extend.known_ids);
                            assert(scoped.failures@ == before_extend.failures@);
                            assert(scoped.resolution == before_extend.resolution);
                        }
                    }
                    return scoped;
                }
                proof { assert(!package_has); }
                let mut failures = scoped.failures;
                append_failures(&mut pending_failures, &mut failures);
            }
        }
        let root = self.named_members(None, name);
        proof {
            if exists|id: usize| is_member_named(self.project, id, None, name) {
                let id = choose|id: usize| is_member_named(self.project, id, None, name);
                assert(root.has(id));
            }
        }
        if root.len() != 0 {
            let mut candidates = ResolutionOutcome::from_candidates(&root);
            let ghost before_extend = candidates;
            candidates.extend_higher_precedence_failures(pending_failures);
            proof {
                if initial is None && package is None {
                    assert(candidates.failures@ == before_extend.failures@);
                    assert forall|id: usize| #[trigger] candidates.known_ids.has(id) <==> is_member_named(self.project,
                        id, None, name) by {
                        assert(root.has(id) == candidates.known_ids.has(id));
                    }
                    if let Resolution::Found(x) = candidates.resolution {
                        assert(root.has(root.items@[0]));
                    }
                    assert forall|x: usize| #[trigger] sole_member(self.project, x, None, name) implies candidates.resolution
                        == Resolution::Found(x) by {
                        assert forall|y: usize| #[trigger] root.has(y) <==> y == x by {
                            assert(root.has(y) == is_member_named(self.project, y, None, name));
                            if y == x {
                                assert(is_member_named(self.project, y, None, name));
                            }
                        }
                        crate::idset::lemma_single(&root, x);
                    }
                }
            }
            return candidates;
        }
        let mut imported = self.resolve_imported_members_guarded(
            ImportLookupScope::Root(source),
            name,
            MemberAccess::Local,
            state,
        );
        imported.extend_higher_precedence_failures(pending_failures);
        imported
    }

    /// Resolves `name` through the imports of a scope that are visible for the
    /// access and within this profile: members of wildcard-imported
    /// namespaces, and membership imports whose target carries the name.
    pub(crate) fn resolve_imported_members_guarded(
        &self,
        scope: ImportLookupScope,
        name: usize,
        access: MemberAccess,
        state: &mut ResolutionState,
    ) -> (o: ResolutionOutcome)
        requires
            self.project.wf(),
            name < self.project.names@.len(),
            self.state_ok(old(state)),
        ensures
            o.ok(self.project),
            final(state).members@ == old(state).members@,
            final(state).imports@ == old(state).imports@,
            finds_named(self.project, o, name),
            (forall|j: int| 0 <= j < self.project.imports@.len() ==> !takes_part(scope, #[trigger] self.project.imports@[j],
                access)) ==> o.resolution is Missing && o.failures@.len() == 0 && o.known_ids.items@.len() == 0,
        decreases self.budget(state), 1int, 0int,
    {
        proof { self.lemma_budget_nonnegative(state); }
        let mut imported = ResolutionCandidates::new();
        let mut i: usize = 0;
        while i < self.project.imports.len()
            invariant
                self.project.wf(),
                name < self.project.names@.len(),
                i <= self.project.imports@.len(),
                self.state_ok(state),
                self.state_ok(old(state)),
                state.members@ == old(state).members@,
                state.imports@ == old(state).imports@,
                imported.ok(self.project),
                imported.all_named(self.project, name),
                (forall|j: int| 0 <= j < i ==> !takes_part(scope, #[trigger] self.project.imports@[j], access)) ==> (
                imported.known_ids.items@.len() == 0 && imported.failures@.len() == 0 && !imported.ambiguous),
            decreases self.project.imports@.len() - i,
        {
            let import = &self.project.imports[i];
            if scope.contains(import) && !import.all && !import.recursive && !import.filtered
                && import_is_visible(import, access) {
                if import.wildcard {
                    let target = self.resolve_import_target_guarded(i, state);
                    proof { self.lemma_state_ok_same(&*old(state), &*state); }
                    let resolution = match target.resolution {
                        Resolution::Found(namespace) => {
                            let members = self.resolve_members_guarded(namespace, name, MemberAccess::Qualified, state);
                            proof { self.lemma_state_ok_same(&*old(state), &*state); }
                            target.advance(members)
                        }
                        _ => target,
                    };
                    imported.add_outcome(resolution, Ghost(self.project));
                } else {
                    proof { assert(self.project.import_ok(self.project.imports@[i as int])); }
                    let count = import.reference.names.len();
                    let imported_name = if count > 0 { Some(import.reference.names[count - 1]) } else { None };
                    let resolution = self.resolve_import_target_guarded(i, state);
                    proof { self.lemma_state_ok_same(&*old(state), &*state); }
                    let exposes_name = match resolution.resolution {
                        Resolution::Found(target) => self.element_has_name(target, name),
                        Resolution::Ambiguous => {
                            imported_name == Some(name) || self.any_has_name(&resolution.known_ids, name)
                        }
                        Resolution::Missing => imported_name == Some(name),
                    };
                    if exposes_name {
                        imported.add_outcome(resolution, Ghost(self.project));
                    }
                }
            }
            i = i + 1;
        }
        imported.finish(Ghost(self.project))
    }

    fn any_has_name(&self, ids: &IdSet, name: usize) -> (b: bool)
        requires
            ids.below(self.project.elements@.len()),
        ensures
            b == exists|j: int| 0 <= j < ids.items@.len() && (self.project.elements@[ids.items@[j] as int].name_id
                == Some(name) || self.project.elements@[ids.items@[j] as int].short_name_id == Some(name)),
    {
        let mut j: usize = 0;
        while j < ids.items.len()
            invariant
                j <= ids.items@.len(),
                ids.below(self.project.elements@.len()),
                forall|k: int| 0 <= k < j ==> !(self.project.elements@[ids.items@[k] as int].name_id == Some(name)
                    || self.project.elements@[ids.items@[k] as int].short_name_id == Some(name)),
            decreases ids.items@.len() - j,
        {
            if self.element_has_name(ids.items[j], name) {
                return true;
            }
            j = j + 1;
        }
        false
    }

    /// Resolves the target of import `index` from the import's own scope,
    /// unless that import is already being resolved.
    pub(crate) fn resolve_import_target_guarded(&self, index: usize, state: &mut ResolutionState) -> (o: ResolutionOutcome)
        requires
            self.project.wf(),
            index < self.project.imports@.len(),
            self.state_ok(old(state)),
        ensures
            o.ok(self.project),
            final(state).members@ == old(state).members@,
            final(state).imports@ == old(state).imports@,
            finds_reference(self.project, o, self.project.imports@[index as int].reference),
        decreases self.budget(state), 0int, 0int,
    {
        proof { self.lemma_budget_nonnegative(state); }
        let import = &self.project.imports[index];
        proof { assert(self.project.import_ok(self.project.imports@[index as int])); }
        if import.reference.names.len() == 0 {
            return ResolutionOutcome::missing();
        }
        let key = (import.span.source, import.span.start.byte);
        if Self::import_in_progress(state, key) {
            return ResolutionOutcome::missing();
        }
        let ghost before = *state;
        state.imports.push(key);
        proof {
            assert(state.imports@ == before.imports@.push(key));
            assert(import_key(self.project.imports@[index as int]) == key);
            assert forall|j: int| 0 <= j < state.imports@.len() implies self.is_import_key(#[trigger] state.imports@[j]) by {
                if j < before.imports@.len() {
                    assert(state.imports@[j] == before.imports@[j]);
                } else {
                    assert(import_key(self.project.imports@[index as int]) == state.imports@[j]);
                }
            }
            assert(state.imports@.no_duplicates()) by {
                assert forall|a: int, b: int| 0 <= a < state.imports@.len() && 0 <= b < state.imports@.len()
                    && a != b implies state.imports@[a] != state.imports@[b] by {
                    if a < before.imports@.len() && b < before.imports@.len() {
                        assert(state.imports@[a] == before.imports@[a]);
                        assert(state.imports@[b] == before.imports@[b]);
                    } else if a < before.imports@.len() {
                        assert(state.imports@[a] == before.imports@[a]);
                        assert(before.imports@.contains(before.imports@[a]));
                    } else {
                        assert(state.imports@[b] == before.imports@[b]);
                        assert(before.imports@.contains(before.imports@[b]));
                    }
                }
            }
            self.lemma_budget_nonnegative(state);
        }
        let ghost pushed = *state;
        let first = import.reference.names[0];
        assert(self.project.name_is(import.reference.names@[0], import.reference.segments@[0]@));
        let mut outcome = self.resolve_simple_guarded(first, import.scope, None, import.span.source, state);
        proof { self.lemma_state_ok_same(&pushed, &*state); }
        let mut k: usize = 1;
        while k < import.reference.names.len()
            invariant
                self.project.wf(),
                self.project.import_ok(*import),
                self.state_ok(state),
                state.members@ == before.members@,
                state.imports@ == before.imports@.push(key),
                pushed.members@ == before.members@,
                pushed.imports@ == before.imports@.push(key),
                self.state_ok(&pushed),
                before.members@ == old(state).members@,
                before.imports@ == old(state).imports@,
                outcome.ok(self.project),
                1 <= k <= import.reference.names@.len(),
                finds_named(self.project, outcome, import.reference.names@[k - 1]),
            ensures
                self.state_ok(state),
                state.members@ == before.members@,
                state.imports@ == before.imports@.push(key),
                outcome.ok(self.project),
                finds_named(self.project, outcome, import.reference.names@.last()),
            decreases import.reference.names@.len() - k,
        {
            let parent = match outcome.resolution {
                Resolution::Found(parent) => parent,
                _ => { break; }
            };
            assert(self.project.name_is(import.reference.names@[k as int], import.reference.segments@[k as int]@));
            proof {
                self.lemma_budget_nonnegative(state);
                assert(self.budget(state) < self.budget(old(state)));
            }
            let next = self.resolve_members_guarded(parent, import.reference.names[k], MemberAccess::Qualified, state);
            proof { self.lemma_state_ok_same(&pushed, &*state); }
            outcome = outcome.advance(next);
            k = k + 1;
        }
        state.imports.pop();
        assert(state.imports@ =~= before.imports@);
        outcome
    }

    /// Resolves `name` as a member of `parent`, unless that lookup is already
    /// in progress.
    pub(crate) fn resolve_members_guarded(
        &self,
        parent: ElementId,
        name: usize,
        access: MemberAccess,
        state: &mut ResolutionState,
    ) -> (o: ResolutionOutcome)
        requires
            self.project.wf(),
            parent < self.project.elements@.len(),
            name < self.project.names@.len(),
            self.state_ok(old(state)),
        ensures
            o.ok(self.project),
            final(state).members@ == old(state).members@,
            final(state).imports@ == old(state).imports@,
            !old(state).members@.contains((parent, name, access == MemberAccess::Qualified)) && (exists|id: usize|
                is_member_named(self.project, id, Some(parent), name)) ==> direct_result(self.project, o, Some(parent),
                name),
            finds_named(self.project, o, name),
            empty_scope(self.project, parent, name, access) ==> o.resolution is Missing && o.failures@.len() == 0,
        decreases self.budget(state), 0int, 0int,
    {
        proof { self.lemma_budget_nonnegative(state); }
        let key = (parent, name, access == MemberAccess::Qualified);
        if Self::member_in_progress(state, key) {
            return ResolutionOutcome::missing();
        }
        let ghost before = *state;
        state.members.push(key);
        proof {
            assert(state.members@ == before.members@.push(key));
            assert forall|j: int| 0 <= j < state.members@.len() implies (#[trigger] state.members@[j]).0
                < self.project.elements@.len() && state.members@[j].1 < self.project.names@.len() by {
                if j < before.members@.len() {
                    assert(state.members@[j] == before.members@[j]);
                }
            }
            assert(state.members@.no_duplicates()) by {
                assert forall|a: int, b: int| 0 <= a < state.members@.len() && 0 <= b < state.members@.len()
                    && a != b implies state.members@[a] != state.members@[b] by {
                    if a < before.members@.len() && b < before.members@.len() {
                        assert(state.members@[a] == before.members@[a]);
                        assert(state.members@[b] == before.members@[b]);
                    } else if a < before.members@.len() {
                        assert(state.members@[a] == before.members@[a]);
                        assert(before.members@.contains(before.members@[a]));
                    } else {
                        assert(state.members@[b] == before.members@[b]);
                        assert(before.members@.contains(before.members@[b]));
                    }
                }
            }
            self.lemma_budget_nonnegative(state);
        }
        let ghost pushed = *state;
        let mut visited = Marks::new(self.project.elements.len());
        let outcome = self.named_members_through_types_guarded(parent, name, access, &mut visited, state);
        state.members.pop();
        assert(state.members@ =~= before.members@);
        outcome
    }

    /// Members of `parent` named `name`: its own, else those it imports, else
    /// those inherited through its declared types and specializations.
    pub(crate) fn named_members_through_types_guarded(
        &self,
        parent: ElementId,
        name: usize,
        access: MemberAccess,
        visited: &mut Marks,
        state: &mut ResolutionState,
    ) -> (o: ResolutionOutcome)
        requires
            self.project.wf(),
            parent < self.project.elements@.len(),
            name < self.project.names@.len(),
            old(visited).bound() == self.project.elements@.len(),
            self.state_ok(old(state)),
        ensures
            o.ok(self.project),
            final(state).members@ == old(state).members@,
            final(state).imports@ == old(state).imports@,
            final(visited).bound() == old(visited).bound(),
            final(visited).remaining() <= old(visited).remaining(),
            !old(visited).contains(parent as int) && (exists|id: usize| is_member_named(self.project, id, Some(parent),
                name)) ==> direct_result(self.project, o, Some(parent), name),
            finds_named(self.project, o, name),
            empty_scope(self.project, parent, name, access) ==> o.resolution is Missing && o.failures@.len() == 0,
        decreases self.budget(state), 4int, visited.remaining(),
    {
        proof { self.lemma_budget_nonnegative(state); }
        let ghost entry_remaining = visited.remaining();
        if !visited.insert(parent) {
            return ResolutionOutcome::missing();
        }
        let direct = self.named_members(Some(parent), name);
        if direct.len() != 0 {
            let o = ResolutionOutcome::from_candidates(&direct);
            proof {
                assert(direct.has(direct.items@[0]));
                assert(is_member_named(self.project, direct.items@[0], Some(parent), name));
                if o.resolution matches Resolution::Found(x) {
                    assert(direct.has(direct.items@[0]));
                }
                assert forall|id: usize| #[trigger] o.known_ids.has(id) <==> is_member_named(self.project, id,
                    Some(parent), name) by {
                    assert(direct.has(id) == o.known_ids.has(id));
                }
                assert forall|x: usize| #[trigger] sole_member(self.project, x, Some(parent), name) implies o.resolution
                    == Resolution::Found(x) by {
                    assert forall|y: usize| #[trigger] direct.has(y) <==> y == x by {
                            assert(direct.has(y) == is_member_named(self.project, y, Some(parent), name));
                        if y == x {
                            assert(is_member_named(self.project, y, Some(parent), name));
                        }
                    }
                    crate::idset::lemma_single(&direct, x);
                }
            }
            return o;
        }
        proof {
            if exists|id: usize| is_member_named(self.project, id, Some(parent), name) {
                let id = choose|id: usize| is_member_named(self.project, id, Some(parent), name);
                assert(direct.has(id));
            }
        }
        let imported = self.resolve_imported_members_guarded(ImportLookupScope::Owned(parent), name, access, state);
        proof {
            self.lemma_state_ok_same(&*old(state), &*state);
            if empty_scope(self.project, parent, name, access) {
                assert(imported.resolution is Missing && imported.failures@.len() == 0);
            }
        }
        if imported.resolution != Resolution::Missing {
            return imported;
        }
        let ghost empty = empty_scope(self.project, parent, name, access);
        let import_failures = imported.failures;
        let element = &self.project.elements[parent];
        proof { assert(self.project.element_ok(parent as int)); }
        let mut inherited = ResolutionCandidates::new();
        let mut k: usize = 0;
        while k < element.declared_types.len()
            invariant
                self.project.wf(),
                parent < self.project.elements@.len(),
                *element == self.project.elements@[parent as int],
                self.project.element_ok(parent as int),
                name < self.project.names@.len(),
                k <= element.declared_types@.len(),
                visited.bound() == self.project.elements@.len(),
                visited.remaining() < entry_remaining,
                entry_remaining == old(visited).remaining(),
                self.state_ok(state),
                self.state_ok(old(state)),
                state.members@ == old(state).members@,
                state.imports@ == old(state).imports@,
                inherited.ok(self.project),
                inherited.all_named(self.project, name),
                empty ==> element.declared_types@.len() == 0 && element.specializations@.len() == 0,
                empty ==> inherited.known_ids.items@.len() == 0 && inherited.failures@.len() == 0 && !inherited.ambiguous,
            decreases element.declared_types@.len() - k,
        {
            let reference = &element.declared_types[k];
            assert(self.project.reference_ok(element.declared_types@[k as int]));
            let parent_outcome = self.resolve_reference_guarded(reference, element.owner, element.package, state);
            proof { self.lemma_state_ok_same(&*old(state), &*state); }
            let resolution = match parent_outcome.resolution {
                Resolution::Found(parent_type) => {
                    let members = self.named_members_through_types_guarded(
                        parent_type, name, MemberAccess::Qualified, visited, state);
                    proof { self.lemma_state_ok_same(&*old(state), &*state); }
                    parent_outcome.advance(members)
                }
                _ => parent_failure_outcome(reference, parent_outcome, Ghost(self.project)),
            };
            inherited.add_outcome(resolution, Ghost(self.project));
            k = k + 1;
        }
        let mut k: usize = 0;
        while k < element.specializations.len()
            invariant
                self.project.wf(),
                parent < self.project.elements@.len(),
                *element == self.project.elements@[parent as int],
                self.project.element_ok(parent as int),
                name < self.project.names@.len(),
                k <= element.specializations@.len(),
                visited.bound() == self.project.elements@.len(),
                visited.remaining() < entry_remaining,
                entry_remaining == old(visited).remaining(),
                self.state_ok(state),
                self.state_ok(old(state)),
                state.members@ == old(state).members@,
                state.imports@ == old(state).imports@,
                inherited.ok(self.project),
                inherited.all_named(self.project, name),
                empty ==> element.declared_types@.len() == 0 && element.specializations@.len() == 0,
                empty ==> inherited.known_ids.items@.len() == 0 && inherited.failures@.len() == 0 && !inherited.ambiguous,
            decreases element.specializations@.len() - k,
        {
            let reference = &element.specializations[k];
            assert(self.project.reference_ok(element.specializations@[k as int]));
            let parent_outcome = self.resolve_reference_guarded(reference, element.owner, element.package, state);
            proof { self.lemma_state_ok_same(&*old(state), &*state); }
            let resolution = match parent_outcome.resolution {
                Resolution::Found(parent_type) => {
                    let members = self.named_members_through_types_guarded(
                        parent_type, name, MemberAccess::Qualified, visited, state);
                    proof { self.lemma_state_ok_same(&*old(state), &*state); }
                    parent_outcome.advance(members)
                }
                _ => parent_failure_outcome(reference, parent_outcome, Ghost(self.project)),
            };
            inherited.add_outcome(resolution, Ghost(self.project));
            k = k + 1;
        }
        let ghost tally = inherited;
        let mut inherited = inherited.finish(Ghost(self.project));
        assert(finds_named(self.project, inherited, name));
        inherited.extend_higher_precedence_failures(import_failures);
        proof {
            if empty {
                assert(tally.known_ids.items@.len() == 0 && tally.failures@.len() == 0 && !tally.ambiguous);
            }
        }
        inherited
    }
}

/// Moves every failure of `from` to the end of `to`.
pub(crate) fn append_failures(to: &mut Vec<ResolutionFailure>, from: &mut Vec<ResolutionFailure>)
    ensures
        final(to)@ == old(to)@ + old(from)@,
{
    to.append(from);
}

/// The outcome of a parent relationship that did not resolve uniquely: nothing
/// found, its own failures kept, and the parent reference itself recorded as
/// a failure when its result stands on its own or nothing else failed.
pub(crate) fn parent_failure_outcome(reference: &Reference, outcome: ResolutionOutcome, Ghost(p): Ghost<&Project>) -> (o: ResolutionOutcome)
    requires
        outcome.ok(p),
        p.span_ok(reference.span),
    ensures
        o.ok(p),
        o.resolution == Resolution::Missing,
        o.main_is_proven == (outcome.resolution == Resolution::Missing && outcome.main_is_proven),
        single_known(o),
{
    let resolution = outcome.resolution;
    let main_is_proven = outcome.main_is_proven;
    let failures = outcome.failures;
    let proven_missing = resolution == Resolution::Missing && main_is_proven;
    let report_parent = main_is_proven || failures.len() == 0;
    let mut result = ResolutionOutcome::missing();
    result.main_is_proven = proven_missing;
    let ghost fs = failures@;
    result.extend_failures(failures);
    if report_parent {
        let mut own: Vec<ResolutionFailure> = Vec::new();
        own.push(ResolutionFailure { span: reference.span, text: reference.text.clone(), resolution });
        result.extend_failures(own);
    }
    proof {
        crate::idset::lemma_below_from_has(&result.known_ids, p.elements@.len());
        crate::idset::lemma_below_from_has(&result.definite_ids, p.elements@.len());
    }
    result
}

} // verus!
