use vstd::prelude::*;
use vstd::std_specs::cmp::PartialEqSpec;

use crate::engine::{NodeSnapshot, SpaceEngine};
use crate::interner::SpaceInterner;
use crate::match_input::{MatchAnalysis, MatchInput, ReachabilityWarning};
use crate::operations::{Decomposition, SpaceOperations};
use crate::space::{Space, SpaceContext, SpaceNode};

verus! {

/// Every space that `input` names is valid in `context`.
pub open spec fn input_ok<T, E, TI, EI>(context: SpaceContext<T, E, TI, EI>, input: MatchInput<T, E>) -> bool where
    T: Eq + std::hash::Hash,
    E: Eq + std::hash::Hash,
    TI: SpaceInterner<Item = T>,
    EI: SpaceInterner<Item = E>,
 {
    &&& context.valid_space(input.scrutinee_space)
    &&& forall|i: int|
        0 <= i < input.arms@.len() ==> context.valid_space(#[trigger] input.arms@[i].pattern_space)
    &&& input.null_space matches Some(null_space) ==> context.valid_space(null_space)
}

/// Growing a context keeps an input valid.
pub proof fn lemma_input_ok_extends<T, E, TI, EI>(
    context: SpaceContext<T, E, TI, EI>,
    prev: SpaceContext<T, E, TI, EI>,
    input: MatchInput<T, E>,
) where
    T: Eq + std::hash::Hash,
    E: Eq + std::hash::Hash,
    TI: SpaceInterner<Item = T>,
    EI: SpaceInterner<Item = E>,

    requires
        context.extends(prev),
        input_ok(prev, input),
    ensures
        input_ok(context, input),
{
    assert forall|i: int| 0 <= i < input.arms@.len() implies context.valid_space(#[trigger] input.arms@[i].pattern_space) by {
        assert(prev.valid_space(input.arms@[i].pattern_space));
    }
}

/// The arm a warning is about.
pub open spec fn warning_arm_index(warning: ReachabilityWarning) -> int {
    match warning {
        ReachabilityWarning::Unreachable { arm_index, .. } => arm_index as int,
        ReachabilityWarning::OnlyNull { arm_index, .. } => arm_index as int,
    }
}

/// The earlier arms a warning names.
pub open spec fn warning_covering(warning: ReachabilityWarning) -> Seq<usize> {
    match warning {
        ReachabilityWarning::Unreachable { covering_arm_indices, .. } => covering_arm_indices@,
        ReachabilityWarning::OnlyNull { covering_arm_indices, .. } => covering_arm_indices@,
    }
}

/// `indices` is strictly increasing.
pub open spec fn increasing(indices: Seq<usize>) -> bool {
    forall|i: int, j: int| 0 <= i < j < indices.len() ==> indices[i] < indices[j]
}

/// The shape every list of reachability warnings has: one warning at most per
/// arm, in arm order; each names earlier, non-partial arms in increasing
/// order; an only-null warning is about a wildcard arm of an input with a null
/// space, and there is one at most.
pub open spec fn warnings_ok<T, E>(input: MatchInput<T, E>, warnings: Seq<ReachabilityWarning>) -> bool {
    &&& forall|i: int, j: int|
        0 <= i < j < warnings.len() ==> warning_arm_index(warnings[i]) < warning_arm_index(warnings[j])
    &&& forall|i: int|
        0 <= i < warnings.len() ==> {
            let warning = #[trigger] warnings[i];
            &&& 0 <= warning_arm_index(warning) < input.arms@.len()
            &&& increasing(warning_covering(warning))
            &&& forall|k: int|
                0 <= k < warning_covering(warning).len() ==> #[trigger] warning_covering(warning)[k]
                    < warning_arm_index(warning) && !input.arms@[warning_covering(warning)[k] as int].is_partial
            &&& warning is OnlyNull ==> input.arms@[warning_arm_index(warning)].is_wildcard
                && input.null_space is Some
        }
    &&& forall|i: int, j: int|
        0 <= i < j < warnings.len() ==> !(warnings[i] is OnlyNull && warnings[j] is OnlyNull)
}

/// The last arm that is not partial matches the whole scrutinee space (as a
/// wildcard arm does).
pub open spec fn ends_with_catch_all<T, E>(input: MatchInput<T, E>) -> bool {
    exists|i: int|
        #![trigger input.arms@[i]]
        0 <= i < input.arms@.len() && !input.arms@[i].is_partial && input.arms@[i].pattern_space@
            == input.scrutinee_space@ && forall|j: int| i < j < input.arms@.len() ==> (#[trigger] input.arms@[j]).is_partial
}

/// What every analysis satisfies: the uncovered spaces are non-empty, an
/// empty scrutinee is exhaustively matched, and the warnings are well shaped.
pub open spec fn analysis_ok<T, E>(input: MatchInput<T, E>, analysis: MatchAnalysis<T, E>) -> bool {
    &&& forall|i: int|
        0 <= i < analysis.uncovered_spaces@.len() ==> (#[trigger] analysis.uncovered_spaces@[i])@ != 0
    &&& input.scrutinee_space@ == 0 ==> analysis.uncovered_spaces@.len() == 0
    &&& warnings_ok(input, analysis.reachability_warnings@)
}

/// Some key of `visited` is one that `==` finds equal to `key`.
pub(crate) open spec fn visited_has<K: PartialEq>(visited: Seq<K>, key: K) -> bool {
    exists|j: int| 0 <= j < visited.len() && #[trigger] visited[j].eq_spec(&key)
}

/// Arm `i` is not partial and matches the whole scrutinee space.
pub open spec fn catch_all_arm<T, E>(input: MatchInput<T, E>, i: int) -> bool {
    0 <= i < input.arms@.len() && !input.arms@[i].is_partial && input.arms@[i].pattern_space == input.scrutinee_space
}

/// Some arm after `j` and before `n` covers something, or follows arms that
/// do.
pub open spec fn covered_later(covered: Seq<nat>, unions: Seq<nat>, j: int, n: int) -> bool {
    exists|k: int| #[trigger] covers_at(covered, unions, j, n, k)
}

/// Arm `k`, after `j` and before `n`, covers something or follows arms that
/// do.
pub open spec fn covers_at(covered: Seq<nat>, unions: Seq<nat>, j: int, n: int, k: int) -> bool {
    j < k && k < n && (unions[k] != 0 || covered[k] != 0)
}

/// No arm from `j` up to `n` covers anything, nor follows arms that do.
pub open spec fn quiet_from(covered: Seq<nat>, unions: Seq<nat>, j: int, n: int) -> bool {
    forall|k: int| j <= k && k < n ==> #[trigger] quiet_at(covered, unions, k)
}

/// Arm `k` covers nothing and follows arms that cover nothing.
pub open spec fn quiet_at(covered: Seq<nat>, unions: Seq<nat>, k: int) -> bool {
    unions[k] == 0 && covered[k] == 0
}

/// Some warning reports arm `j` unreachable.
pub open spec fn reports_unreachable(warnings: Seq<ReachabilityWarning>, j: int) -> bool {
    exists|w: int| 0 <= w < warnings.len() && #[trigger] warnings[w] is Unreachable && warning_arm_index(warnings[w]) == j
}

/// Some warning reports that arm `j` matches nothing but the null value.
pub open spec fn reports_only_null(warnings: Seq<ReachabilityWarning>, j: int) -> bool {
    exists|w: int| 0 <= w < warnings.len() && #[trigger] warnings[w] is OnlyNull && warning_arm_index(warnings[w]) == j
}

/// A report in a list stays in any list that extends it.
proof fn lemma_reports_prefix(prefix: Seq<ReachabilityWarning>, warnings: Seq<ReachabilityWarning>, j: int)
    requires
        prefix.len() <= warnings.len(),
        forall|k: int| 0 <= k < prefix.len() ==> #[trigger] warnings[k] == prefix[k],
        reports_unreachable(prefix, j),
    ensures
        reports_unreachable(warnings, j),
{
    let w = choose|w: int| 0 <= w < prefix.len() && #[trigger] prefix[w] is Unreachable && warning_arm_index(prefix[w]) == j;
    assert(warnings[w] == prefix[w]);
}

/// An arm whose covered space joined the union of the previous arms.
pub(crate) struct CoveredArm<T, E> {
    pub(crate) arm_index: usize,
    pub(crate) covered_space: Space<T, E>,
}

/// The arms before arm `n` that the reachability check meets when it looks
/// for what covers an arm: each arm that is not partial and covers something
/// of the scrutinee (`covered`), with what it covers, in order.
pub(crate) open spec fn earlier_covering_arms<T, E>(input: MatchInput<T, E>, covered: Seq<nat>, n: int) -> Seq<CoveredArm<T, E>>
    decreases n,
{
    if n <= 0 {
        Seq::empty()
    } else {
        let before = earlier_covering_arms(input, covered, n - 1);
        if !input.arms@[n - 1].is_partial && covered[n - 1] != 0 {
            before.push(CoveredArm { arm_index: (n - 1) as usize, covered_space: Space::with_id(covered[n - 1]) })
        } else {
            before
        }
    }
}

/// What arms before `n` the check meets depends only on what those arms cover.
pub(crate) proof fn lemma_earlier_covering_arms_prefix<T, E>(input: MatchInput<T, E>, covered: Seq<nat>, longer: Seq<nat>, n: int)
    requires
        0 <= n <= covered.len(),
        covered.len() <= longer.len(),
        forall|k: int| 0 <= k < covered.len() ==> #[trigger] longer[k] == covered[k],
    ensures
        earlier_covering_arms(input, longer, n) == earlier_covering_arms(input, covered, n),
    decreases n,
{
    if n > 0 {
        lemma_earlier_covering_arms_prefix(input, covered, longer, n - 1);
    }
}

/// The arm indices of a list of covered arms.
pub(crate) open spec fn covered_indices<T, E>(covered: Seq<CoveredArm<T, E>>) -> Seq<usize> {
    covered.map_values(|c: CoveredArm<T, E>| c.arm_index)
}

/// The arm indices of the arms of `covered` that `taken` marks, in order.
pub(crate) open spec fn taken_indices<T, E>(covered: Seq<CoveredArm<T, E>>, taken: Seq<bool>) -> Seq<usize>
    decreases taken.len(),
{
    if taken.len() == 0 {
        Seq::empty()
    } else {
        let rest = taken_indices(covered, taken.drop_last());
        if taken.last() {
            rest.push(covered[taken.len() - 1].arm_index)
        } else {
            rest
        }
    }
}

/// The sizes added up from the first to the last, each partial sum capped
/// at `usize::MAX`.
pub open spec fn saturating_sum(sizes: Seq<nat>) -> nat
    decreases sizes.len(),
{
    if sizes.len() == 0 {
        0
    } else {
        let total = saturating_sum(sizes.drop_last()) + sizes.last();
        if total > usize::MAX {
            usize::MAX as nat
        } else {
            total
        }
    }
}

/// The sizes multiplied together from the first to the last, each partial
/// product capped at `usize::MAX`.
pub open spec fn saturating_product_of(sizes: Seq<nat>) -> nat
    decreases sizes.len(),
{
    if sizes.len() == 0 {
        1
    } else {
        let total = saturating_product_of(sizes.drop_last()) * sizes.last();
        if total > usize::MAX {
            usize::MAX as nat
        } else {
            total
        }
    }
}

fn saturating_product(left: usize, right: usize) -> (product: usize)
    ensures
        product == if left * right > usize::MAX { usize::MAX as int } else { left * right },
{
    match left.checked_mul(right) {
        Some(product) => product,
        None => usize::MAX,
    }
}

impl<'a, O, TI, EI> SpaceEngine<'a, O, TI, EI> where
    O: SpaceOperations,
    TI: SpaceInterner<Item = O::Type>,
    EI: SpaceInterner<Item = O::Extractor>,
 {
    /// One step of taking the arms away from the scrutinee, from the last arm
    /// to the first: `path[k]` is what is left before the arm
    /// `arms.len() - 1 - k`. A partial arm, or nothing left, leaves the
    /// remainder as it is; otherwise the next remainder is what the engine
    /// answers for subtracting the arm's pattern.
    pub closed spec fn exhaustion_step(self, input: MatchInput<O::Type, O::Extractor>, path: Seq<nat>, k: int) -> bool {
        let arm = input.arms@[input.arms@.len() - 1 - k];
        if arm.is_partial || path[k] == 0 {
            path[k + 1] == path[k]
        } else {
            self.answered_subtraction(Space::with_id(path[k]), arm.pattern_space) == Some(path[k + 1])
        }
    }

    /// `path` is the whole sequence of remainders of the scrutinee as every
    /// arm is taken away in turn; its last element is what no non-partial arm
    /// covers.
    pub closed spec fn exhaustion_path(self, input: MatchInput<O::Type, O::Extractor>, path: Seq<nat>) -> bool {
        &&& path.len() == input.arms@.len() + 1
        &&& path[0] == input.scrutinee_space@
        &&& forall|k: int| 0 <= k < input.arms@.len() ==> #[trigger] self.exhaustion_step(input, path, k)
    }

    proof fn lemma_exhaustion_step_kept(self, prev: Self, input: MatchInput<O::Type, O::Extractor>, path: Seq<nat>, k: int)
        requires
            self.evolves(prev),
            0 <= k < input.arms@.len(),
            k + 1 < path.len(),
            prev.exhaustion_step(input, path, k),
        ensures
            self.exhaustion_step(input, path, k),
    {
        let arm = input.arms@[input.arms@.len() - 1 - k];
        if !(arm.is_partial || path[k] == 0) {
            self.lemma_subtraction_answer_kept(prev, Space::with_id(path[k]), arm.pattern_space);
        }
    }

    /// The engine answered what is left of `left` once `right` is taken away,
    /// and that simplifies to `result`.
    pub closed spec fn subtracted_to(self, left: Space<O::Type, O::Extractor>, right: Space<O::Type, O::Extractor>, result: nat) -> bool {
        exists|id: nat|
            #![trigger self.remembered_simplification(Space::with_id(id))]
            self.answered_subtraction(left, right) == Some(id) && self.remembered_simplification(Space::with_id(id)) == Some(result)
    }

    proof fn lemma_subtracted_kept(self, prev: Self, left: Space<O::Type, O::Extractor>, right: Space<O::Type, O::Extractor>, result: nat)
        requires
            self.evolves(prev),
            prev.subtracted_to(left, right, result),
        ensures
            self.subtracted_to(left, right, result),
    {
        let id = choose|id: nat| prev.answered_subtraction(left, right) == Some(id) && prev.remembered_simplification(Space::with_id(id)) == Some(result);
        self.lemma_subtraction_answer_kept(prev, left, right);
        self.lemma_simplification_kept(prev, Space::with_id(id));
    }

    /// One earlier arm, covering `space`, met with what is left, the space
    /// with id `before`: when it meets none of it, it is passed over and
    /// nothing changes; otherwise it is taken and what it covers is taken
    /// away, leaving the space with id `after`.
    pub(crate) closed spec fn covering_step(self, space: Space<O::Type, O::Extractor>, before: nat, taken: bool, after: nat) -> bool {
        &&& before != 0
        &&& if taken {
            &&& exists|overlap: nat| overlap != 0 && #[trigger] self.intersected_to(Space::with_id(before), space, overlap)
            &&& self.subtracted_to(Space::with_id(before), space, after)
        } else {
            &&& self.intersected_to(Space::with_id(before), space, 0)
            &&& after == before
        }
    }

    /// The earlier arms `covered`, met in order with what is left of the
    /// target (`rems[0]` at first): each that meets something of it is taken
    /// and what it covers taken away; they are met until nothing is left or
    /// every one has been met.
    pub(crate) closed spec fn covering_trace(self, covered: Seq<CoveredArm<O::Type, O::Extractor>>, rems: Seq<nat>, taken: Seq<bool>) -> bool {
        &&& rems.len() == taken.len() + 1
        &&& taken.len() <= covered.len()
        &&& taken.len() == covered.len() || rems.last() == 0
        &&& forall|t: int|
            0 <= t < taken.len() ==> #[trigger] self.covering_step(covered[t].covered_space, rems[t], taken[t], rems[t + 1])
    }

    proof fn lemma_covering_step_kept(self, prev: Self, space: Space<O::Type, O::Extractor>, before: nat, taken: bool, after: nat)
        requires
            self.evolves(prev),
            prev.covering_step(space, before, taken, after),
        ensures
            self.covering_step(space, before, taken, after),
    {
        if taken {
            let overlap = choose|overlap: nat| overlap != 0 && #[trigger] prev.intersected_to(Space::with_id(before), space, overlap);
            self.lemma_intersected_kept(prev, Space::with_id(before), space, overlap);
            self.lemma_subtracted_kept(prev, Space::with_id(before), space, after);
        } else {
            self.lemma_intersected_kept(prev, Space::with_id(before), space, 0);
        }
    }

    /// The arms listed in `indices` are those that, met in order among
    /// `arms` with what is left of `target` (nothing, for the empty space),
    /// each took something of it away, until nothing was left or every one
    /// of `arms` was met.
    pub(crate) closed spec fn covering_listed(self, target: Space<O::Type, O::Extractor>, arms: Seq<CoveredArm<O::Type, O::Extractor>>, indices: Seq<usize>) -> bool {
        exists|rems: Seq<nat>, taken: Seq<bool>|
            #![trigger self.covering_trace(arms, rems, taken)]
            self.covering_trace(arms, rems, taken) && ((target@ == 0 && rems[0] == 0) || self.remembered_simplification(target) == Some(
                rems[0],
            )) && indices == taken_indices(arms, taken)
    }

    proof fn lemma_covering_listed_kept(self, prev: Self, target: Space<O::Type, O::Extractor>, arms: Seq<CoveredArm<O::Type, O::Extractor>>, indices: Seq<usize>)
        requires
            self.evolves(prev),
            prev.covering_listed(target, arms, indices),
        ensures
            self.covering_listed(target, arms, indices),
    {
        let (rems, taken) = choose|rems: Seq<nat>, taken: Seq<bool>|
            #![trigger prev.covering_trace(arms, rems, taken)]
            prev.covering_trace(arms, rems, taken) && ((target@ == 0 && rems[0] == 0) || prev.remembered_simplification(target) == Some(
                rems[0],
            )) && indices == taken_indices(arms, taken);
        assert forall|t: int| 0 <= t < taken.len() implies #[trigger] self.covering_step(arms[t].covered_space, rems[t], taken[t], rems[t + 1]) by {
            assert(prev.covering_step(arms[t].covered_space, rems[t], taken[t], rems[t + 1]));
            self.lemma_covering_step_kept(prev, arms[t].covered_space, rems[t], taken[t], rems[t + 1]);
        }
        assert(self.covering_trace(arms, rems, taken));
        if !(target@ == 0 && rems[0] == 0) {
            self.lemma_remembered_kept(prev, target);
        }
    }

    /// Nothing is left of the empty space, so it needs no arm.
    proof fn lemma_covering_listed_empty(self, target: Space<O::Type, O::Extractor>, arms: Seq<CoveredArm<O::Type, O::Extractor>>)
        requires
            target@ == 0,
        ensures
            self.covering_listed(target, arms, Seq::empty()),
    {
        let rems = seq![0nat];
        let taken = Seq::<bool>::empty();
        assert(self.covering_trace(arms, rems, taken));
        assert(taken_indices(arms, taken) =~= Seq::<usize>::empty());
    }

    /// The covering lists of the warnings so far stay accounted for when the
    /// engine evolves and one more arm is met.
    proof fn lemma_covering_listed_step(
        self,
        s0: Self,
        input: MatchInput<O::Type, O::Extractor>,
        covered_list: Seq<nat>,
        new_covered: Seq<nat>,
        w_old: Seq<ReachabilityWarning>,
        warnings: Seq<ReachabilityWarning>,
    )
        requires
            self.evolves(s0),
            new_covered.len() == covered_list.len() + 1,
            forall|k: int| 0 <= k < covered_list.len() ==> #[trigger] new_covered[k] == covered_list[k],
            w_old.len() <= warnings.len(),
            forall|k: int| 0 <= k < w_old.len() ==> #[trigger] warnings[k] == w_old[k],
            forall|w: int| 0 <= w < w_old.len() ==> warning_arm_index(#[trigger] w_old[w]) < covered_list.len(),
            s0.steps() > 0 ==> forall|w: int|
                0 <= w < w_old.len() && (#[trigger] w_old[w]) is Unreachable ==> s0.covering_listed(
                    Space::with_id(covered_list[warning_arm_index(w_old[w])]),
                    earlier_covering_arms(input, covered_list, warning_arm_index(w_old[w])),
                    warning_covering(w_old[w]),
                ),
            self.steps() > 0 ==> forall|w: int|
                w_old.len() <= w < warnings.len() && (#[trigger] warnings[w]) is Unreachable ==> self.covering_listed(
                    Space::with_id(new_covered[warning_arm_index(warnings[w])]),
                    earlier_covering_arms(input, new_covered, warning_arm_index(warnings[w])),
                    warning_covering(warnings[w]),
                ),
        ensures
            self.steps() > 0 ==> forall|w: int|
                0 <= w < warnings.len() && (#[trigger] warnings[w]) is Unreachable ==> self.covering_listed(
                    Space::with_id(new_covered[warning_arm_index(warnings[w])]),
                    earlier_covering_arms(input, new_covered, warning_arm_index(warnings[w])),
                    warning_covering(warnings[w]),
                ),
    {
        if self.steps() > 0 {
            assert forall|w: int|
                0 <= w < warnings.len() && (#[trigger] warnings[w]) is Unreachable implies self.covering_listed(
                    Space::with_id(new_covered[warning_arm_index(warnings[w])]),
                    earlier_covering_arms(input, new_covered, warning_arm_index(warnings[w])),
                    warning_covering(warnings[w]),
                ) by {
                if w < w_old.len() {
                    assert(warnings[w] == w_old[w]);
                    let j = warning_arm_index(w_old[w]);
                    assert(w_old[w] is Unreachable);
                    assert(0 <= j < covered_list.len());
                    lemma_earlier_covering_arms_prefix(input, covered_list, new_covered, j);
                    assert(new_covered[j] == covered_list[j]);
                    self.lemma_covering_listed_kept(s0, Space::with_id(covered_list[j]), earlier_covering_arms(input, covered_list, j), warning_covering(w_old[w]));
                }
            }
        }
    }

    /// The warnings that one more arm adds are accounted for: those of arms
    /// that covered nothing need no arm, and the one of the arm itself was
    /// accounted for when it was made.
    proof fn lemma_new_warnings_listed(
        self,
        s_checked: Self,
        input: MatchInput<O::Type, O::Extractor>,
        covered_list: Seq<nat>,
        unions: Seq<nat>,
        covered_space: Space<O::Type, O::Extractor>,
        arms_start: Seq<CoveredArm<O::Type, O::Extractor>>,
        w_start: Seq<ReachabilityWarning>,
        w_flushed: Seq<ReachabilityWarning>,
        w_done: Seq<ReachabilityWarning>,
        old_deferred: Seq<usize>,
    )
        requires
            self.evolves(s_checked),
            self.steps() > 0,
            arms_start == earlier_covering_arms(input, covered_list, covered_list.len() as int),
            w_start.len() <= w_flushed.len() <= w_done.len(),
            w_flushed.len() == w_start.len() + old_deferred.len(),
            forall|k: int|
                w_start.len() <= k < w_flushed.len() ==> (#[trigger] w_flushed[k]) is Unreachable && warning_arm_index(w_flushed[k])
                    == old_deferred[k - w_start.len()] && warning_covering(w_flushed[k]).len() == 0,
            forall|k: int| 0 <= k < w_flushed.len() ==> #[trigger] w_done[k] == w_flushed[k],
            forall|i: int| 0 <= i < old_deferred.len() ==> #[trigger] old_deferred[i] < covered_list.len(),
            forall|i: int| 0 <= i < old_deferred.len() ==> #[trigger] quiet_from(covered_list, unions, old_deferred[i] as int, covered_list.len() as int),
            forall|w: int|
                w_flushed.len() <= w < w_done.len() && (#[trigger] w_done[w]) is Unreachable ==> s_checked.covering_listed(
                    covered_space,
                    arms_start,
                    warning_covering(w_done[w]),
                ) && warning_arm_index(w_done[w]) == covered_list.len(),
        ensures
            forall|w: int|
                w_start.len() <= w < w_done.len() && (#[trigger] w_done[w]) is Unreachable ==> self.covering_listed(
                    Space::with_id(covered_list.push(covered_space@)[warning_arm_index(w_done[w])]),
                    earlier_covering_arms(input, covered_list.push(covered_space@), warning_arm_index(w_done[w])),
                    warning_covering(w_done[w]),
                ),
    {
        let n = covered_list.len() as int;
        let new_covered = covered_list.push(covered_space@);
        covered_space.lemma_with_id(0);
        assert forall|w: int|
            w_start.len() <= w < w_done.len() && (#[trigger] w_done[w]) is Unreachable implies self.covering_listed(
                Space::with_id(new_covered[warning_arm_index(w_done[w])]),
                earlier_covering_arms(input, new_covered, warning_arm_index(w_done[w])),
                warning_covering(w_done[w]),
            ) by {
            let j = warning_arm_index(w_done[w]);
            if w < w_flushed.len() {
                assert(w_done[w] == w_flushed[w]);
                let i = w - w_start.len();
                assert(j == old_deferred[i]);
                assert(quiet_from(covered_list, unions, old_deferred[i] as int, n));
                assert(quiet_at(covered_list, unions, j));
                assert(new_covered[j] == covered_list[j]);
                assert(warning_covering(w_done[w]) =~= Seq::<usize>::empty());
                self.lemma_covering_listed_empty(Space::with_id(new_covered[j]), earlier_covering_arms(input, new_covered, j));
            } else {
                assert(j == n);
                assert(new_covered[n] == covered_space@);
                assert forall|k: int| 0 <= k < covered_list.len() implies #[trigger] new_covered[k] == covered_list[k] by {}
                lemma_earlier_covering_arms_prefix(input, covered_list, new_covered, n);
                self.lemma_covering_listed_kept(s_checked, covered_space, arms_start, warning_covering(w_done[w]));
            }
        }
    }

    /// Each warning that an arm is unreachable lists the earlier arms that,
    /// met in order with what is left of what the arm covers, each took
    /// something of it away, until nothing was left or every earlier arm that
    /// is not partial and covers something was met; `covered` holding what
    /// each arm covers of the scrutinee.
    pub closed spec fn warnings_list_covering(self, input: MatchInput<O::Type, O::Extractor>, covered: Seq<nat>, warnings: Seq<ReachabilityWarning>) -> bool {
        forall|w: int|
            0 <= w < warnings.len() && (#[trigger] warnings[w]) is Unreachable ==> self.covering_listed(
                Space::with_id(covered[warning_arm_index(warnings[w])]),
                earlier_covering_arms(input, covered, warning_arm_index(warnings[w])),
                warning_covering(warnings[w]),
            )
    }

    /// The engine answered the intersection of `left` and `right`, and that
    /// intersection simplifies to `result`.
    pub closed spec fn intersected_to(self, left: Space<O::Type, O::Extractor>, right: Space<O::Type, O::Extractor>, result: nat) -> bool {
        exists|id: nat|
            #![trigger self.remembered_simplification(Space::with_id(id))]
            self.answered_intersection(left, right) == Some(id) && self.remembered_simplification(Space::with_id(id)) == Some(result)
    }

    proof fn lemma_intersected_kept(self, prev: Self, left: Space<O::Type, O::Extractor>, right: Space<O::Type, O::Extractor>, result: nat)
        requires
            self.evolves(prev),
            prev.intersected_to(left, right, result),
        ensures
            self.intersected_to(left, right, result),
    {
        let id = choose|id: nat| prev.answered_intersection(left, right) == Some(id) && prev.remembered_simplification(Space::with_id(id)) == Some(result);
        self.lemma_intersection_answer_kept(prev, left, right);
        self.lemma_simplification_kept(prev, Space::with_id(id));
    }

    /// What arm `j` covers and what the earlier arms cover, as the engine
    /// answered them: `covered[j]` is the simplified intersection of the arm's
    /// pattern with the scrutinee, and `unions[j + 1]` adds it to `unions[j]`
    /// when the arm is not partial and covers something.
    pub closed spec fn reachability_step(self, input: MatchInput<O::Type, O::Extractor>, covered: Seq<nat>, unions: Seq<nat>, j: int) -> bool {
        let arm = input.arms@[j];
        &&& self.ctx().valid_space(Space::with_id(covered[j]))
        &&& self.ctx().valid_space(Space::with_id(unions[j]))
        &&& self.ctx().valid_space(Space::with_id(unions[j + 1]))
        &&& exists|current: Space<O::Type, O::Extractor>|
            #![trigger self.arm_space_is(input, j, current)]
            self.arm_space_is(input, j, current) && self.intersected_to(current, input.scrutinee_space, covered[j])
        &&& if !arm.is_partial && covered[j] != 0 {
            self.ctx().is_union_of(
                Space::with_id(unions[j + 1]),
                self.ctx().union_member_list(seq![Space::with_id(unions[j]), Space::with_id(covered[j])]),
            )
        } else {
            unions[j + 1] == unions[j]
        }
    }

    /// Arm `j` is rightly reported to match nothing but the null value: it
    /// covers something or follows arms that do, what it covers is no
    /// subspace of what the earlier arms cover, and it is a subspace of that
    /// together with the null space.
    pub closed spec fn only_null_justified(self, input: MatchInput<O::Type, O::Extractor>, covered: Seq<nat>, unions: Seq<nat>, j: int) -> bool {
        &&& !(unions[j] == 0 && covered[j] == 0)
        &&& self.answered_subspace(Space::with_id(covered[j]), Space::with_id(unions[j])) == Some(false)
        &&& input.null_space is Some
        &&& exists|cover: Space<O::Type, O::Extractor>|
            #![trigger self.answered_subspace(Space::with_id(covered[j]), cover)]
            self.ctx().is_union_of(cover, self.ctx().union_member_list(seq![Space::with_id(unions[j]), input.null_space->Some_0]))
                && self.answered_subspace(Space::with_id(covered[j]), cover) == Some(true)
    }

    /// Arm `j` is one that may be reported to match only the null value: a
    /// wildcard of a match with a null space, covering something or following
    /// arms that do, whose covered space the engine answered is no subspace
    /// of what the earlier arms cover, with no earlier arm so reported.
    pub closed spec fn only_null_candidate(
        self,
        input: MatchInput<O::Type, O::Extractor>,
        covered: Seq<nat>,
        unions: Seq<nat>,
        warnings: Seq<ReachabilityWarning>,
        j: int,
    ) -> bool {
        &&& input.arms@[j].is_wildcard
        &&& input.null_space is Some
        &&& !(unions[j] == 0 && covered[j] == 0)
        &&& self.answered_subspace(Space::with_id(covered[j]), Space::with_id(unions[j])) == Some(false)
        &&& forall|i: int| 0 <= i < j ==> !#[trigger] reports_only_null(warnings, i)
    }

    /// The engine answered whether what arm `j` covers is a subspace of what
    /// the earlier arms cover together with the null space, and arm `j` is
    /// reported to match only the null value exactly when it answered yes.
    pub closed spec fn null_cover_decides(
        self,
        input: MatchInput<O::Type, O::Extractor>,
        covered: Seq<nat>,
        unions: Seq<nat>,
        warnings: Seq<ReachabilityWarning>,
        j: int,
    ) -> bool {
        exists|cover: Space<O::Type, O::Extractor>|
            #![trigger self.answered_subspace(Space::with_id(covered[j]), cover)]
            self.ctx().is_union_of(cover, self.ctx().union_member_list(seq![Space::with_id(unions[j]), input.null_space->Some_0]))
                && self.answered_subspace(Space::with_id(covered[j]), cover) is Some && (reports_only_null(warnings, j)
                <==> self.answered_subspace(Space::with_id(covered[j]), cover) == Some(true))
    }

    proof fn lemma_null_cover_decides_kept(
        self,
        prev: Self,
        input: MatchInput<O::Type, O::Extractor>,
        covered: Seq<nat>,
        unions: Seq<nat>,
        warnings: Seq<ReachabilityWarning>,
        later: Seq<ReachabilityWarning>,
        j: int,
    )
        requires
            self.evolves(prev),
            input_ok(prev.ctx(), input),
            input.null_space is Some,
            prev.ctx().valid_space(Space::with_id(unions[j])),
            prev.null_cover_decides(input, covered, unions, warnings, j),
            reports_only_null(later, j) == reports_only_null(warnings, j),
        ensures
            self.null_cover_decides(input, covered, unions, later, j),
    {
        let members = seq![Space::<O::Type, O::Extractor>::with_id(unions[j]), input.null_space->Some_0];
        let cover = choose|cover: Space<O::Type, O::Extractor>|
            #![trigger prev.answered_subspace(Space::with_id(covered[j]), cover)]
            prev.ctx().is_union_of(cover, prev.ctx().union_member_list(members)) && prev.answered_subspace(
                Space::with_id(covered[j]),
                cover,
            ) is Some && (reports_only_null(warnings, j) <==> prev.answered_subspace(Space::with_id(covered[j]), cover) == Some(true));
        assert forall|i: int| 0 <= i < members.len() implies prev.ctx().valid_space(#[trigger] members[i]) by {}
        self.ctx().lemma_union_member_list_extends(prev.ctx(), members);
        self.ctx().lemma_is_union_of_extends(prev.ctx(), cover, prev.ctx().union_member_list(members));
        self.lemma_answered_kept(prev, Space::with_id(covered[j]), cover);
        assert(self.answered_subspace(Space::with_id(covered[j]), cover) is Some);
    }

    proof fn lemma_only_null_justified_kept(self, prev: Self, input: MatchInput<O::Type, O::Extractor>, covered: Seq<nat>, unions: Seq<nat>, j: int)
        requires
            self.evolves(prev),
            input_ok(prev.ctx(), input),
            prev.ctx().valid_space(Space::with_id(unions[j])),
            prev.only_null_justified(input, covered, unions, j),
        ensures
            self.only_null_justified(input, covered, unions, j),
    {
        self.lemma_answered_kept(prev, Space::with_id(covered[j]), Space::with_id(unions[j]));
        let members = seq![Space::<O::Type, O::Extractor>::with_id(unions[j]), input.null_space->Some_0];
        let cover = choose|cover: Space<O::Type, O::Extractor>|
            prev.ctx().is_union_of(cover, prev.ctx().union_member_list(members)) && prev.answered_subspace(
                Space::with_id(covered[j]),
                cover,
            ) == Some(true);
        assert forall|i: int| 0 <= i < members.len() implies prev.ctx().valid_space(#[trigger] members[i]) by {}
        self.ctx().lemma_union_member_list_extends(prev.ctx(), members);
        self.ctx().lemma_is_union_of_extends(prev.ctx(), cover, prev.ctx().union_member_list(members));
        self.lemma_answered_kept(prev, Space::with_id(covered[j]), cover);
    }

    /// `current` is the space that arm `j` stands for: its pattern, joined
    /// with the null space when the arm is a wildcard and the match has one.
    pub closed spec fn arm_space_is(self, input: MatchInput<O::Type, O::Extractor>, j: int, current: Space<O::Type, O::Extractor>) -> bool {
        let arm = input.arms@[j];
        if arm.is_wildcard && input.null_space is Some {
            self.ctx().is_union_of(current, self.ctx().union_member_list(seq![arm.pattern_space, input.null_space->Some_0]))
        } else {
            current == arm.pattern_space
        }
    }

    proof fn lemma_arm_space_kept(self, prev: Self, input: MatchInput<O::Type, O::Extractor>, j: int, current: Space<O::Type, O::Extractor>)
        requires
            self.evolves(prev),
            input_ok(prev.ctx(), input),
            0 <= j < input.arms@.len(),
            prev.arm_space_is(input, j, current),
        ensures
            self.arm_space_is(input, j, current),
    {
        let arm = input.arms@[j];
        if arm.is_wildcard && input.null_space is Some {
            let members = seq![arm.pattern_space, input.null_space->Some_0];
            assert forall|i: int| 0 <= i < members.len() implies prev.ctx().valid_space(#[trigger] members[i]) by {}
            self.ctx().lemma_union_member_list_extends(prev.ctx(), members);
            self.ctx().lemma_is_union_of_extends(prev.ctx(), current, prev.ctx().union_member_list(members));
        }
    }

    /// `covered` and `unions` follow the arms one by one from an empty union.
    pub closed spec fn reachability_trace(self, input: MatchInput<O::Type, O::Extractor>, covered: Seq<nat>, unions: Seq<nat>) -> bool {
        &&& covered.len() == input.arms@.len()
        &&& unions.len() == input.arms@.len() + 1
        &&& unions[0] == 0
        &&& forall|j: int| 0 <= j < input.arms@.len() ==> #[trigger] self.reachability_step(input, covered, unions, j)
    }

    /// Arm `j`, among the first `n`, is unreachable: when it and the arms
    /// before it cover nothing, some later arm among the first `n` does;
    /// otherwise what it covers is a subspace of what the earlier arms cover.
    pub closed spec fn arm_unreachable(self, covered: Seq<nat>, unions: Seq<nat>, j: int, n: int) -> bool {
        if unions[j] == 0 && covered[j] == 0 {
            covered_later(covered, unions, j, n)
        } else {
            self.answered_subspace(Space::with_id(covered[j]), Space::with_id(unions[j])) == Some(true)
        }
    }

    proof fn lemma_quiet_arm_covered_later(self, covered: Seq<nat>, unions: Seq<nat>, j: int, n: int) -> (k: int)
        requires
            self.arm_unreachable(covered, unions, j, n),
            unions[j] == 0,
            covered[j] == 0,
        ensures
            j < k < n,
            unions[k] != 0 || covered[k] != 0,
    {
        assert(covered_later(covered, unions, j, n));
        choose|k: int| covers_at(covered, unions, j, n, k)
    }

    proof fn lemma_reachability_step_kept(self, prev: Self, input: MatchInput<O::Type, O::Extractor>, covered: Seq<nat>, unions: Seq<nat>, j: int)
        requires
            self.evolves(prev),
            input_ok(prev.ctx(), input),
            0 <= j < input.arms@.len(),
            prev.reachability_step(input, covered, unions, j),
        ensures
            self.reachability_step(input, covered, unions, j),
    {
        let arm = input.arms@[j];
        let current = choose|current: Space<O::Type, O::Extractor>|
            #![trigger prev.arm_space_is(input, j, current)]
            prev.arm_space_is(input, j, current) && prev.intersected_to(current, input.scrutinee_space, covered[j]);
        self.lemma_arm_space_kept(prev, input, j, current);
        self.lemma_intersected_kept(prev, current, input.scrutinee_space, covered[j]);
        if !arm.is_partial && covered[j] != 0 {
            let members = seq![Space::<O::Type, O::Extractor>::with_id(unions[j]), Space::<O::Type, O::Extractor>::with_id(covered[j])];
            assert forall|i: int| 0 <= i < members.len() implies prev.ctx().valid_space(#[trigger] members[i]) by {}
            self.ctx().lemma_union_member_list_extends(prev.ctx(), members);
            self.ctx().lemma_is_union_of_extends(prev.ctx(), Space::with_id(unions[j + 1]), prev.ctx().union_member_list(members));
        }
    }

    /// `analysis` is what the engine answers for `input`: while steps remain,
    /// nothing is left uncovered exactly when the scrutinee, with every
    /// non-partial arm taken away, is empty or simplifies to nothing; and an
    /// arm is reported unreachable exactly when what it covers of the
    /// scrutinee (a wildcard together with the null space, where there is
    /// one) is a subspace of what the earlier arms cover, or it covers
    /// nothing before an arm that covers something; and an arm is reported to
    /// match only the null value exactly when, being a wildcard the earlier
    /// arms do not cover and no earlier arm being so reported, what it covers
    /// is a subspace of what the earlier arms cover together with the null
    /// space; and each arm reported unreachable lists the earlier arms that,
    /// met in order with what is left of what it covers, each took something
    /// of it away, until nothing was left or every earlier arm that covers
    /// something was met; and the uncovered spaces are what
    /// is left of the candidate
    /// counterexamples when those that a larger one covers are dropped.
    pub closed spec fn analysis_agrees(self, input: MatchInput<O::Type, O::Extractor>, analysis: MatchAnalysis<O::Type, O::Extractor>) -> bool {
        &&& analysis_ok(input, analysis)
        &&& ends_with_catch_all(input) ==> analysis.uncovered_spaces@.len() == 0
        &&& self.steps() > 0 && !input.check_counterexample_satisfiability ==> exists|path: Seq<nat>|
            #[trigger] self.exhaustion_path(input, path) && (path.last() == 0 || self.remembered_simplification(
                Space::with_id(path.last()),
            ) is Some) && (analysis.uncovered_spaces@.len() == 0 <==> (path.last() == 0 || self.remembered_simplification(
                Space::with_id(path.last()),
            ) == Some(0nat)))
        &&& self.steps() > 0 ==> exists|covered: Seq<nat>, unions: Seq<nat>|
            #[trigger] self.reachability_trace(input, covered, unions) && self.warnings_list_covering(
                input,
                covered,
                analysis.reachability_warnings@,
            ) && forall|j: int|
                0 <= j < input.arms@.len() ==> (#[trigger] reports_unreachable(analysis.reachability_warnings@, j)
                    <==> self.arm_unreachable(covered, unions, j, input.arms@.len() as int)) && (reports_only_null(
                    analysis.reachability_warnings@,
                    j,
                ) ==> self.only_null_justified(input, covered, unions, j)) && (self.only_null_candidate(
                    input,
                    covered,
                    unions,
                    analysis.reachability_warnings@,
                    j,
                ) ==> self.null_cover_decides(input, covered, unions, analysis.reachability_warnings@, j))
        &&& self.steps() > 0 ==> exists|candidates: Seq<Space<O::Type, O::Extractor>>|
            #[trigger] self.pruned_by_size(candidates, analysis.uncovered_spaces@)
    }

    /// Runs both exhaustivity and reachability analysis.
    #[verifier::spinoff_prover]
    pub fn analyze_match(&mut self, match_input: &MatchInput<O::Type, O::Extractor>) -> (analysis: MatchAnalysis<O::Type, O::Extractor>)
        requires
            old(self).wf(),
            input_ok(old(self).ctx(), *match_input),
        ensures
            final(self).evolves(*old(self)),
            analysis_ok(*match_input, analysis),
            forall|i: int| 0 <= i < analysis.uncovered_spaces@.len() ==> final(self).ctx().valid_space(#[trigger] analysis.uncovered_spaces@[i])
                && !final(self).ctx().is_union(analysis.uncovered_spaces@[i]),
            ends_with_catch_all(*match_input) ==> analysis.uncovered_spaces@.len() == 0,
            final(self).steps() > 0 && !match_input.check_counterexample_satisfiability ==> exists|path: Seq<nat>|
                #[trigger] final(self).exhaustion_path(*match_input, path) && (path.last() == 0
                    || final(self).remembered_simplification(Space::with_id(path.last())) is Some) && (analysis.uncovered_spaces@.len() == 0 <==> (
                path.last() == 0 || final(self).remembered_simplification(Space::with_id(path.last())) == Some(0nat))),
            final(self).steps() > 0 ==> exists|covered: Seq<nat>, unions: Seq<nat>|
                #[trigger] final(self).reachability_trace(*match_input, covered, unions) && final(self).warnings_list_covering(
                    *match_input,
                    covered,
                    analysis.reachability_warnings@,
                ) && forall|j: int|
                    0 <= j < match_input.arms@.len() ==> (#[trigger] reports_unreachable(analysis.reachability_warnings@, j)
                        <==> final(self).arm_unreachable(covered, unions, j, match_input.arms@.len() as int)) && (reports_only_null(
                        analysis.reachability_warnings@,
                        j,
                    ) ==> final(self).only_null_justified(*match_input, covered, unions, j)) && (final(self).only_null_candidate(
                        *match_input,
                        covered,
                        unions,
                        analysis.reachability_warnings@,
                        j,
                    ) ==> final(self).null_cover_decides(*match_input, covered, unions, analysis.reachability_warnings@, j)),
            final(self).steps() > 0 ==> exists|candidates: Seq<Space<O::Type, O::Extractor>>|
                #[trigger] final(self).pruned_by_size(candidates, analysis.uncovered_spaces@),
            final(self).analysis_agrees(*match_input, analysis),
    {
        let ghost s0 = *self;
        let uncovered_spaces = self.check_exhaustivity(match_input);
        let ghost s1 = *self;
        proof {
            lemma_input_ok_extends(s1.ctx(), s0.ctx(), *match_input);
        }
        let reachability_warnings = self.check_reachability(match_input);
        proof {
            Self::lemma_evolves_trans(*self, s1, s0);
            if self.steps() > 0 && !match_input.check_counterexample_satisfiability {
                let path = choose|path: Seq<nat>|
                    #[trigger] s1.exhaustion_path(*match_input, path) && (path.last() == 0
                        || s1.remembered_simplification(Space::with_id(path.last())) is Some) && (uncovered_spaces@.len() == 0 <==> (path.last() == 0
                        || s1.remembered_simplification(Space::with_id(path.last())) == Some(0nat)));
                assert forall|k: int| 0 <= k < match_input.arms@.len() implies #[trigger] self.exhaustion_step(*match_input, path, k) by {
                    assert(s1.exhaustion_step(*match_input, path, k));
                    self.lemma_exhaustion_step_kept(s1, *match_input, path, k);
                }
                assert(self.exhaustion_path(*match_input, path));
                if path.last() != 0 {
                    self.lemma_simplification_kept(s1, Space::with_id(path.last()));
                }
            }
            if self.steps() > 0 {
                let candidates = choose|candidates: Seq<Space<O::Type, O::Extractor>>| #[trigger] s1.pruned_by_size(candidates, uncovered_spaces@);
                self.lemma_pruned_by_size_kept(s1, candidates, uncovered_spaces@);
            }
        }
        MatchAnalysis { uncovered_spaces, reachability_warnings }
    }

    /// Intersects, then simplifies.
    fn intersect_simplified(&mut self, left_space: Space<O::Type, O::Extractor>, right_space: Space<O::Type, O::Extractor>) -> (result: Space<O::Type, O::Extractor>)
        requires
            old(self).wf(),
            old(self).ctx().valid_space(left_space),
            old(self).ctx().valid_space(right_space),
        ensures
            final(self).evolves(*old(self)),
            final(self).ctx().valid_space(result),
            left_space@ == 0 || right_space@ == 0 ==> result@ == 0,
            left_space@ == right_space@ && left_space@ != 0 ==> final(self).remembered_simplification(left_space) == Some(result@),
            final(self).steps() > 0 ==> final(self).intersected_to(left_space, right_space, result@),
    {
        let ghost s0 = *self;
        let intersection = self.intersect(left_space, right_space);
        let ghost s1 = *self;
        let result = self.simplify(intersection);
        proof {
            Self::lemma_evolves_trans(*self, s1, s0);
            if self.steps() > 0 {
                self.lemma_intersection_answer_kept(s1, left_space, right_space);
                intersection.lemma_with_id(0);
                assert(self.remembered_simplification(Space::with_id(intersection@)) == Some(result@));
            }
        }
        result
    }

    /// Subtracts, then simplifies.
    fn subtract_simplified(&mut self, left_space: Space<O::Type, O::Extractor>, right_space: Space<O::Type, O::Extractor>) -> (result: Space<O::Type, O::Extractor>)
        requires
            old(self).wf(),
            old(self).ctx().valid_space(left_space),
            old(self).ctx().valid_space(right_space),
        ensures
            final(self).evolves(*old(self)),
            final(self).ctx().valid_space(result),
            left_space@ == 0 ==> result@ == 0,
            left_space@ == right_space@ ==> result@ == 0,
            right_space@ == 0 ==> final(self).remembered_simplification(left_space) == Some(result@),
            final(self).steps() > 0 ==> final(self).subtracted_to(left_space, right_space, result@),
    {
        let ghost s0 = *self;
        let remainder = self.subtract(left_space, right_space);
        let ghost s1 = *self;
        let result = self.simplify(remainder);
        proof {
            Self::lemma_evolves_trans(*self, s1, s0);
            if self.steps() > 0 {
                self.lemma_subtraction_answer_kept(s1, left_space, right_space);
                remainder.lemma_with_id(0);
                assert(self.remembered_simplification(Space::with_id(remainder@)) == Some(result@));
            }
        }
        result
    }

    /// The spaces of the scrutinee that no non-partial arm covers, flattened,
    /// filtered and pruned.
    fn check_exhaustivity(&mut self, match_input: &MatchInput<O::Type, O::Extractor>) -> (uncovered: Vec<Space<O::Type, O::Extractor>>)
        requires
            old(self).wf(),
            input_ok(old(self).ctx(), *match_input),
        ensures
            final(self).evolves(*old(self)),
            forall|i: int| 0 <= i < uncovered@.len() ==> final(self).ctx().valid_space(#[trigger] uncovered@[i])
                && uncovered@[i]@ != 0 && !final(self).ctx().is_union(uncovered@[i]),
            match_input.scrutinee_space@ == 0 ==> uncovered@.len() == 0,
            ends_with_catch_all(*match_input) ==> uncovered@.len() == 0,
            (forall|i: int| 0 <= i < match_input.arms@.len() ==> (#[trigger] match_input.arms@[i]).is_partial)
                && match_input.scrutinee_space@ != 0 && !match_input.check_counterexample_satisfiability
                ==> (uncovered@.len() == 0 <==> final(self).remembered_simplification(match_input.scrutinee_space) == Some(0nat)),
            final(self).steps() > 0 && !match_input.check_counterexample_satisfiability ==> exists|path: Seq<nat>|
                #[trigger] final(self).exhaustion_path(*match_input, path) && (path.last() == 0
                    || final(self).remembered_simplification(Space::with_id(path.last())) is Some) && (uncovered@.len() == 0 <==> (path.last() == 0
                    || final(self).remembered_simplification(Space::with_id(path.last())) == Some(0nat))),
            final(self).steps() > 0 ==> exists|candidates: Seq<Space<O::Type, O::Extractor>>|
                #[trigger] final(self).pruned_by_size(candidates, uncovered@),
    {
        proof {
            self.lemma_ticked(*old(self));
        }
        let mut remainder = match_input.scrutinee_space;
        let mut i = match_input.arms.len();
        let ghost mut path: Seq<nat> = seq![remainder@];
        while i > 0
            invariant
                self.evolves(*old(self)),
                input_ok(self.ctx(), *match_input),
                self.ctx().valid_space(remainder),
                i <= match_input.arms@.len(),
                path.len() == match_input.arms@.len() - i + 1 || (remainder@ == 0 && path.len() <= match_input.arms@.len() - i + 1),
                1 <= path.len(),
                path[0] == match_input.scrutinee_space@,
                path.last() == remainder@,
                self.steps() > 0 ==> forall|k: int| 0 <= k < path.len() - 1 ==> #[trigger] self.exhaustion_step(*match_input, path, k),
                match_input.scrutinee_space@ == 0 ==> remainder@ == 0,
                (forall|j: int| i <= j < match_input.arms@.len() ==> (#[trigger] match_input.arms@[j]).is_partial)
                    ==> remainder == match_input.scrutinee_space,
                (exists|c: int|
                    #![trigger match_input.arms@[c]]
                    i <= c < match_input.arms@.len() && !match_input.arms@[c].is_partial
                        && match_input.arms@[c].pattern_space@ == match_input.scrutinee_space@
                        && forall|j: int| c < j < match_input.arms@.len() ==> (#[trigger] match_input.arms@[j]).is_partial)
                    ==> remainder@ == 0,
            ensures
                i == 0 || remainder@ == 0,
            decreases i,
        {
            i = i - 1;
            let arm = &match_input.arms[i];
            if arm.is_partial {
                proof {
                    if path.len() == match_input.arms@.len() - i {
                        let extended = path.push(remainder@);
                        if self.steps() > 0 {
                            assert forall|k: int| 0 <= k < extended.len() - 1 implies #[trigger] self.exhaustion_step(*match_input, extended, k) by {
                                if k < path.len() - 1 {
                                    assert(self.exhaustion_step(*match_input, path, k));
                                    assert(extended[k] == path[k] && extended[k + 1] == path[k + 1]);
                                }
                            }
                        }
                        path = extended;
                    }
                }
                continue;
            }
            if remainder.is_empty() {
                break;
            }
            let ghost before = *self;
            let ghost previous = remainder;
            remainder = self.subtract(remainder, arm.pattern_space);
            proof {
                Self::lemma_evolves_trans(*self, before, *old(self));
                lemma_input_ok_extends(self.ctx(), before.ctx(), *match_input);
                previous.lemma_with_id(0);
                let extended = path.push(remainder@);
                if self.steps() > 0 {
                    assert forall|k: int| 0 <= k < extended.len() - 1 implies #[trigger] self.exhaustion_step(*match_input, extended, k) by {
                        if k < path.len() - 1 {
                            assert(before.exhaustion_step(*match_input, path, k));
                            self.lemma_exhaustion_step_kept(before, *match_input, path, k);
                            assert(extended[k] == path[k] && extended[k + 1] == path[k + 1]);
                        } else {
                            assert(k == path.len() - 1);
                            assert(match_input.arms@.len() - 1 - k == i);
                        }
                    }
                }
                path = extended;
            }
        }
        proof {
            let rest = (match_input.arms@.len() + 1 - path.len()) as nat;
            let zeros = Seq::new(rest, |k: int| 0nat);
            let full = path + zeros;
            if self.steps() > 0 {
                assert forall|k: int| 0 <= k < match_input.arms@.len() implies #[trigger] self.exhaustion_step(*match_input, full, k) by {
                    if k < path.len() - 1 {
                        assert(self.exhaustion_step(*match_input, path, k));
                        assert(full[k] == path[k] && full[k + 1] == path[k + 1]);
                    } else {
                        assert(full[k] == 0 && full[k + 1] == 0);
                    }
                }
            }
            assert(full.last() == remainder@);
            path = full;
            if self.steps() > 0 {
                assert(self.exhaustion_path(*match_input, path));
            }
        }
        if remainder.is_empty() {
            let none: Vec<Space<O::Type, O::Extractor>> = Vec::new();
            proof {
                assert(self.pruned_by_size(none@, none@));
            }
            return none;
        }
        let ghost s1 = *self;
        let simplified_remainder = self.simplify(remainder);
        let ghost s2 = *self;
        proof {
            Self::lemma_evolves_trans(s2, s1, *old(self));
        }
        let uncovered_spaces = self.flatten_space(simplified_remainder);
        proof {
            Self::lemma_evolves_trans(*self, s2, *old(self));
        }
        let mut filtered_spaces: Vec<Space<O::Type, O::Extractor>> = Vec::new();
        let mut k: usize = 0;
        while k < uncovered_spaces.len()
            invariant
                self.wf(),
                k <= uncovered_spaces@.len(),
                forall|j: int| 0 <= j < uncovered_spaces@.len() ==> self.ctx().valid_space(#[trigger] uncovered_spaces@[j]),
                forall|j: int| 0 <= j < uncovered_spaces@.len() ==> !self.ctx().is_union(#[trigger] uncovered_spaces@[j]),
                !match_input.check_counterexample_satisfiability && (forall|j: int| 0 <= j < uncovered_spaces@.len()
                    ==> (#[trigger] uncovered_spaces@[j])@ != 0) ==> filtered_spaces@.len() == k,
                (forall|j: int| 0 <= j < uncovered_spaces@.len() ==> (#[trigger] uncovered_spaces@[j])@ == 0)
                    ==> filtered_spaces@.len() == 0,
                forall|j: int| 0 <= j < filtered_spaces@.len() ==> self.ctx().valid_space(#[trigger] filtered_spaces@[j])
                    && filtered_spaces@[j]@ != 0 && !self.ctx().is_union(filtered_spaces@[j]),
            decreases uncovered_spaces@.len() - k,
        {
            let space = uncovered_spaces[k];
            k = k + 1;
            if space.is_empty() {
                continue;
            }
            if match_input.check_counterexample_satisfiability && !self.operations.is_satisfiable(&*self.context, space) {
                continue;
            }
            filtered_spaces.push(space);
        }
        let ghost all_partial = forall|i: int| 0 <= i < match_input.arms@.len() ==> (#[trigger] match_input.arms@[i]).is_partial;
        proof {
            if all_partial && match_input.scrutinee_space@ != 0 && !match_input.check_counterexample_satisfiability {
                assert(remainder == match_input.scrutinee_space);
                self.lemma_remembered_kept(s2, remainder);
                if simplified_remainder@ == 0 {
                    assert(uncovered_spaces@ == seq![simplified_remainder]);
                } else {
                    assert(filtered_spaces@.len() == uncovered_spaces@.len());
                }
            }
        }
        proof {
            Self::lemma_evolves_trans(*self, s2, s1);
            if self.steps() > 0 && !match_input.check_counterexample_satisfiability {
                assert forall|k: int| 0 <= k < match_input.arms@.len() implies #[trigger] self.exhaustion_step(*match_input, path, k) by {
                    assert(s1.exhaustion_step(*match_input, path, k));
                    self.lemma_exhaustion_step_kept(s1, *match_input, path, k);
                }
                assert(self.exhaustion_path(*match_input, path));
                remainder.lemma_with_id(0);
                self.lemma_remembered_kept(s2, remainder);
                if simplified_remainder@ == 0 {
                    assert(uncovered_spaces@ == seq![simplified_remainder]);
                } else {
                    assert(filtered_spaces@.len() == uncovered_spaces@.len());
                }
            }
        }
        if filtered_spaces.len() == 0 {
            proof {
                assert(self.pruned_by_size(filtered_spaces@, filtered_spaces@));
            }
            filtered_spaces
        } else {
            let ghost before = *self;
            let pruned = self.remove_subsumed_spaces(&filtered_spaces);
            proof {
                Self::lemma_evolves_trans(*self, before, *old(self));
                assert forall|i: int| 0 <= i < pruned@.len() implies self.ctx().valid_space(#[trigger] pruned@[i])
                    && pruned@[i]@ != 0 && !self.ctx().is_union(pruned@[i]) by {
                    assert(filtered_spaces@.contains(pruned@[i]));
                    let j = choose|j: int| 0 <= j < filtered_spaces@.len() && filtered_spaces@[j] == pruned@[i];
                    assert(before.ctx().valid_space(filtered_spaces@[j]));
                    assert(!before.ctx().is_union(filtered_spaces@[j]));
                    assert(self.ctx().nodes()[pruned@[i]@ - 1] == before.ctx().nodes()[pruned@[i]@ - 1]);
                }
                if all_partial && match_input.scrutinee_space@ != 0 && !match_input.check_counterexample_satisfiability {
                    self.lemma_remembered_kept(before, remainder);
                }
                if self.steps() > 0 && !match_input.check_counterexample_satisfiability {
                    assert forall|k: int| 0 <= k < match_input.arms@.len() implies #[trigger] self.exhaustion_step(*match_input, path, k) by {
                        assert(before.exhaustion_step(*match_input, path, k));
                        self.lemma_exhaustion_step_kept(before, *match_input, path, k);
                    }
                    assert(self.exhaustion_path(*match_input, path));
                    self.lemma_remembered_kept(before, remainder);
                }
            }
            pruned
        }
    }

    /// What the estimate `size` of `space` is, as far as the node of `space`
    /// decides it, the types in `visited` being on the way already: nothing
    /// for the empty space; one for a product without parameters; for a type
    /// space, one when its type was visited or does not decompose, and
    /// nothing when it decomposes into nothing.
    pub closed spec fn estimate_base(self, space: Space<O::Type, O::Extractor>, visited: Seq<TI::Key>, size: nat) -> bool {
        if space@ == 0 {
            size == 0
        } else {
            match self.ctx().node(space) {
                SpaceNode::Product { parameters, .. } => parameters@.len() == 0 ==> size == 1,
                SpaceNode::Type { value_type: key, .. } => TI::Key::obeys_eq_spec() ==> exists|copy: TI::Key|
                    #[trigger] cloned::<TI::Key>(key, copy) && (visited_has(visited, copy) ==> size == 1) && (!visited_has(
                        visited,
                        copy,
                    ) ==> exists|decomposition: Decomposition<TI::Key>|
                        #[trigger] self.decomposes_as(copy, decomposition) && (decomposition is NotDecomposable ==> size == 1)
                            && (decomposition is Empty ==> size == 0)),
                SpaceNode::Union(_) => true,
            }
        }
    }

    /// The estimate `size` of `space` one level down: a union counts the
    /// sum of its members, a product the product of its parameters, and a
    /// type that decomposes into parts the sum of the type spaces of its
    /// parts, its own type being visited on the way; each of these counts
    /// being capped at `usize::MAX` as it is taken.
    pub closed spec fn estimate_agrees(self, space: Space<O::Type, O::Extractor>, visited: Seq<TI::Key>, size: nat) -> bool {
        &&& self.estimate_base(space, visited, size)
        &&& space@ != 0 ==> match self.ctx().node(space) {
            SpaceNode::Union(members) => exists|sizes: Seq<nat>|
                #![trigger saturating_sum(sizes)]
                sizes.len() == members@.len() && size == saturating_sum(sizes) && forall|j: int|
                    0 <= j < sizes.len() ==> self.estimate_base(members@[j], visited, #[trigger] sizes[j]),
            SpaceNode::Product { parameters, .. } => exists|sizes: Seq<nat>|
                #![trigger saturating_product_of(sizes)]
                sizes.len() == parameters@.len() && size == saturating_product_of(sizes) && forall|j: int|
                    0 <= j < sizes.len() ==> self.estimate_base(parameters@[j], visited, #[trigger] sizes[j]),
            SpaceNode::Type { value_type: key, .. } => TI::Key::obeys_eq_spec() ==> exists|copy: TI::Key|
                #[trigger] cloned::<TI::Key>(key, copy) && (visited_has(visited, copy) ==> size == 1) && (!visited_has(
                    visited,
                    copy,
                ) ==> exists|decomposition: Decomposition<TI::Key>|
                    #[trigger] self.decomposes_as(copy, decomposition) && (decomposition is NotDecomposable ==> size == 1)
                        && (decomposition is Empty ==> size == 0) && (decomposition matches Decomposition::Parts(parts)
                        ==> self.parts_estimate(copy, parts@, visited, size))),
        }
    }

    /// `size` is the capped sum of the estimates of the type spaces of
    /// `parts`, with a clone of `key` visited on top of `visited`.
    pub closed spec fn parts_estimate(self, key: TI::Key, parts: Seq<TI::Key>, visited: Seq<TI::Key>, size: nat) -> bool {
        exists|visited_key: TI::Key, spaces: Seq<Space<O::Type, O::Extractor>>, sizes: Seq<nat>|
            #![trigger cloned::<TI::Key>(key, visited_key), saturating_sum(sizes), spaces.len()]
            cloned::<TI::Key>(key, visited_key) && spaces.len() == parts.len() && sizes.len() == parts.len() && size
                == saturating_sum(sizes) && forall|j: int|
                0 <= j < parts.len() ==> #[trigger] self.is_part_space(spaces[j], parts[j]) && self.estimate_base(
                    spaces[j],
                    visited.push(visited_key),
                    sizes[j],
                )
    }

    proof fn lemma_estimate_base_kept(self, prev: Self, space: Space<O::Type, O::Extractor>, visited: Seq<TI::Key>, size: nat)
        requires
            self.evolves(prev),
            prev.ctx().valid_space(space),
            prev.estimate_base(space, visited, size),
        ensures
            self.estimate_base(space, visited, size),
    {
        if space@ != 0 {
            self.lemma_node_kept(prev, space);
            if let SpaceNode::Type { value_type: key, .. } = prev.ctx().node(space) {
                if TI::Key::obeys_eq_spec() {
                    let copy = choose|copy: TI::Key|
                        #[trigger] cloned::<TI::Key>(key, copy) && (visited_has(visited, copy) ==> size == 1) && (!visited_has(
                            visited,
                            copy,
                        ) ==> exists|decomposition: Decomposition<TI::Key>|
                            #[trigger] prev.decomposes_as(copy, decomposition) && (decomposition is NotDecomposable ==> size == 1)
                                && (decomposition is Empty ==> size == 0));
                    if !visited_has(visited, copy) {
                        let decomposition = choose|decomposition: Decomposition<TI::Key>|
                            #[trigger] prev.decomposes_as(copy, decomposition) && (decomposition is NotDecomposable ==> size == 1)
                                && (decomposition is Empty ==> size == 0);
                        self.lemma_decomposes_as_extends(prev, copy, decomposition);
                    }
                }
            }
        }
    }

    /// A rough count of the values a space stands for.
    pub fn estimated_space_size(&mut self, space: Space<O::Type, O::Extractor>) -> (size: usize)
        requires
            old(self).wf(),
            old(self).ctx().valid_space(space),
        ensures
            final(self).evolves(*old(self)),
            space@ == 0 ==> size == 0,
            space@ != 0 ==> (old(self).ctx().node(space) matches SpaceNode::Product { parameters, .. } && parameters@.len() == 0
                ==> size == 1),
            old(self).steps() > 0 && TI::Key::obeys_eq_spec() && space@ != 0 ==> (old(self).ctx().node(space) matches SpaceNode::Type { value_type: key, .. }
                ==> exists|copy: TI::Key, decomposition: Decomposition<TI::Key>|
                    #![trigger cloned::<TI::Key>(key, copy), final(self).decomposes_as(copy, decomposition)]
                    cloned::<TI::Key>(key, copy) && final(self).decomposes_as(copy, decomposition)
                        && (decomposition is NotDecomposable ==> size == 1) && (decomposition is Empty ==> size == 0)),
            final(self).steps() > 0 ==> final(self).estimate_agrees(space, Seq::empty(), size as nat),
    {
        let mut visited_types: Vec<TI::Key> = Vec::new();
        self.estimated_space_size_with_visited(space, &mut visited_types)
    }

    fn visited_contains(visited_types: &Vec<TI::Key>, key: &TI::Key) -> (found: bool)
        ensures
            TI::Key::obeys_eq_spec() ==> found == visited_has(visited_types@, *key),
    {
        let mut i: usize = 0;
        while i < visited_types.len()
            invariant
                i <= visited_types@.len(),
                TI::Key::obeys_eq_spec() ==> forall|j: int| 0 <= j < i ==> !(#[trigger] visited_types@[j]).eq_spec(key),
            decreases visited_types@.len() - i,
        {
            if visited_types[i] == *key {
                return true;
            }
            i = i + 1;
        }
        false
    }

    fn estimated_space_size_with_visited(&mut self, space: Space<O::Type, O::Extractor>, visited_types: &mut Vec<TI::Key>) -> (size: usize)
        requires
            old(self).wf(),
            old(self).ctx().valid_space(space),
        ensures
            final(self).evolves(*old(self)),
            final(visited_types)@ == old(visited_types)@,
            space@ == 0 ==> size == 0,
            space@ != 0 ==> (old(self).ctx().node(space) matches SpaceNode::Product { parameters, .. } && parameters@.len() == 0
                ==> size == 1),
            old(self).steps() > 0 && TI::Key::obeys_eq_spec() && space@ != 0 ==> (old(self).ctx().node(space) matches SpaceNode::Type { value_type: key, .. }
                ==> exists|copy: TI::Key| #[trigger] cloned::<TI::Key>(key, copy) && (visited_has(old(visited_types)@, copy) ==> size == 1) && (!(visited_has(old(visited_types)@, copy)) ==> exists|decomposition: Decomposition<TI::Key>|
                    #[trigger] final(self).decomposes_as(copy, decomposition) && (decomposition is NotDecomposable ==> size == 1) && (decomposition is Empty ==> size == 0))),
            final(self).steps() > 0 ==> final(self).estimate_agrees(space, old(visited_types)@, size as nat),
        decreases old(self).steps(),
    {
        if space.is_empty() {
            proof {
                self.lemma_ticked(*old(self));
            }
            return 0;
        }
        if !self.tick() {
            proof {
                self.lemma_ticked(*old(self));
            }
            return 1;
        }
        proof {
            self.lemma_ticked(*old(self));
        }
        match self.node_snapshot(space) {
            NodeSnapshot::Empty => 0,
            NodeSnapshot::Type { value_type, .. } => {
                if Self::visited_contains(visited_types, &value_type) {
                    return 1;
                }
                let ghost start = visited_types@;
                let visited_key = self.clone_type_key(&value_type);
                visited_types.push(visited_key);
                let ghost s1 = *self;
                let decomposition = self.decomposition_for_type_key(&value_type);
                let ghost asked = decomposition;
                let ghost s_asked = *self;
                proof {
                    s_asked.lemma_evolves_refl();
                    Self::lemma_evolves_trans(s_asked, s1, *old(self));
                }
                let estimate = match decomposition {
                    Decomposition::NotDecomposable => 1,
                    Decomposition::Empty => 0,
                    Decomposition::Parts(parts) => {
                        let ghost s2 = *self;
                        proof {
                            Self::lemma_evolves_trans(s2, s1, *old(self));
                        }
                        let ghost all_parts = parts@;
                        let mut parts = parts;
                        let mut total: usize = 0;
                        let ghost mut done: Seq<Space<O::Type, O::Extractor>> = Seq::empty();
                        let ghost mut sizes: Seq<nat> = Seq::empty();
                        while parts.len() > 0
                            invariant
                                self.evolves(*old(self)),
                                self.evolves(s_asked),
                                self.steps() < old(self).steps(),
                                visited_types@ == start.push(visited_key),
                                forall|j: int| 0 <= j < parts@.len() ==> self.ctx().type_interner().valid_key(#[trigger] parts@[j]),
                                done.len() == sizes.len(),
                                done.len() + parts@.len() == all_parts.len(),
                                parts@ == all_parts.subrange(done.len() as int, all_parts.len() as int),
                                total == saturating_sum(sizes),
                                TI::Key::obeys_eq_spec() && self.steps() > 0 ==> forall|j: int|
                                    #![trigger done[j]]
                                    0 <= j < done.len() ==> self.is_part_space(done[j], all_parts[j]) && self.estimate_base(
                                        done[j],
                                        start.push(visited_key),
                                        sizes[j],
                                    ),
                            decreases parts@.len(),
                        {
                            let part = parts.remove(0);
                            let ghost part_key = part;
                            let ghost b1 = *self;
                            let part_space = self.make_type_space_from_key(part, true);
                            let ghost b2 = *self;
                            proof {
                                Self::lemma_evolves_trans(b2, b1, *old(self));
                                Self::lemma_evolves_trans(b2, b1, s_asked);
                            }
                            let part_size = self.estimated_space_size_with_visited(part_space, visited_types);
                            proof {
                                Self::lemma_evolves_trans(*self, b2, *old(self));
                                Self::lemma_evolves_trans(*self, b2, s_asked);
                                Self::lemma_evolves_trans(*self, b2, b1);
                                assert forall|j: int| 0 <= j < parts@.len() implies self.ctx().type_interner().valid_key(#[trigger] parts@[j]) by {
                                    assert(b1.ctx().type_interner().valid_key(parts@[j]));
                                    assert(b2.ctx().type_interner().valid_key(parts@[j]));
                                }
                                let prev_done = done;
                                let prev_sizes = sizes;
                                done = done.push(part_space);
                                sizes = sizes.push(part_size as nat);
                                assert(sizes.drop_last() =~= prev_sizes);
                                if TI::Key::obeys_eq_spec() && self.steps() > 0 {
                                    assert(all_parts[prev_done.len() as int] == part_key);
                                    assert forall|j: int| #![trigger done[j]] 0 <= j < done.len() implies self.is_part_space(done[j], all_parts[j])
                                        && self.estimate_base(done[j], start.push(visited_key), sizes[j]) by {
                                        if j < prev_done.len() {
                                            assert(done[j] == prev_done[j]);
                                            assert(sizes[j] == prev_sizes[j]);
                                            assert(b1.is_part_space(prev_done[j], all_parts[j]));
                                            self.lemma_part_space_kept(b1, prev_done[j], all_parts[j]);
                                            b1.lemma_part_space_valid(prev_done[j], all_parts[j]);
                                            self.lemma_estimate_base_kept(b1, prev_done[j], start.push(visited_key), prev_sizes[j]);
                                        } else {
                                            assert(b2.is_part_space(part_space, part_key));
                                            self.lemma_part_space_kept(b2, part_space, part_key);
                                        }
                                    }
                                }
                                assert(parts@ =~= all_parts.subrange(done.len() as int, all_parts.len() as int));
                            }
                            total = total.saturating_add(part_size);
                        }
                        proof {
                            if TI::Key::obeys_eq_spec() && self.steps() > 0 {
                                assert(self.parts_estimate(value_type, all_parts, start, total as nat));
                            }
                        }
                        total
                    },
                };
                visited_types.pop();
                proof {
                    assert(visited_types@ =~= start);
                    if TI::Key::obeys_eq_spec() {
                        self.lemma_decomposes_as_extends(s_asked, value_type, asked);
                    }
                }
                estimate
            },
            NodeSnapshot::Product { parameters, .. } => {
                let mut total: usize = 1;
                let mut i: usize = 0;
                let ghost mut sizes: Seq<nat> = Seq::empty();
                while i < parameters.len()
                    invariant
                        parameters@.len() == 0 ==> total == 1,
                        self.evolves(*old(self)),
                        self.steps() < old(self).steps(),
                        i <= parameters@.len(),
                        visited_types@ == old(visited_types)@,
                        forall|j: int| 0 <= j < parameters@.len() ==> self.ctx().valid_space(#[trigger] parameters@[j]),
                        sizes.len() == i,
                        total == saturating_product_of(sizes),
                        self.steps() > 0 ==> forall|j: int|
                            0 <= j < i ==> self.estimate_base(parameters@[j], old(visited_types)@, #[trigger] sizes[j]),
                    decreases parameters@.len() - i,
                {
                    let ghost before = *self;
                    let parameter_size = self.estimated_space_size_with_visited(parameters[i], visited_types);
                    proof {
                        Self::lemma_evolves_trans(*self, before, *old(self));
                        let next_sizes = sizes.push(parameter_size as nat);
                        assert(next_sizes.drop_last() =~= sizes);
                        if self.steps() > 0 {
                            assert forall|j: int| 0 <= j < i + 1 implies self.estimate_base(parameters@[j], old(visited_types)@, #[trigger] next_sizes[j]) by {
                                if j < i {
                                    assert(next_sizes[j] == sizes[j]);
                                    self.lemma_estimate_base_kept(before, parameters@[j], old(visited_types)@, sizes[j]);
                                }
                            }
                        }
                        sizes = next_sizes;
                    }
                    total = saturating_product(total, parameter_size);
                    i = i + 1;
                }
                proof {
                    self.lemma_node_kept(*old(self), space);
                }
                total
            },
            NodeSnapshot::Union(members) => {
                let mut total: usize = 0;
                let mut i: usize = 0;
                let ghost mut sizes: Seq<nat> = Seq::empty();
                while i < members.len()
                    invariant
                        self.evolves(*old(self)),
                        self.steps() < old(self).steps(),
                        i <= members@.len(),
                        visited_types@ == old(visited_types)@,
                        forall|j: int| 0 <= j < members@.len() ==> self.ctx().valid_space(#[trigger] members@[j]),
                        sizes.len() == i,
                        total == saturating_sum(sizes),
                        self.steps() > 0 ==> forall|j: int|
                            0 <= j < i ==> self.estimate_base(members@[j], old(visited_types)@, #[trigger] sizes[j]),
                    decreases members@.len() - i,
                {
                    let ghost before = *self;
                    let member_size = self.estimated_space_size_with_visited(members[i], visited_types);
                    proof {
                        Self::lemma_evolves_trans(*self, before, *old(self));
                        let next_sizes = sizes.push(member_size as nat);
                        assert(next_sizes.drop_last() =~= sizes);
                        if self.steps() > 0 {
                            assert forall|j: int| 0 <= j < i + 1 implies self.estimate_base(members@[j], old(visited_types)@, #[trigger] next_sizes[j]) by {
                                if j < i {
                                    assert(next_sizes[j] == sizes[j]);
                                    self.lemma_estimate_base_kept(before, members@[j], old(visited_types)@, sizes[j]);
                                }
                            }
                        }
                        sizes = next_sizes;
                    }
                    total = total.saturating_add(member_size);
                    i = i + 1;
                }
                proof {
                    self.lemma_node_kept(*old(self), space);
                }
                total
            },
        }
    }

    proof fn lemma_parts_estimate_kept(self, prev: Self, key: TI::Key, parts: Seq<TI::Key>, visited: Seq<TI::Key>, size: nat)
        requires
            self.evolves(prev),
            prev.parts_estimate(key, parts, visited, size),
        ensures
            self.parts_estimate(key, parts, visited, size),
    {
        let (visited_key, spaces, sizes) = choose|visited_key: TI::Key, spaces: Seq<Space<O::Type, O::Extractor>>, sizes: Seq<nat>|
            #![trigger cloned::<TI::Key>(key, visited_key), saturating_sum(sizes), spaces.len()]
            cloned::<TI::Key>(key, visited_key) && spaces.len() == parts.len() && sizes.len() == parts.len() && size
                == saturating_sum(sizes) && forall|j: int|
                0 <= j < parts.len() ==> #[trigger] prev.is_part_space(spaces[j], parts[j]) && prev.estimate_base(
                    spaces[j],
                    visited.push(visited_key),
                    sizes[j],
                );
        assert forall|j: int| 0 <= j < parts.len() implies #[trigger] self.is_part_space(spaces[j], parts[j]) && self.estimate_base(
            spaces[j],
            visited.push(visited_key),
            sizes[j],
        ) by {
            assert(prev.is_part_space(spaces[j], parts[j]));
            self.lemma_part_space_kept(prev, spaces[j], parts[j]);
            self.lemma_estimate_base_kept(prev, spaces[j], visited.push(visited_key), sizes[j]);
        }
    }

    proof fn lemma_estimate_agrees_kept(self, prev: Self, space: Space<O::Type, O::Extractor>, visited: Seq<TI::Key>, size: nat)
        requires
            self.evolves(prev),
            prev.wf(),
            prev.ctx().valid_space(space),
            prev.estimate_agrees(space, visited, size),
        ensures
            self.estimate_agrees(space, visited, size),
    {
        self.lemma_estimate_base_kept(prev, space, visited, size);
        if space@ != 0 {
            self.lemma_node_kept(prev, space);
            assert(prev.ctx().node_ok(prev.ctx().nodes()[space@ - 1], space@ - 1));
            match prev.ctx().node(space) {
                SpaceNode::Union(members) => {
                    let sizes = choose|sizes: Seq<nat>|
                        #![trigger saturating_sum(sizes)]
                        sizes.len() == members@.len() && size == saturating_sum(sizes) && forall|j: int|
                            0 <= j < sizes.len() ==> prev.estimate_base(members@[j], visited, #[trigger] sizes[j]);
                    assert forall|j: int| 0 <= j < sizes.len() implies self.estimate_base(members@[j], visited, #[trigger] sizes[j]) by {
                        assert(members@[j]@ <= space@ - 1);
                        self.lemma_estimate_base_kept(prev, members@[j], visited, sizes[j]);
                    }
                },
                SpaceNode::Product { parameters, .. } => {
                    let sizes = choose|sizes: Seq<nat>|
                        #![trigger saturating_product_of(sizes)]
                        sizes.len() == parameters@.len() && size == saturating_product_of(sizes) && forall|j: int|
                            0 <= j < sizes.len() ==> prev.estimate_base(parameters@[j], visited, #[trigger] sizes[j]);
                    assert forall|j: int| 0 <= j < sizes.len() implies self.estimate_base(parameters@[j], visited, #[trigger] sizes[j]) by {
                        assert(parameters@[j]@ <= space@ - 1);
                        self.lemma_estimate_base_kept(prev, parameters@[j], visited, sizes[j]);
                    }
                },
                SpaceNode::Type { value_type: key, .. } => {
                    if TI::Key::obeys_eq_spec() {
                        let copy = choose|copy: TI::Key|
                            #[trigger] cloned::<TI::Key>(key, copy) && (visited_has(visited, copy) ==> size == 1) && (!visited_has(
                                visited,
                                copy,
                            ) ==> exists|decomposition: Decomposition<TI::Key>|
                                #[trigger] prev.decomposes_as(copy, decomposition) && (decomposition is NotDecomposable ==> size == 1)
                                    && (decomposition is Empty ==> size == 0) && (decomposition matches Decomposition::Parts(parts)
                                    ==> prev.parts_estimate(copy, parts@, visited, size)));
                        if !visited_has(visited, copy) {
                            let decomposition = choose|decomposition: Decomposition<TI::Key>|
                                #[trigger] prev.decomposes_as(copy, decomposition) && (decomposition is NotDecomposable ==> size == 1)
                                    && (decomposition is Empty ==> size == 0) && (decomposition matches Decomposition::Parts(parts)
                                    ==> prev.parts_estimate(copy, parts@, visited, size));
                            self.lemma_decomposes_as_extends(prev, copy, decomposition);
                            if let Decomposition::Parts(parts) = decomposition {
                                self.lemma_parts_estimate_kept(prev, copy, parts@, visited, size);
                            }
                        }
                    }
                },
            }
        }
    }

    /// `order` lists every position of `spaces` once, from the largest
    /// estimate down and, among equal estimates, in their order; `sizes`
    /// holding the estimate of each space.
    pub closed spec fn examined_by_size(self, spaces: Seq<Space<O::Type, O::Extractor>>, order: Seq<int>, sizes: Seq<nat>) -> bool {
        &&& order.len() == spaces.len()
        &&& sizes.len() == spaces.len()
        &&& forall|x: int| 0 <= x < order.len() ==> 0 <= #[trigger] order[x] < spaces.len()
        &&& forall|x: int, y: int| 0 <= x < y < order.len() ==> #[trigger] order[x] != #[trigger] order[y]
        &&& forall|j: int| 0 <= j < spaces.len() ==> #[trigger] order.contains(j)
        &&& forall|j: int| 0 <= j < spaces.len() ==> self.estimate_agrees(spaces[j], Seq::empty(), #[trigger] sizes[j])
        &&& forall|x: int, y: int| 0 <= x < y < order.len() ==> sizes[#[trigger] order[x]] >= sizes[#[trigger] order[y]]
        &&& forall|x: int, y: int| 0 <= x < y < order.len() && sizes[#[trigger] order[x]] == sizes[#[trigger] order[y]] ==> order[x] < order[y]
    }

    /// Met in the order `order`, each of `spaces` is kept exactly when the
    /// engine answered that no space kept before it covers it: a kept one was
    /// answered to be no subspace of each one kept before it, and a dropped
    /// one a subspace of one of them.
    pub closed spec fn kept_in_order(self, spaces: Seq<Space<O::Type, O::Extractor>>, order: Seq<int>, kept: Seq<int>) -> bool {
        forall|x: int|
            0 <= x < order.len() ==> {
                &&& kept.contains(#[trigger] order[x]) ==> forall|y: int|
                    0 <= y < x && kept.contains(#[trigger] order[y]) ==> self.answered_subspace(spaces[order[x]], spaces[order[y]]) == Some(false)
                &&& !kept.contains(order[x]) ==> exists|y: int|
                    0 <= y < x && kept.contains(#[trigger] order[y]) && self.answered_subspace(spaces[order[x]], spaces[order[y]]) == Some(true)
            }
    }

    /// `pruned` is what is left of `candidates`, in their order, when they
    /// are met from the largest estimate down and each one is dropped that
    /// the engine answered a space kept before it covers; fewer than two
    /// candidates are all kept.
    pub closed spec fn pruned_by_size(self, candidates: Seq<Space<O::Type, O::Extractor>>, pruned: Seq<Space<O::Type, O::Extractor>>) -> bool {
        &&& forall|j: int| 0 <= j < candidates.len() ==> self.ctx().valid_space(#[trigger] candidates[j])
        &&& candidates.len() <= 1 ==> pruned == candidates
        &&& candidates.len() >= 2 ==> exists|kept: Seq<int>, order: Seq<int>, sizes: Seq<nat>|
            #![trigger self.examined_by_size(candidates, order, sizes), self.kept_in_order(candidates, order, kept)]
            {
                &&& kept.len() == pruned.len()
                &&& forall|t: int| 0 <= t < kept.len() ==> 0 <= #[trigger] kept[t] < candidates.len() && pruned[t] == candidates[kept[t]]
                &&& forall|a: int, b: int| 0 <= a < b < kept.len() ==> kept[a] < kept[b]
                &&& self.examined_by_size(candidates, order, sizes)
                &&& self.kept_in_order(candidates, order, kept)
            }
    }

    proof fn lemma_pruned_by_size_kept(self, prev: Self, candidates: Seq<Space<O::Type, O::Extractor>>, pruned: Seq<Space<O::Type, O::Extractor>>)
        requires
            self.evolves(prev),
            prev.wf(),
            prev.pruned_by_size(candidates, pruned),
        ensures
            self.pruned_by_size(candidates, pruned),
    {
        assert forall|j: int| 0 <= j < candidates.len() implies self.ctx().valid_space(#[trigger] candidates[j]) by {
            assert(prev.ctx().valid_space(candidates[j]));
        }
        if candidates.len() >= 2 {
            let (kept, order, sizes) = choose|kept: Seq<int>, order: Seq<int>, sizes: Seq<nat>|
                #![trigger prev.examined_by_size(candidates, order, sizes), prev.kept_in_order(candidates, order, kept)]
                {
                    &&& kept.len() == pruned.len()
                    &&& forall|t: int| 0 <= t < kept.len() ==> 0 <= #[trigger] kept[t] < candidates.len() && pruned[t] == candidates[kept[t]]
                    &&& forall|a: int, b: int| 0 <= a < b < kept.len() ==> kept[a] < kept[b]
                    &&& prev.examined_by_size(candidates, order, sizes)
                    &&& prev.kept_in_order(candidates, order, kept)
                };
            assert forall|j: int| 0 <= j < candidates.len() implies self.estimate_agrees(candidates[j], Seq::empty(), #[trigger] sizes[j]) by {
                assert(prev.estimate_agrees(candidates[j], Seq::empty(), sizes[j]));
                self.lemma_estimate_agrees_kept(prev, candidates[j], Seq::empty(), sizes[j]);
            }
            assert(self.examined_by_size(candidates, order, sizes));
            assert forall|x: int| 0 <= x < order.len() implies {
                &&& kept.contains(#[trigger] order[x]) ==> forall|y: int|
                    0 <= y < x && kept.contains(#[trigger] order[y]) ==> self.answered_subspace(candidates[order[x]], candidates[order[y]]) == Some(false)
                &&& !kept.contains(order[x]) ==> exists|y: int|
                    0 <= y < x && kept.contains(#[trigger] order[y]) && self.answered_subspace(candidates[order[x]], candidates[order[y]]) == Some(true)
            } by {
                if kept.contains(order[x]) {
                    assert forall|y: int| 0 <= y < x && kept.contains(#[trigger] order[y]) implies self.answered_subspace(candidates[order[x]], candidates[order[y]]) == Some(false) by {
                        self.lemma_answered_kept(prev, candidates[order[x]], candidates[order[y]]);
                    }
                } else {
                    let y = choose|y: int|
                        0 <= y < x && kept.contains(#[trigger] order[y]) && prev.answered_subspace(candidates[order[x]], candidates[order[y]]) == Some(true);
                    self.lemma_answered_kept(prev, candidates[order[x]], candidates[order[y]]);
                }
            }
            assert(self.kept_in_order(candidates, order, kept));
        }
    }

    /// Of the spaces that pruning leaves, none was answered a subspace of
    /// another one met before it: one with a larger estimate, or one with
    /// the same estimate that comes earlier in the list.
    pub proof fn lemma_pruned_not_subsumed(self, candidates: Seq<Space<O::Type, O::Extractor>>, pruned: Seq<Space<O::Type, O::Extractor>>)
        requires
            self.pruned_by_size(candidates, pruned),
            pruned.len() >= 2,
        ensures
            exists|sizes: Seq<nat>|
                #![trigger sizes.len()]
                sizes.len() == pruned.len() && (forall|t: int| 0 <= t < pruned.len() ==> self.estimate_agrees(pruned[t], Seq::empty(), #[trigger] sizes[t]))
                    && forall|a: int, b: int|
                    0 <= a < pruned.len() && 0 <= b < pruned.len() && a != b && (sizes[a] > sizes[b] || (sizes[a] == sizes[b] && a < b))
                        ==> #[trigger] self.answered_subspace(pruned[b], pruned[a]) == Some(false),
    {
        let (kept, order, sizes) = choose|kept: Seq<int>, order: Seq<int>, sizes: Seq<nat>|
            #![trigger self.examined_by_size(candidates, order, sizes), self.kept_in_order(candidates, order, kept)]
            {
                &&& kept.len() == pruned.len()
                &&& forall|t: int| 0 <= t < kept.len() ==> 0 <= #[trigger] kept[t] < candidates.len() && pruned[t] == candidates[kept[t]]
                &&& forall|a: int, b: int| 0 <= a < b < kept.len() ==> kept[a] < kept[b]
                &&& self.examined_by_size(candidates, order, sizes)
                &&& self.kept_in_order(candidates, order, kept)
            };
        let pruned_sizes = Seq::new(pruned.len(), |t: int| sizes[kept[t]]);
        assert forall|t: int| 0 <= t < pruned.len() implies self.estimate_agrees(pruned[t], Seq::empty(), #[trigger] pruned_sizes[t]) by {
            assert(0 <= kept[t] < candidates.len());
        }
        assert forall|a: int, b: int|
            0 <= a < pruned.len() && 0 <= b < pruned.len() && a != b && (pruned_sizes[a] > pruned_sizes[b] || (pruned_sizes[a] == pruned_sizes[b]
                && a < b)) implies #[trigger] self.answered_subspace(pruned[b], pruned[a]) == Some(false) by {
            let ka = kept[a];
            let kb = kept[b];
            assert(0 <= ka < candidates.len() && 0 <= kb < candidates.len());
            assert(order.contains(ka));
            assert(order.contains(kb));
            let xa = choose|x: int| 0 <= x < order.len() && order[x] == ka;
            let xb = choose|x: int| 0 <= x < order.len() && order[x] == kb;
            if a < b {
                assert(ka < kb);
            } else {
                assert(kb < ka);
            }
            if xb < xa {
                assert(sizes[order[xb]] >= sizes[order[xa]]);
                if sizes[order[xb]] == sizes[order[xa]] {
                    assert(order[xb] < order[xa]);
                }
                assert(false);
            }
            assert(xa != xb);
            assert(kept[b] == order[xb]);
            assert(kept.contains(order[xb]));
            assert(kept.contains(order[xa]));
        }
        assert(pruned_sizes.len() == pruned.len());
    }

    /// Of the spaces that the analysis of a match reports uncovered, none was
    /// answered a subspace of another one met before it: one with a larger
    /// estimate, or one with the same estimate that comes earlier in the
    /// list.
    pub proof fn lemma_uncovered_not_subsumed(self, input: MatchInput<O::Type, O::Extractor>, analysis: MatchAnalysis<O::Type, O::Extractor>)
        requires
            self.analysis_agrees(input, analysis),
            self.steps() > 0,
            analysis.uncovered_spaces@.len() >= 2,
        ensures
            exists|sizes: Seq<nat>|
                #![trigger sizes.len()]
                sizes.len() == analysis.uncovered_spaces@.len() && (forall|t: int|
                    0 <= t < analysis.uncovered_spaces@.len() ==> self.estimate_agrees(analysis.uncovered_spaces@[t], Seq::empty(), #[trigger] sizes[t]))
                    && forall|a: int, b: int|
                    0 <= a < analysis.uncovered_spaces@.len() && 0 <= b < analysis.uncovered_spaces@.len() && a != b && (sizes[a] > sizes[b] || (
                    sizes[a] == sizes[b] && a < b)) ==> #[trigger] self.answered_subspace(
                        analysis.uncovered_spaces@[b],
                        analysis.uncovered_spaces@[a],
                    ) == Some(false),
    {
        let candidates = choose|candidates: Seq<Space<O::Type, O::Extractor>>| #[trigger] self.pruned_by_size(candidates, analysis.uncovered_spaces@);
        self.lemma_pruned_not_subsumed(candidates, analysis.uncovered_spaces@);
    }

    /// The position of the first of `spaces` that `candidate` is a subspace
    /// of, if any.
    fn first_covering_space(&mut self, candidate: Space<O::Type, O::Extractor>, spaces: &Vec<Space<O::Type, O::Extractor>>) -> (found: Option<usize>)
        requires
            old(self).wf(),
            old(self).ctx().valid_space(candidate),
            forall|j: int| 0 <= j < spaces@.len() ==> old(self).ctx().valid_space(#[trigger] spaces@[j]),
        ensures
            final(self).evolves(*old(self)),
            spaces@.len() == 0 ==> found is None,
            found matches Some(k) ==> k < spaces@.len() && (final(self).steps() > 0 ==> final(self).answered_subspace(
                candidate,
                spaces@[k as int],
            ) == Some(true)),
            found is None && final(self).steps() > 0 ==> forall|k: int|
                0 <= k < spaces@.len() ==> final(self).answered_subspace(candidate, #[trigger] spaces@[k]) == Some(false),
    {
        proof {
            self.lemma_ticked(*old(self));
        }
        let mut k: usize = 0;
        while k < spaces.len()
            invariant
                self.evolves(*old(self)),
                k <= spaces@.len(),
                self.ctx().valid_space(candidate),
                forall|j: int| 0 <= j < spaces@.len() ==> self.ctx().valid_space(#[trigger] spaces@[j]),
                self.steps() > 0 ==> forall|j: int| 0 <= j < k ==> self.answered_subspace(candidate, #[trigger] spaces@[j]) == Some(false),
            decreases spaces@.len() - k,
        {
            let ghost before = *self;
            let covered = self.is_subspace(candidate, spaces[k]);
            proof {
                Self::lemma_evolves_trans(*self, before, *old(self));
                if self.steps() > 0 {
                    assert forall|j: int| 0 <= j < k + 1 implies self.answered_subspace(candidate, #[trigger] spaces@[j]) == Some(false) || covered by {
                        if j < k {
                            self.lemma_answered_kept(before, candidate, spaces@[j]);
                        }
                    }
                }
            }
            if covered {
                return Some(k);
            }
            k = k + 1;
        }
        None
    }

    /// Drops every space that a larger kept space already covers, keeping the
    /// others in their order.
    #[verifier::spinoff_prover]
    #[verifier::rlimit(50)]
    fn remove_subsumed_spaces(&mut self, spaces: &Vec<Space<O::Type, O::Extractor>>) -> (pruned: Vec<Space<O::Type, O::Extractor>>)
        requires
            old(self).wf(),
            forall|j: int| 0 <= j < spaces@.len() ==> old(self).ctx().valid_space(#[trigger] spaces@[j]),
        ensures
            final(self).evolves(*old(self)),
            forall|i: int| 0 <= i < pruned@.len() ==> spaces@.contains(#[trigger] pruned@[i]),
            spaces@.len() >= 1 ==> pruned@.len() >= 1,
            exists|kept: Seq<int>|
                #![trigger kept.len()]
                {
                    &&& kept.len() == pruned@.len()
                    &&& forall|t: int| 0 <= t < kept.len() ==> 0 <= #[trigger] kept[t] < spaces@.len() && pruned@[t] == spaces@[kept[t]]
                    &&& forall|a: int, b: int| 0 <= a < b < kept.len() ==> kept[a] < kept[b]
                    &&& final(self).steps() > 0 ==> forall|j: int|
                        0 <= j < spaces@.len() && !kept.contains(j) ==> exists|t: int|
                            0 <= t < kept.len() && #[trigger] final(self).answered_subspace(spaces@[j], spaces@[kept[t]]) == Some(true)
                    &&& spaces@.len() >= 2 && final(self).steps() > 0 ==> exists|order: Seq<int>, sizes: Seq<nat>|
                        #![trigger final(self).examined_by_size(spaces@, order, sizes)]
                        final(self).examined_by_size(spaces@, order, sizes) && final(self).kept_in_order(spaces@, order, kept)
                },
            final(self).steps() > 0 ==> final(self).pruned_by_size(spaces@, pruned@),
    {
        proof {
            self.lemma_ticked(*old(self));
        }
        if spaces.len() <= 1 {
            let copy = Self::copy_spaces(spaces);
            proof {
                assert forall|i: int| 0 <= i < copy@.len() implies spaces@.contains(#[trigger] copy@[i]) by {
                    assert(spaces@[i] == copy@[i]);
                }
                let kept = Seq::new(spaces@.len(), |t: int| t);
                assert forall|j: int| 0 <= j < spaces@.len() implies kept.contains(j) by {
                    assert(kept[j] == j);
                }
                assert(kept.len() == copy@.len());
            }
            return copy;
        }
        let mut sizes: Vec<usize> = Vec::new();
        let mut i: usize = 0;
        while i < spaces.len()
            invariant
                self.evolves(*old(self)),
                i <= spaces@.len(),
                sizes@.len() == i,
                forall|j: int| 0 <= j < spaces@.len() ==> self.ctx().valid_space(#[trigger] spaces@[j]),
                self.steps() > 0 ==> forall|j: int| 0 <= j < i ==> self.estimate_agrees(spaces@[j], Seq::empty(), #[trigger] sizes@[j] as nat),
            decreases spaces@.len() - i,
        {
            let ghost before = *self;
            let size = self.estimated_space_size(spaces[i]);
            let ghost previous_sizes = sizes@;
            sizes.push(size);
            proof {
                Self::lemma_evolves_trans(*self, before, *old(self));
                if self.steps() > 0 {
                    assert forall|j: int| 0 <= j < i + 1 implies self.estimate_agrees(spaces@[j], Seq::empty(), #[trigger] sizes@[j] as nat) by {
                        if j < i {
                            assert(sizes@[j] == previous_sizes[j]);
                            self.lemma_estimate_agrees_kept(before, spaces@[j], Seq::empty(), previous_sizes[j] as nat);
                        }
                    }
                }
            }
            i = i + 1;
        }
        let ghost s_sized = *self;
        // Indices ordered by decreasing size; equal sizes keep their order.
        let mut sorted_indices: Vec<usize> = Vec::new();
        let mut i: usize = 0;
        while i < spaces.len()
            invariant
                i <= spaces@.len(),
                sizes@.len() == spaces@.len(),
                sorted_indices@.len() == i,
                forall|j: int| 0 <= j < sorted_indices@.len() ==> #[trigger] sorted_indices@[j] < i,
                forall|j: usize| j < i ==> #[trigger] sorted_indices@.contains(j),
                forall|a: int, b: int| 0 <= a < b < sorted_indices@.len() ==> #[trigger] sorted_indices@[a] != #[trigger] sorted_indices@[b],
                forall|a: int, b: int| 0 <= a < b < sorted_indices@.len() ==> sizes@[#[trigger] sorted_indices@[a] as int] >= sizes@[#[trigger] sorted_indices@[b] as int],
                forall|a: int, b: int| 0 <= a < b < sorted_indices@.len() && sizes@[#[trigger] sorted_indices@[a] as int] == sizes@[#[trigger] sorted_indices@[b] as int] ==> sorted_indices@[a] < sorted_indices@[b],
            decreases spaces@.len() - i,
        {
            let mut position = sorted_indices.len();
            while position > 0 && sizes[sorted_indices[position - 1]] < sizes[i]
                invariant
                    position <= sorted_indices@.len(),
                    i < spaces@.len(),
                    sizes@.len() == spaces@.len(),
                    forall|j: int| 0 <= j < sorted_indices@.len() ==> #[trigger] sorted_indices@[j] < i,
                    forall|q: int| position <= q < sorted_indices@.len() ==> sizes@[#[trigger] sorted_indices@[q] as int] < sizes@[i as int],
                decreases position,
            {
                position = position - 1;
            }
            let ghost previous = sorted_indices@;
            sorted_indices.insert(position, i);
            proof {
                assert forall|j: int| 0 <= j < sorted_indices@.len() implies #[trigger] sorted_indices@[j] < i + 1 by {
                    if j < position {
                        assert(sorted_indices@[j] == previous[j]);
                    } else if j > position {
                        assert(sorted_indices@[j] == previous[j - 1]);
                    }
                }
                assert forall|a: int, b: int| 0 <= a < b < sorted_indices@.len() implies #[trigger] sorted_indices@[a] != #[trigger] sorted_indices@[b]
                    && sizes@[sorted_indices@[a] as int] >= sizes@[sorted_indices@[b] as int]
                    && (sizes@[sorted_indices@[a] as int] == sizes@[sorted_indices@[b] as int] ==> sorted_indices@[a] < sorted_indices@[b]) by {
                    let pa = if a < position { a } else { a - 1 };
                    let pb = if b < position { b } else { b - 1 };
                    if a != position {
                        assert(sorted_indices@[a] == previous[pa]);
                    }
                    if b != position {
                        assert(sorted_indices@[b] == previous[pb]);
                    }
                    if a == position {
                        assert(previous[pb] < i);
                    } else if b == position {
                        assert(previous[pa] < i);
                        assert(position > 0);
                        assert(sizes@[previous[position - 1] as int] >= sizes@[i as int]);
                        if pa < position - 1 {
                            assert(sizes@[previous[pa] as int] >= sizes@[previous[position - 1] as int]);
                        }
                    } else {
                        assert(pa < pb);
                    }
                }
                assert forall|j: usize| j < i + 1 implies #[trigger] sorted_indices@.contains(j) by {
                    if j < i {
                        assert(previous.contains(j));
                        let q = choose|q: int| 0 <= q < previous.len() && previous[q] == j;
                        if q < position {
                            assert(sorted_indices@[q] == previous[q]);
                        } else {
                            assert(sorted_indices@[q + 1] == previous[q]);
                        }
                    } else {
                        assert(sorted_indices@[position as int] == i);
                    }
                }
            }
            i = i + 1;
        }
        let mut keep: Vec<bool> = Vec::new();
        let mut i: usize = 0;
        while i < spaces.len()
            invariant
                i <= spaces@.len(),
                keep@.len() == i,
                forall|j: int| 0 <= j < keep@.len() ==> !(#[trigger] keep@[j]),
            decreases spaces@.len() - i,
        {
            keep.push(false);
            i = i + 1;
        }
        let mut interesting_spaces: Vec<Space<O::Type, O::Extractor>> = Vec::new();
        let ghost mut interesting_indices: Seq<int> = Seq::empty();
        let ghost mut interesting_pos: Seq<int> = Seq::empty();
        let ghost mut covering: Seq<int> = Seq::new(spaces@.len(), |j: int| 0);
        let ghost mut cover_pos: Seq<int> = Seq::new(spaces@.len(), |x: int| 0);
        let ghost order: Seq<int> = Seq::new(sorted_indices@.len(), |x: int| sorted_indices@[x] as int);
        proof {
            s_sized.lemma_evolves_refl();
        }
        let mut kept_one: bool = false;
        let ghost mut kept_index: int = 0;
        let mut s: usize = 0;
        while s < sorted_indices.len()
            invariant
                self.evolves(*old(self)),
                self.evolves(s_sized),
                s <= sorted_indices@.len(),
                sorted_indices@.len() == spaces@.len(),
                spaces@.len() >= 2,
                keep@.len() == spaces@.len(),
                covering.len() == spaces@.len(),
                cover_pos.len() == spaces@.len(),
                order.len() == spaces@.len(),
                forall|x: int| 0 <= x < order.len() ==> #[trigger] order[x] == sorted_indices@[x] as int,
                forall|j: int| 0 <= j < sorted_indices@.len() ==> #[trigger] sorted_indices@[j] < spaces@.len(),
                forall|a: int, b: int| 0 <= a < b < sorted_indices@.len() ==> #[trigger] sorted_indices@[a] != #[trigger] sorted_indices@[b],
                forall|j: int| 0 <= j < spaces@.len() ==> self.ctx().valid_space(#[trigger] spaces@[j]),
                forall|j: int| 0 <= j < interesting_spaces@.len() ==> self.ctx().valid_space(#[trigger] interesting_spaces@[j]),
                s > 0 ==> kept_one,
                kept_one ==> 0 <= kept_index < keep@.len() && keep@[kept_index],
                s == 0 ==> interesting_spaces@.len() == 0,
                interesting_indices.len() == interesting_spaces@.len(),
                interesting_pos.len() == interesting_spaces@.len(),
                forall|t: int|
                    0 <= t < interesting_indices.len() ==> 0 <= #[trigger] interesting_indices[t] < spaces@.len()
                        && interesting_spaces@[t] == spaces@[interesting_indices[t]] && keep@[interesting_indices[t]]
                        && 0 <= interesting_pos[t] < s && order[interesting_pos[t]] == interesting_indices[t],
                forall|y: int| 0 <= y < s && keep@[order[y]] ==> interesting_indices.contains(#[trigger] order[y]),
                forall|x: int| s <= x < order.len() ==> !keep@[#[trigger] order[x]],
                forall|x: int|
                    0 <= x < s ==> {
                        let j = #[trigger] sorted_indices@[x] as int;
                        keep@[j] || (0 <= covering[j] < spaces@.len() && keep@[covering[j]] && (self.steps() > 0
                            ==> self.answered_subspace(spaces@[j], spaces@[covering[j]]) == Some(true)))
                    },
                self.steps() > 0 ==> forall|x: int, y: int|
                    0 <= y < x < s && keep@[#[trigger] order[x]] && keep@[#[trigger] order[y]] ==> self.answered_subspace(
                        spaces@[order[x]],
                        spaces@[order[y]],
                    ) == Some(false),
                forall|x: int|
                    0 <= x < s && !keep@[#[trigger] order[x]] ==> 0 <= cover_pos[x] < x && keep@[order[cover_pos[x]]] && (self.steps() > 0
                        ==> self.answered_subspace(spaces@[order[x]], spaces@[order[cover_pos[x]]]) == Some(true)),
            decreases sorted_indices@.len() - s,
        {
            let index = sorted_indices[s];
            let candidate_space = spaces[index];
            let ghost before = *self;
            let covered_by = self.first_covering_space(candidate_space, &interesting_spaces);
            proof {
                Self::lemma_evolves_trans(*self, before, *old(self));
                Self::lemma_evolves_trans(*self, before, s_sized);
                assert(order[s as int] == index as int);
                if self.steps() > 0 {
                    assert forall|x: int| 0 <= x < s implies {
                        let j = #[trigger] sorted_indices@[x] as int;
                        keep@[j] || (0 <= covering[j] < spaces@.len() && keep@[covering[j]] && (self.steps() > 0
                            ==> self.answered_subspace(spaces@[j], spaces@[covering[j]]) == Some(true)))
                    } by {
                        let j = sorted_indices@[x] as int;
                        if !keep@[j] {
                            self.lemma_answered_kept(before, spaces@[j], spaces@[covering[j]]);
                        }
                    }
                    assert forall|x: int, y: int|
                        0 <= y < x < s && keep@[#[trigger] order[x]] && keep@[#[trigger] order[y]] implies self.answered_subspace(
                            spaces@[order[x]],
                            spaces@[order[y]],
                        ) == Some(false) by {
                        self.lemma_answered_kept(before, spaces@[order[x]], spaces@[order[y]]);
                    }
                    assert forall|x: int|
                        0 <= x < s && !keep@[#[trigger] order[x]] implies 0 <= cover_pos[x] < x && keep@[order[cover_pos[x]]] && (self.steps() > 0
                            ==> self.answered_subspace(spaces@[order[x]], spaces@[order[cover_pos[x]]]) == Some(true)) by {
                        self.lemma_answered_kept(before, spaces@[order[x]], spaces@[order[cover_pos[x]]]);
                    }
                }
            }
            match covered_by {
                Some(k) => {
                    proof {
                        let m = interesting_indices[k as int];
                        covering = covering.update(index as int, m);
                        cover_pos = cover_pos.update(s as int, interesting_pos[k as int]);
                        assert forall|x: int| 0 <= x < s + 1 implies {
                            let j = #[trigger] sorted_indices@[x] as int;
                            keep@[j] || (0 <= covering[j] < spaces@.len() && keep@[covering[j]] && (self.steps() > 0
                                ==> self.answered_subspace(spaces@[j], spaces@[covering[j]]) == Some(true)))
                        } by {
                            let j = sorted_indices@[x] as int;
                            if x < s && j != index {
                                assert(covering[j] == covering.update(index as int, m)[j]);
                            }
                        }
                        assert forall|y: int| 0 <= y < s + 1 && keep@[order[y]] implies interesting_indices.contains(#[trigger] order[y]) by {
                            if y == s {
                                assert(!keep@[order[y]]);
                            }
                        }
                        assert forall|x: int|
                            0 <= x < s + 1 && !keep@[#[trigger] order[x]] implies 0 <= cover_pos[x] < x && keep@[order[cover_pos[x]]] && (self.steps() > 0
                                ==> self.answered_subspace(spaces@[order[x]], spaces@[order[cover_pos[x]]]) == Some(true)) by {
                            if x == s {
                                let p = interesting_pos[k as int];
                                assert(cover_pos[x] == p);
                                assert(order[p] == m);
                                assert(interesting_spaces@[k as int] == spaces@[m]);
                            }
                        }
                    }
                },
                None => {
                    let ghost old_keep = keep@;
                    keep.set(index, true);
                    interesting_spaces.push(candidate_space);
                    proof {
                        kept_index = index as int;
                        let previous_indices = interesting_indices;
                        interesting_indices = interesting_indices.push(index as int);
                        interesting_pos = interesting_pos.push(s as int);
                        assert forall|x: int| 0 <= x < s + 1 implies {
                            let j = #[trigger] sorted_indices@[x] as int;
                            keep@[j] || (0 <= covering[j] < spaces@.len() && keep@[covering[j]] && (self.steps() > 0
                                ==> self.answered_subspace(spaces@[j], spaces@[covering[j]]) == Some(true)))
                        } by {
                            let j = sorted_indices@[x] as int;
                            if j != index {
                                assert(keep@[j] == old_keep[j]);
                                if !old_keep[j] {
                                    assert(keep@[covering[j]] || covering[j] == index);
                                }
                            }
                        }
                        assert forall|x: int| s + 1 <= x < order.len() implies !keep@[#[trigger] order[x]] by {
                            assert(sorted_indices@[x] != sorted_indices@[s as int]);
                            assert(keep@[order[x]] == old_keep[order[x]]);
                        }
                        assert forall|y: int| 0 <= y < s + 1 && keep@[order[y]] implies interesting_indices.contains(#[trigger] order[y]) by {
                            if y == s {
                                assert(interesting_indices[previous_indices.len() as int] == index as int);
                            } else {
                                assert(sorted_indices@[y] != sorted_indices@[s as int]);
                                assert(old_keep[order[y]]);
                                assert(previous_indices.contains(order[y]));
                                let t = choose|t: int| 0 <= t < previous_indices.len() && previous_indices[t] == order[y];
                                assert(interesting_indices[t] == order[y]);
                            }
                        }
                        if self.steps() > 0 {
                            assert forall|x: int, y: int|
                                0 <= y < x < s + 1 && keep@[#[trigger] order[x]] && keep@[#[trigger] order[y]] implies self.answered_subspace(
                                    spaces@[order[x]],
                                    spaces@[order[y]],
                                ) == Some(false) by {
                                assert(sorted_indices@[y] != sorted_indices@[s as int]);
                                assert(old_keep[order[y]]);
                                if x == s {
                                    assert(previous_indices.contains(order[y]));
                                    let t = choose|t: int| 0 <= t < previous_indices.len() && previous_indices[t] == order[y];
                                    assert(interesting_spaces@[t] == spaces@[order[y]]);
                                } else {
                                    assert(sorted_indices@[x] != sorted_indices@[s as int]);
                                    assert(old_keep[order[x]]);
                                }
                            }
                        }
                        assert forall|x: int|
                            0 <= x < s + 1 && !keep@[#[trigger] order[x]] implies 0 <= cover_pos[x] < x && keep@[order[cover_pos[x]]] && (self.steps() > 0
                                ==> self.answered_subspace(spaces@[order[x]], spaces@[order[cover_pos[x]]]) == Some(true)) by {
                            assert(x != s);
                            assert(sorted_indices@[x] != sorted_indices@[s as int]);
                            assert(!old_keep[order[x]]);
                            assert(old_keep[order[cover_pos[x]]]);
                        }
                    }
                    kept_one = true;
                },
            }
            s = s + 1;
        }
        let mut pruned_spaces: Vec<Space<O::Type, O::Extractor>> = Vec::new();
        let ghost mut kept: Seq<int> = Seq::empty();
        let mut i: usize = 0;
        while i < spaces.len()
            invariant
                i <= spaces@.len(),
                keep@.len() == spaces@.len(),
                kept_one,
                0 <= kept_index < keep@.len() && keep@[kept_index],
                i > kept_index ==> pruned_spaces@.len() >= 1,
                forall|p: int| 0 <= p < pruned_spaces@.len() ==> spaces@.contains(#[trigger] pruned_spaces@[p]),
                kept.len() == pruned_spaces@.len(),
                forall|t: int| 0 <= t < kept.len() ==> 0 <= #[trigger] kept[t] < i && pruned_spaces@[t] == spaces@[kept[t]],
                forall|a: int, b: int| 0 <= a < b < kept.len() ==> kept[a] < kept[b],
                forall|j: int| 0 <= j < i && keep@[j] ==> kept.contains(j),
                forall|t: int| 0 <= t < kept.len() ==> keep@[#[trigger] kept[t]],
            decreases spaces@.len() - i,
        {
            if keep[i] {
                pruned_spaces.push(spaces[i]);
                proof {
                    assert(spaces@[i as int] == pruned_spaces@[pruned_spaces@.len() - 1]);
                    let next = kept.push(i as int);
                    assert forall|j: int| 0 <= j < i + 1 && keep@[j] implies next.contains(j) by {
                        if j < i {
                            assert(keep@[j]);
                            assert(kept.contains(j));
                            let q = choose|q: int| 0 <= q < kept.len() && kept[q] == j;
                            assert(next[q] == j);
                        } else {
                            assert(next[kept.len() as int] == j);
                        }
                    }
                    kept = next;
                }
            } else {
                proof {
                    assert forall|j: int| 0 <= j < i + 1 && keep@[j] implies kept.contains(j) by {
                        assert(j < i);
                    }
                }
            }
            i = i + 1;
        }
        proof {
            if self.steps() > 0 {
                assert forall|j: int| 0 <= j < spaces@.len() && !kept.contains(j) implies exists|t: int|
                    0 <= t < kept.len() && #[trigger] self.answered_subspace(spaces@[j], spaces@[kept[t]]) == Some(true) by {
                    assert(sorted_indices@.contains(j as usize));
                    let x = choose|x: int| 0 <= x < sorted_indices@.len() && sorted_indices@[x] == j as usize;
                    assert(sorted_indices@[x] as int == j);
                    assert(!keep@[j]);
                    let m = covering[j];
                    assert(kept.contains(m));
                    let t = choose|t: int| 0 <= t < kept.len() && kept[t] == m;
                    assert(self.answered_subspace(spaces@[j], spaces@[kept[t]]) == Some(true));
                }
            }
            assert(kept.len() == pruned_spaces@.len());
            assert forall|j: int| 0 <= j < spaces@.len() implies kept.contains(j) == keep@[j] by {
                if kept.contains(j) {
                    let t = choose|t: int| 0 <= t < kept.len() && kept[t] == j;
                    assert(keep@[kept[t]]);
                }
            }
            if self.steps() > 0 {
                let sizes_nat = Seq::new(spaces@.len(), |j: int| sizes@[j] as nat);
                assert forall|j: int| 0 <= j < spaces@.len() implies self.estimate_agrees(spaces@[j], Seq::empty(), #[trigger] sizes_nat[j]) by {
                    assert(s_sized.estimate_agrees(spaces@[j], Seq::empty(), sizes@[j] as nat));
                    self.lemma_estimate_agrees_kept(s_sized, spaces@[j], Seq::empty(), sizes@[j] as nat);
                }
                assert forall|x: int, y: int| 0 <= x < y < order.len() implies sizes_nat[#[trigger] order[x]] >= sizes_nat[#[trigger] order[y]] by {
                    assert(sorted_indices@[x] < spaces@.len() && sorted_indices@[y] < spaces@.len());
                    assert(sizes@[sorted_indices@[x] as int] >= sizes@[sorted_indices@[y] as int]);
                }
                assert forall|x: int, y: int| 0 <= x < y < order.len() implies #[trigger] order[x] != #[trigger] order[y] by {
                    assert(sorted_indices@[x] != sorted_indices@[y]);
                }
                assert forall|x: int, y: int| 0 <= x < y < order.len() && sizes_nat[#[trigger] order[x]] == sizes_nat[#[trigger] order[y]] implies order[x] < order[y] by {
                    assert(sorted_indices@[x] < spaces@.len() && sorted_indices@[y] < spaces@.len());
                    assert(sizes@[sorted_indices@[x] as int] == sizes@[sorted_indices@[y] as int]);
                }
                assert forall|j: int| 0 <= j < spaces@.len() implies #[trigger] order.contains(j) by {
                    assert(sorted_indices@.contains(j as usize));
                    let x = choose|x: int| 0 <= x < sorted_indices@.len() && sorted_indices@[x] == j as usize;
                    assert(order[x] == j);
                }
                assert(self.examined_by_size(spaces@, order, sizes_nat));
                assert forall|x: int| 0 <= x < order.len() implies {
                    &&& kept.contains(#[trigger] order[x]) ==> forall|y: int|
                        0 <= y < x && kept.contains(#[trigger] order[y]) ==> self.answered_subspace(spaces@[order[x]], spaces@[order[y]]) == Some(false)
                    &&& !kept.contains(order[x]) ==> exists|y: int|
                        0 <= y < x && kept.contains(#[trigger] order[y]) && self.answered_subspace(spaces@[order[x]], spaces@[order[y]]) == Some(true)
                } by {
                    assert(0 <= order[x] < spaces@.len());
                    if !keep@[order[x]] {
                        let y = cover_pos[x];
                        assert(0 <= order[y] < spaces@.len());
                        assert(kept.contains(order[y]));
                    } else {
                        assert forall|y: int| 0 <= y < x && kept.contains(#[trigger] order[y]) implies self.answered_subspace(spaces@[order[x]], spaces@[order[y]]) == Some(false) by {
                            assert(0 <= order[y] < spaces@.len());
                            assert(keep@[order[y]]);
                        }
                    }
                }
                assert(self.kept_in_order(spaces@, order, kept));
                assert(self.pruned_by_size(spaces@, pruned_spaces@));
            }
        }
        pruned_spaces
    }

    /// The reachability warnings of a match, arm by arm.
    #[verifier::spinoff_prover]
    #[verifier::rlimit(100)]
    fn check_reachability(&mut self, match_input: &MatchInput<O::Type, O::Extractor>) -> (warnings: Vec<ReachabilityWarning>)
        requires
            old(self).wf(),
            input_ok(old(self).ctx(), *match_input),
        ensures
            final(self).evolves(*old(self)),
            warnings_ok(*match_input, warnings@),
            match_input.null_space is None && match_input.scrutinee_space@ != 0 && final(self).remembered_simplification(
                match_input.scrutinee_space,
            ) is Some && final(self).remembered_simplification(match_input.scrutinee_space) != Some(0nat) ==> forall|i: int, j: int|
                #![trigger catch_all_arm(*match_input, i), match_input.arms@[j]]
                catch_all_arm(*match_input, i) && i < j < match_input.arms@.len() && match_input.arms@[j].pattern_space@ == 0
                    ==> reports_unreachable(warnings@, j),
            final(self).steps() > 0 ==> exists|covered: Seq<nat>, unions: Seq<nat>|
                #[trigger] final(self).reachability_trace(*match_input, covered, unions) && final(self).warnings_list_covering(
                    *match_input,
                    covered,
                    warnings@,
                ) && forall|j: int|
                    0 <= j < match_input.arms@.len() ==> (#[trigger] reports_unreachable(warnings@, j) <==> final(self).arm_unreachable(
                        covered,
                        unions,
                        j,
                        match_input.arms@.len() as int,
                    )) && (reports_only_null(warnings@, j) ==> final(self).only_null_justified(*match_input, covered, unions, j))
                        && (final(self).only_null_candidate(*match_input, covered, unions, warnings@, j)
                        ==> final(self).null_cover_decides(*match_input, covered, unions, warnings@, j)),
    {
        proof {
            self.lemma_ticked(*old(self));
        }
        let mut warnings: Vec<ReachabilityWarning> = Vec::new();
        let mut covered_by_previous_arms: Vec<CoveredArm<O::Type, O::Extractor>> = Vec::new();
        let mut previous_union = self.context.empty();
        let mut deferred_arm_indices: Vec<usize> = Vec::new();
        let mut emitted_only_null_warning = false;
        let mut arm_index: usize = 0;
        let ghost mut covered_list: Seq<nat> = Seq::empty();
        let ghost mut unions: Seq<nat> = seq![0nat];
        while arm_index < match_input.arms.len()
            invariant
                covered_list.len() == arm_index,
                unions.len() == arm_index + 1,
                unions[0] == 0,
                unions[arm_index as int] == previous_union@,
                self.steps() > 0 ==> {
                    &&& forall|j: int| 0 <= j < arm_index ==> #[trigger] self.reachability_step(*match_input, covered_list, unions, j)
                    &&& forall|j: int|
                        0 <= j < arm_index && !(unions[j] == 0 && covered_list[j] == 0) ==> #[trigger] self.answered_subspace(
                            Space::with_id(covered_list[j]),
                            Space::with_id(unions[j]),
                        ) is Some
                    &&& forall|w: int|
                        0 <= w < warnings@.len() && (#[trigger] warnings@[w]) is Unreachable ==> self.arm_unreachable(
                            covered_list,
                            unions,
                            warning_arm_index(warnings@[w]),
                            arm_index as int,
                        )
                    &&& forall|j: int|
                        0 <= j < arm_index && #[trigger] self.arm_unreachable(covered_list, unions, j, arm_index as int)
                            ==> reports_unreachable(warnings@, j)
                    &&& forall|j: int|
                        0 <= j < arm_index && #[trigger] reports_only_null(warnings@, j) ==> self.only_null_justified(
                            *match_input,
                            covered_list,
                            unions,
                            j,
                        )
                    &&& forall|j: int|
                        0 <= j < arm_index && #[trigger] self.only_null_candidate(*match_input, covered_list, unions, warnings@, j)
                            ==> self.null_cover_decides(*match_input, covered_list, unions, warnings@, j)
                    &&& forall|i: int|
                        0 <= i < deferred_arm_indices@.len() ==> #[trigger] quiet_from(
                            covered_list,
                            unions,
                            deferred_arm_indices@[i] as int,
                            arm_index as int,
                        )
                    &&& forall|j: int|
                        0 <= j < arm_index && #[trigger] quiet_from(covered_list, unions, j, arm_index as int)
                            ==> deferred_arm_indices@.contains(j as usize)
                },
                self.evolves(*old(self)),
                input_ok(self.ctx(), *match_input),
                arm_index <= match_input.arms@.len(),
                self.ctx().valid_space(previous_union),
                forall|k: int| 0 <= k < covered_by_previous_arms@.len() ==> {
                    let c = #[trigger] covered_by_previous_arms@[k];
                    &&& c.arm_index < arm_index
                    &&& !match_input.arms@[c.arm_index as int].is_partial
                    &&& self.ctx().valid_space(c.covered_space)
                },
                increasing(covered_indices(covered_by_previous_arms@)),
                increasing(deferred_arm_indices@),
                forall|k: int| 0 <= k < deferred_arm_indices@.len() ==> #[trigger] deferred_arm_indices@[k] < arm_index,
                forall|k: int, w: int| 0 <= k < deferred_arm_indices@.len() && 0 <= w < warnings@.len()
                    ==> warning_arm_index(#[trigger] warnings@[w]) < #[trigger] deferred_arm_indices@[k],
                forall|w: int| 0 <= w < warnings@.len() ==> warning_arm_index(#[trigger] warnings@[w]) < arm_index,
                warnings_ok(*match_input, warnings@),
                covered_by_previous_arms@ == earlier_covering_arms(*match_input, covered_list, arm_index as int),
                self.steps() > 0 ==> forall|w: int|
                    0 <= w < warnings@.len() && (#[trigger] warnings@[w]) is Unreachable ==> self.covering_listed(
                        Space::with_id(covered_list[warning_arm_index(warnings@[w])]),
                        earlier_covering_arms(*match_input, covered_list, warning_arm_index(warnings@[w])),
                        warning_covering(warnings@[w]),
                    ),
                !emitted_only_null_warning ==> forall|w: int| 0 <= w < warnings@.len() ==> !(#[trigger] warnings@[w] is OnlyNull),
                emitted_only_null_warning ==> exists|j: int| #[trigger] reports_only_null(warnings@, j),
                match_input.null_space is None && match_input.scrutinee_space@ != 0 ==> {
                    &&& (exists|i: int| #[trigger] catch_all_arm(*match_input, i) && i < arm_index)
                        ==> self.remembered_simplification(match_input.scrutinee_space) is Some
                    &&& (exists|i: int| #[trigger] catch_all_arm(*match_input, i) && i < arm_index)
                        && self.remembered_simplification(match_input.scrutinee_space) != Some(0nat) ==> previous_union@ != 0
                    &&& self.remembered_simplification(match_input.scrutinee_space) is Some && self.remembered_simplification(match_input.scrutinee_space) != Some(0nat)
                        ==> forall|i: int, j: int|
                        #![trigger catch_all_arm(*match_input, i), match_input.arms@[j]]
                        catch_all_arm(*match_input, i) && i < j < arm_index && match_input.arms@[j].pattern_space@ == 0
                            ==> reports_unreachable(warnings@, j)
                },
            decreases match_input.arms@.len() - arm_index,
        {
            let arm = &match_input.arms[arm_index];
            let ghost s0 = *self;
            let ghost arms_start = covered_by_previous_arms@;
            let ghost emitted_start = emitted_only_null_warning;
            proof {
                s0.lemma_evolves_refl();
            }
            let current_space = match (arm.is_wildcard, match_input.null_space) {
                (true, Some(null_space)) => self.build_union2(arm.pattern_space, null_space),
                _ => arm.pattern_space,
            };
            let ghost s1 = *self;
            proof {
                lemma_input_ok_extends(s1.ctx(), s0.ctx(), *match_input);
                assert(*arm == match_input.arms@[arm_index as int]);
                if arm.is_wildcard && match_input.null_space is Some {
                    let members = seq![arm.pattern_space, match_input.null_space->Some_0];
                    assert forall|i: int| 0 <= i < members.len() implies s0.ctx().valid_space(#[trigger] members[i]) by {}
                    s1.ctx().lemma_union_member_list_extends(s0.ctx(), members);
                }
                assert(s1.arm_space_is(*match_input, arm_index as int, current_space));
            }
            let covered_space = self.intersect_simplified(current_space, match_input.scrutinee_space);
            let ghost s_int = *self;
            let ghost w_start = warnings@;
            proof {
                s_int.lemma_evolves_refl();
                Self::lemma_evolves_trans(*self, s1, s0);
                Self::lemma_evolves_trans(*self, s0, *old(self));
                lemma_input_ok_extends(self.ctx(), s0.ctx(), *match_input);
                if match_input.null_space is None && match_input.scrutinee_space@ != 0 {
                    if s0.remembered_simplification(match_input.scrutinee_space) is Some {
                        self.lemma_remembered_kept(s0, match_input.scrutinee_space);
                    }
                }
            }
            let ghost n = arm_index as int;
            let ghost old_deferred = deferred_arm_indices@;
            let ghost new_covered = covered_list.push(covered_space@);
            if previous_union.is_empty() && covered_space.is_empty() {
                deferred_arm_indices.push(arm_index);
                proof {
                    let new_unions = unions.push(previous_union@);
                    if self.steps() > 0 {
                        assert forall|j: int| 0 <= j < n + 1 && #[trigger] self.only_null_candidate(
                            *match_input,
                            new_covered,
                            new_unions,
                            warnings@,
                            j,
                        ) implies self.null_cover_decides(*match_input, new_covered, new_unions, warnings@, j) by {
                            if j == n {
                                assert(new_covered[n] == covered_space@ && new_unions[n] == previous_union@);
                            } else {
                                assert(new_covered[j] == covered_list[j] && new_unions[j] == unions[j]);
                                assert(s0.answered_subspace(Space::with_id(covered_list[j]), Space::with_id(unions[j])) is Some);
                                self.lemma_answered_kept(s0, Space::with_id(covered_list[j]), Space::with_id(unions[j]));
                                assert(s0.only_null_candidate(*match_input, covered_list, unions, warnings@, j));
                                assert(s0.reachability_step(*match_input, covered_list, unions, j));
                                self.lemma_null_cover_decides_kept(s0, *match_input, covered_list, unions, warnings@, warnings@, j);
                            }
                        }
                        assert forall|j: int| 0 <= j < n + 1 && #[trigger] reports_only_null(warnings@, j) implies self.only_null_justified(
                            *match_input,
                            new_covered,
                            new_unions,
                            j,
                        ) by {
                            let w = choose|w: int| 0 <= w < warnings@.len() && #[trigger] warnings@[w] is OnlyNull && warning_arm_index(warnings@[w]) == j;
                            assert(warning_arm_index(warnings@[w]) < n);
                            assert(s0.only_null_justified(*match_input, covered_list, unions, j));
                            assert(s0.reachability_step(*match_input, covered_list, unions, j));
                            self.lemma_only_null_justified_kept(s0, *match_input, covered_list, unions, j);
                            assert(new_covered[j] == covered_list[j] && new_unions[j] == unions[j]);
                        }
                        self.lemma_arm_space_kept(s1, *match_input, n, current_space);
                        covered_space.lemma_with_id(0);
                        previous_union.lemma_with_id(0);
                        assert forall|j: int| 0 <= j < n + 1 implies #[trigger] self.reachability_step(*match_input, new_covered, new_unions, j) by {
                            if j < n {
                                assert(s0.reachability_step(*match_input, covered_list, unions, j));
                                self.lemma_reachability_step_kept(s0, *match_input, covered_list, unions, j);
                                assert(new_covered[j] == covered_list[j] && new_unions[j] == unions[j] && new_unions[j + 1] == unions[j + 1]);
                            } else {
                                assert(new_covered[j] == covered_space@ && new_unions[j] == previous_union@ && new_unions[j + 1] == previous_union@);
                                assert(self.arm_space_is(*match_input, j, current_space));
                            }
                        }
                        assert forall|j: int| 0 <= j < n + 1 && !(new_unions[j] == 0 && new_covered[j] == 0) implies #[trigger] self.answered_subspace(
                            Space::with_id(new_covered[j]),
                            Space::with_id(new_unions[j]),
                        ) is Some by {
                            assert(new_covered[j] == covered_list[j] && new_unions[j] == unions[j]);
                            assert(s0.answered_subspace(Space::with_id(covered_list[j]), Space::with_id(unions[j])) is Some);
                            self.lemma_answered_kept(s0, Space::with_id(covered_list[j]), Space::with_id(unions[j]));
                        }
                        assert forall|w: int| 0 <= w < warnings@.len() && (#[trigger] warnings@[w]) is Unreachable implies self.arm_unreachable(
                            new_covered,
                            new_unions,
                            warning_arm_index(warnings@[w]),
                            n + 1,
                        ) by {
                            let j = warning_arm_index(warnings@[w]);
                            assert(s0.arm_unreachable(covered_list, unions, j, n));
                            assert(new_covered[j] == covered_list[j] && new_unions[j] == unions[j]);
                            if unions[j] == 0 && covered_list[j] == 0 {
                                let k = s0.lemma_quiet_arm_covered_later(covered_list, unions, j, n);
                                assert(new_covered[k] == covered_list[k] && new_unions[k] == unions[k]);
                                assert(covers_at(new_covered, new_unions, j, n + 1, k));
                            } else {
                                self.lemma_answered_kept(s0, Space::with_id(covered_list[j]), Space::with_id(unions[j]));
                            }
                        }
                        assert forall|j: int| 0 <= j < n + 1 && #[trigger] self.arm_unreachable(new_covered, new_unions, j, n + 1)
                            implies reports_unreachable(warnings@, j) by {
                            if j < n {
                                assert(new_covered[j] == covered_list[j] && new_unions[j] == unions[j]);
                                if unions[j] == 0 && covered_list[j] == 0 {
                                    let k = self.lemma_quiet_arm_covered_later(new_covered, new_unions, j, n + 1);
                                    assert(k < n);
                                    assert(new_covered[k] == covered_list[k] && new_unions[k] == unions[k]);
                                    assert(covers_at(covered_list, unions, j, n, k));
                                    assert(s0.arm_unreachable(covered_list, unions, j, n));
                                } else {
                                    assert(s0.answered_subspace(Space::with_id(covered_list[j]), Space::with_id(unions[j])) is Some);
                                    self.lemma_answered_kept(s0, Space::with_id(covered_list[j]), Space::with_id(unions[j]));
                                    assert(s0.arm_unreachable(covered_list, unions, j, n));
                                }
                            } else {
                                assert(new_unions[j] == 0 && new_covered[j] == 0);
                            }
                        }
                        assert forall|i: int| 0 <= i < deferred_arm_indices@.len() implies #[trigger] quiet_from(
                            new_covered,
                            new_unions,
                            deferred_arm_indices@[i] as int,
                            n + 1,
                        ) by {
                            let d = deferred_arm_indices@[i] as int;
                            assert(deferred_arm_indices@ == old_deferred.push(n as usize));
                            if i < old_deferred.len() {
                                assert(deferred_arm_indices@[i] == old_deferred[i]);
                                assert(quiet_from(covered_list, unions, old_deferred[i] as int, n));
                            } else {
                                assert(d == n);
                            }
                            assert forall|k: int| d <= k && k < n + 1 implies #[trigger] quiet_at(new_covered, new_unions, k) by {
                                if k < n {
                                    assert(new_covered[k] == covered_list[k] && new_unions[k] == unions[k]);
                                    assert(quiet_at(covered_list, unions, k));
                                } else {
                                    assert(new_covered[k] == covered_space@ && new_unions[k] == previous_union@);
                                }
                            }
                            assert(quiet_from(new_covered, new_unions, d, n + 1));
                        }
                        assert forall|j: int| 0 <= j < n + 1 && #[trigger] quiet_from(new_covered, new_unions, j, n + 1)
                            implies deferred_arm_indices@.contains(j as usize) by {
                            if j < n {
                                assert forall|k: int| j <= k && k < n implies #[trigger] quiet_at(covered_list, unions, k) by {
                                    assert(new_covered[k] == covered_list[k] && new_unions[k] == unions[k]);
                                    assert(quiet_at(new_covered, new_unions, k));
                                }
                                assert(quiet_from(covered_list, unions, j, n));
                                assert(old_deferred.contains(j as usize));
                                let i = choose|i: int| 0 <= i < old_deferred.len() && old_deferred[i] == j as usize;
                                assert(deferred_arm_indices@[i] == old_deferred[i]);
                            } else {
                                assert(deferred_arm_indices@[old_deferred.len() as int] == j as usize);
                            }
                        }
                    }
                    lemma_earlier_covering_arms_prefix(*match_input, covered_list, new_covered, n);
                    self.lemma_covering_listed_step(s0, *match_input, covered_list, new_covered, w_start, warnings@);
                    covered_list = new_covered;
                    unions = new_unions;
                }
                arm_index = arm_index + 1;
                continue;
            }
            let mut d: usize = 0;
            while d < deferred_arm_indices.len()
                invariant
                    d <= deferred_arm_indices@.len(),
                    arm_index < match_input.arms@.len(),
                    increasing(deferred_arm_indices@),
                    forall|k: int| 0 <= k < deferred_arm_indices@.len() ==> #[trigger] deferred_arm_indices@[k] < arm_index,
                    forall|k: int, w: int| d <= k < deferred_arm_indices@.len() && 0 <= w < warnings@.len()
                        ==> warning_arm_index(#[trigger] warnings@[w]) < #[trigger] deferred_arm_indices@[k],
                    forall|w: int| 0 <= w < warnings@.len() ==> warning_arm_index(#[trigger] warnings@[w]) < arm_index,
                    warnings_ok(*match_input, warnings@),
                    !emitted_only_null_warning ==> forall|w: int| 0 <= w < warnings@.len() ==> !(#[trigger] warnings@[w] is OnlyNull),
                    emitted_only_null_warning ==> exists|j: int| #[trigger] reports_only_null(warnings@, j),
                    w_start.len() <= warnings@.len(),
                    forall|k: int| 0 <= k < w_start.len() ==> #[trigger] warnings@[k] == w_start[k],
                    warnings@.len() == w_start.len() + d,
                    deferred_arm_indices@ == old_deferred,
                    forall|k: int|
                        w_start.len() <= k < warnings@.len() ==> (#[trigger] warnings@[k]) is Unreachable && warning_arm_index(warnings@[k])
                            == old_deferred[k - w_start.len()] && warning_covering(warnings@[k]).len() == 0,
                decreases deferred_arm_indices@.len() - d,
            {
                let warning = ReachabilityWarning::Unreachable {
                    arm_index: deferred_arm_indices[d],
                    covering_arm_indices: Vec::new(),
                };
                let ghost previous = warnings@;
                warnings.push(warning);
                proof {
                    lemma_push_warning_ok(*match_input, previous, warning);
                    if emitted_only_null_warning {
                        let jj = choose|jj: int| #[trigger] reports_only_null(previous, jj);
                        let w = choose|w: int| 0 <= w < previous.len() && #[trigger] previous[w] is OnlyNull && warning_arm_index(previous[w]) == jj;
                        assert(warnings@[w] == previous[w]);
                        assert(reports_only_null(warnings@, jj));
                    }
                }
                d = d + 1;
            }
            deferred_arm_indices = Vec::new();

            let ghost s2 = *self;
            let unreachable = self.is_subspace(covered_space, previous_union);
            let ghost s_sub = *self;
            let ghost w_flushed = warnings@;
            let ghost mut only_null_pushed = false;
            let ghost mut took_cover_branch = false;
            proof {
                Self::lemma_evolves_trans(*self, s2, *old(self));
                Self::lemma_evolves_trans(*self, s2, s_int);
                lemma_input_ok_extends(self.ctx(), s2.ctx(), *match_input);
            }
            if unreachable {
                let ghost s3 = *self;
                let covering_arm_indices = self.covering_arm_indices(covered_space, &covered_by_previous_arms);
                proof {
                    Self::lemma_evolves_trans(*self, s3, *old(self));
                    Self::lemma_evolves_trans(*self, s3, s_int);
                    lemma_input_ok_extends(self.ctx(), s3.ctx(), *match_input);
                    s_sub.lemma_evolves_refl();
                    Self::lemma_evolves_trans(*self, s3, s_sub);
                }
                let warning = ReachabilityWarning::Unreachable { arm_index, covering_arm_indices };
                let ghost previous = warnings@;
                proof {
                    self.lemma_covering_ok(*match_input, covered_by_previous_arms@, warning_covering(warning), arm_index as int);
                }
                warnings.push(warning);
                proof {
                    lemma_push_warning_ok(*match_input, previous, warning);
                }
            } else if arm.is_wildcard && !emitted_only_null_warning && match_input.null_space.is_some() {
                let null_space = match match_input.null_space {
                    Some(null_space) => null_space,
                    None => previous_union,
                };
                let ghost s3 = *self;
                let wildcard_cover = self.build_union2(previous_union, null_space);
                let ghost s4 = *self;
                proof {
                    Self::lemma_evolves_trans(s4, s3, *old(self));
                    Self::lemma_evolves_trans(s4, s3, s_int);
                    s_sub.lemma_evolves_refl();
                    Self::lemma_evolves_trans(s4, s3, s_sub);
                    lemma_input_ok_extends(s4.ctx(), s3.ctx(), *match_input);
                }
                let only_null = self.is_subspace(covered_space, wildcard_cover);
                let ghost s_cover = *self;
                proof {
                    Self::lemma_evolves_trans(*self, s4, *old(self));
                    Self::lemma_evolves_trans(*self, s4, s_int);
                    Self::lemma_evolves_trans(*self, s4, s_sub);
                    lemma_input_ok_extends(self.ctx(), s4.ctx(), *match_input);
                }
                if only_null {
                    emitted_only_null_warning = true;
                    let ghost s5 = *self;
                    let non_null_space = self.intersect_simplified(arm.pattern_space, match_input.scrutinee_space);
                    let ghost s6 = *self;
                    proof {
                        Self::lemma_evolves_trans(s6, s5, *old(self));
                        Self::lemma_evolves_trans(s6, s5, s_int);
                        Self::lemma_evolves_trans(s6, s5, s_sub);
                        lemma_input_ok_extends(s6.ctx(), s5.ctx(), *match_input);
                    }
                    let covering_arm_indices = self.covering_arm_indices(non_null_space, &covered_by_previous_arms);
                    proof {
                        Self::lemma_evolves_trans(*self, s6, *old(self));
                        Self::lemma_evolves_trans(*self, s6, s_int);
                        Self::lemma_evolves_trans(*self, s6, s_sub);
                        lemma_input_ok_extends(self.ctx(), s6.ctx(), *match_input);
                    }
                    let warning = ReachabilityWarning::OnlyNull { arm_index, covering_arm_indices };
                    let ghost previous = warnings@;
                    proof {
                        self.lemma_covering_ok(*match_input, covered_by_previous_arms@, warning_covering(warning), arm_index as int);
                    }
                    warnings.push(warning);
                    proof {
                        lemma_push_warning_ok(*match_input, previous, warning);
                        only_null_pushed = true;
                        if self.steps() > 0 {
                            let nc = covered_list.push(covered_space@);
                            covered_space.lemma_with_id(0);
                            previous_union.lemma_with_id(0);
                            assert(nc[n] == covered_space@ && unions[n] == previous_union@);
                            Self::lemma_evolves_trans(*self, s6, s_cover);
                            self.lemma_answered_kept(s_sub, covered_space, previous_union);
                            self.lemma_answered_kept(s_cover, covered_space, wildcard_cover);
                            let members = seq![previous_union, null_space];
                            assert forall|i: int| 0 <= i < members.len() implies s3.ctx().valid_space(#[trigger] members[i]) by {}
                            self.ctx().lemma_union_member_list_extends(s3.ctx(), members);
                            s4.ctx().lemma_union_member_list_extends(s3.ctx(), members);
                            self.ctx().lemma_is_union_of_extends(s4.ctx(), wildcard_cover, s3.ctx().union_member_list(members));
                            assert(members == seq![Space::<O::Type, O::Extractor>::with_id(unions[n]), match_input.null_space->Some_0]);
                            assert(self.only_null_justified(*match_input, nc, unions, n));
                        }
                    }
                }
                proof {
                    took_cover_branch = true;
                    if self.steps() > 0 {
                        let nc = covered_list.push(covered_space@);
                        covered_space.lemma_with_id(0);
                        previous_union.lemma_with_id(0);
                        assert(nc[n] == covered_space@ && unions[n] == previous_union@);
                        if !only_null {
                            s_cover.lemma_evolves_refl();
                        }
                        assert(self.evolves(s_cover));
                        self.lemma_answered_kept(s_cover, covered_space, wildcard_cover);
                        let members = seq![previous_union, null_space];
                        assert forall|i: int| 0 <= i < members.len() implies s3.ctx().valid_space(#[trigger] members[i]) by {}
                        self.ctx().lemma_union_member_list_extends(s3.ctx(), members);
                        s4.ctx().lemma_union_member_list_extends(s3.ctx(), members);
                        self.ctx().lemma_is_union_of_extends(s4.ctx(), wildcard_cover, s3.ctx().union_member_list(members));
                        assert(members == seq![Space::<O::Type, O::Extractor>::with_id(unions[n]), match_input.null_space->Some_0]);
                        if only_null {
                            let w = warnings@.len() - 1;
                            assert(warnings@[w] is OnlyNull && warning_arm_index(warnings@[w]) == n);
                            assert(reports_only_null(warnings@, n));
                        } else {
                            assert(warnings@ == w_flushed);
                            if reports_only_null(warnings@, n) {
                                let w = choose|w: int| 0 <= w < warnings@.len() && #[trigger] warnings@[w] is OnlyNull && warning_arm_index(warnings@[w]) == n;
                                assert(warning_arm_index(warnings@[w]) < n);
                            }
                        }
                        assert(self.answered_subspace(Space::with_id(nc[n]), wildcard_cover) == Some(only_null));
                        assert(self.null_cover_decides(*match_input, nc, unions, warnings@, n));
                    }
                }
            }
            let ghost s_checked = *self;
            let ghost on_covered = covered_list.push(covered_space@);
            proof {
                if self.steps() > 0 {
                    assert forall|w: int| w_flushed.len() <= w < warnings@.len() && (#[trigger] warnings@[w]) is Unreachable implies self.covering_listed(
                        covered_space,
                        arms_start,
                        warning_covering(warnings@[w]),
                    ) && warning_arm_index(warnings@[w]) == n by {
                        assert(unreachable);
                    }
                }
            }

            proof {
                if *self == s_sub {
                    s_sub.lemma_evolves_refl();
                }
            }
            let ghost union_before = previous_union;
            let ghost w_done = warnings@;
            proof {
                s_checked.lemma_evolves_refl();
            }
            if !arm.is_partial && !covered_space.is_empty() {
                let ghost s3 = *self;
                previous_union = self.build_union2(previous_union, covered_space);
                proof {
                    Self::lemma_evolves_trans(*self, s3, *old(self));
                    Self::lemma_evolves_trans(*self, s3, s_int);
                    Self::lemma_evolves_trans(*self, s3, s_checked);
                    Self::lemma_evolves_trans(*self, s3, s_sub);
                    self.ctx().lemma_union_member_list_extends(s3.ctx(), seq![union_before, covered_space]);
                    lemma_input_ok_extends(self.ctx(), s3.ctx(), *match_input);
                    s3.ctx().lemma_union_member_list_nonempty(seq![union_before, covered_space]);
                    assert(seq![union_before, covered_space][1]@ != 0);
                }
                let ghost previous = covered_by_previous_arms@;
                covered_by_previous_arms.push(CoveredArm { arm_index, covered_space });
                proof {
                    assert(covered_indices(covered_by_previous_arms@) =~= covered_indices(previous).push(arm_index));
                }
            }
            proof {
                if match_input.null_space is None && match_input.scrutinee_space@ != 0 {
                    if s_int.remembered_simplification(match_input.scrutinee_space) is Some {
                        self.lemma_remembered_kept(s_int, match_input.scrutinee_space);
                    }
                    assert forall|i: int, j: int|
                        #![trigger catch_all_arm(*match_input, i), match_input.arms@[j]]
                        catch_all_arm(*match_input, i) && i < j < arm_index + 1 && match_input.arms@[j].pattern_space@ == 0
                            && self.remembered_simplification(match_input.scrutinee_space) is Some
                            && self.remembered_simplification(match_input.scrutinee_space) != Some(0nat) implies reports_unreachable(
                        warnings@,
                        j,
                    ) by {
                        assert(catch_all_arm(*match_input, i) && i < arm_index);
                        assert(s0.remembered_simplification(match_input.scrutinee_space) is Some);
                        if j < arm_index {
                            assert(reports_unreachable(w_start, j));
                            lemma_reports_prefix(w_start, warnings@, j);
                        } else {
                            assert(union_before@ != 0);
                            assert(covered_space@ == 0);
                            assert(unreachable);
                            let w = (warnings@.len() - 1) as int;
                            assert(warnings@[w] is Unreachable && warning_arm_index(warnings@[w]) == j);
                        }
                    }
                }
            }
            proof {
                if emitted_only_null_warning {
                    if emitted_start {
                        let jj = choose|jj: int| #[trigger] reports_only_null(w_start, jj);
                        let w = choose|w: int| 0 <= w < w_start.len() && #[trigger] w_start[w] is OnlyNull && warning_arm_index(w_start[w]) == jj;
                        assert(warnings@[w] == w_start[w]);
                        assert(reports_only_null(warnings@, jj));
                    } else {
                        assert(only_null_pushed);
                        let w = w_flushed.len() as int;
                        assert(warnings@[w] is OnlyNull && warning_arm_index(warnings@[w]) == n);
                        assert(reports_only_null(warnings@, n));
                    }
                }
            }
            proof {
                let new_unions = unions.push(previous_union@);
                if self.steps() > 0 {
                    assert(self.evolves(s_sub));
                    Self::lemma_evolves_trans(*self, s_sub, s_int);
                    Self::lemma_evolves_trans(*self, s_int, s0);
                    assert forall|i: int| 0 <= i < n implies (#[trigger] reports_only_null(warnings@, i) <==> reports_only_null(w_start, i)) by {
                        if reports_only_null(warnings@, i) {
                            let w = choose|w: int| 0 <= w < warnings@.len() && #[trigger] warnings@[w] is OnlyNull && warning_arm_index(warnings@[w]) == i;
                            if w < w_start.len() {
                                assert(warnings@[w] == w_start[w]);
                            } else if w < w_flushed.len() {
                                assert(warnings@[w] == w_flushed[w]);
                            }
                        }
                        if reports_only_null(w_start, i) {
                            let w = choose|w: int| 0 <= w < w_start.len() && #[trigger] w_start[w] is OnlyNull && warning_arm_index(w_start[w]) == i;
                            assert(warnings@[w] == w_start[w]);
                        }
                    }
                    assert forall|j: int| 0 <= j < n + 1 && #[trigger] self.only_null_candidate(
                        *match_input,
                        new_covered,
                        new_unions,
                        warnings@,
                        j,
                    ) implies self.null_cover_decides(*match_input, new_covered, new_unions, warnings@, j) by {
                        if j < n {
                            assert(new_covered[j] == covered_list[j] && new_unions[j] == unions[j]);
                            assert(s0.answered_subspace(Space::with_id(covered_list[j]), Space::with_id(unions[j])) is Some);
                            self.lemma_answered_kept(s0, Space::with_id(covered_list[j]), Space::with_id(unions[j]));
                            assert forall|i: int| 0 <= i < j implies !#[trigger] reports_only_null(w_start, i) by {
                                assert(!reports_only_null(warnings@, i));
                            }
                            assert(s0.only_null_candidate(*match_input, covered_list, unions, w_start, j));
                            assert(s0.reachability_step(*match_input, covered_list, unions, j));
                            self.lemma_null_cover_decides_kept(s0, *match_input, covered_list, unions, w_start, warnings@, j);
                        } else {
                            assert(new_covered[n] == covered_space@ && new_unions[n] == union_before@);
                            covered_space.lemma_with_id(0);
                            union_before.lemma_with_id(0);
                            if emitted_start {
                                let jj = choose|jj: int| #[trigger] reports_only_null(w_start, jj);
                                let w = choose|w: int| 0 <= w < w_start.len() && #[trigger] w_start[w] is OnlyNull && warning_arm_index(w_start[w]) == jj;
                                assert(warning_arm_index(w_start[w]) < n);
                                assert(reports_only_null(warnings@, jj));
                            }
                            self.lemma_answered_kept(s_sub, covered_space, union_before);
                            assert(!unreachable);
                            assert(took_cover_branch);
                            assert(s_checked.null_cover_decides(*match_input, on_covered, unions, w_done, n));
                            assert(s_checked.ctx().valid_space(union_before));
                            self.lemma_null_cover_decides_kept(s_checked, *match_input, on_covered, unions, w_done, warnings@, n);
                            assert(new_covered[n] == on_covered[n] && new_unions[n] == unions[n]);
                        }
                    }
                    Self::lemma_evolves_trans(*self, s_int, s1);
                    self.lemma_arm_space_kept(s1, *match_input, n, current_space);
                    Self::lemma_evolves_trans(*self, s_sub, s_int);
                    Self::lemma_evolves_trans(*self, s_int, s0);
                    covered_space.lemma_with_id(0);
                    union_before.lemma_with_id(0);
                    previous_union.lemma_with_id(0);
                    assert(!(union_before@ == 0 && covered_space@ == 0));
                    assert(warnings@ == w_done);
                    assert forall|j: int| 0 <= j < n + 1 && #[trigger] reports_only_null(warnings@, j) implies self.only_null_justified(
                        *match_input,
                        new_covered,
                        new_unions,
                        j,
                    ) by {
                        let w = choose|w: int| 0 <= w < warnings@.len() && #[trigger] warnings@[w] is OnlyNull && warning_arm_index(warnings@[w]) == j;
                        if w < w_start.len() {
                            assert(warnings@[w] == w_start[w]);
                            assert(reports_only_null(w_start, j));
                            assert(j < n);
                            assert(s0.only_null_justified(*match_input, covered_list, unions, j));
                            assert(s0.reachability_step(*match_input, covered_list, unions, j));
                            self.lemma_only_null_justified_kept(s0, *match_input, covered_list, unions, j);
                            assert(new_covered[j] == covered_list[j] && new_unions[j] == unions[j]);
                        } else if w < w_flushed.len() {
                            assert(warnings@[w] == w_flushed[w]);
                        } else {
                            assert(j == n);
                            assert(only_null_pushed);
                            assert(s_checked.only_null_justified(*match_input, on_covered, unions, n));
                            union_before.lemma_with_id(0);
                            assert(s_checked.ctx().valid_space(union_before));
                            assert(Space::<O::Type, O::Extractor>::with_id(unions[n]) == union_before);
                            self.lemma_only_null_justified_kept(s_checked, *match_input, on_covered, unions, n);
                            assert(new_covered[n] == on_covered[n] && new_unions[n] == unions[n]);
                        }
                    }
                    // steps
                    assert forall|j: int| 0 <= j < n + 1 implies #[trigger] self.reachability_step(*match_input, new_covered, new_unions, j) by {
                        if j < n {
                            assert(s0.reachability_step(*match_input, covered_list, unions, j));
                            self.lemma_reachability_step_kept(s0, *match_input, covered_list, unions, j);
                            assert(new_covered[j] == covered_list[j] && new_unions[j] == unions[j] && new_unions[j + 1] == unions[j + 1]);
                        } else {
                            assert(new_covered[j] == covered_space@ && new_unions[j] == union_before@ && new_unions[j + 1] == previous_union@);
                            self.lemma_intersected_kept(s_int, current_space, match_input.scrutinee_space, covered_space@);
                            assert(self.arm_space_is(*match_input, j, current_space));
                        }
                    }
                    // answers of the arms that cover something
                    self.lemma_answered_kept(s_sub, covered_space, union_before);
                    assert forall|j: int| 0 <= j < n + 1 && !(new_unions[j] == 0 && new_covered[j] == 0) implies #[trigger] self.answered_subspace(
                        Space::with_id(new_covered[j]),
                        Space::with_id(new_unions[j]),
                    ) is Some by {
                        if j < n {
                            assert(new_covered[j] == covered_list[j] && new_unions[j] == unions[j]);
                            assert(s0.answered_subspace(Space::with_id(covered_list[j]), Space::with_id(unions[j])) is Some);
                            self.lemma_answered_kept(s0, Space::with_id(covered_list[j]), Space::with_id(unions[j]));
                        } else {
                            assert(new_covered[j] == covered_space@ && new_unions[j] == union_before@);
                        }
                    }
                    // what the warnings report is unreachable
                    assert(covers_at(new_covered, new_unions, 0, n + 1, n) || n == 0);
                    assert forall|w: int| 0 <= w < warnings@.len() && (#[trigger] warnings@[w]) is Unreachable implies self.arm_unreachable(
                        new_covered,
                        new_unions,
                        warning_arm_index(warnings@[w]),
                        n + 1,
                    ) by {
                        let j = warning_arm_index(warnings@[w]);
                        if w < w_start.len() {
                            assert(warnings@[w] == w_start[w]);
                            assert(s0.arm_unreachable(covered_list, unions, j, n));
                            assert(0 <= j < n);
                            assert(new_covered[j] == covered_list[j] && new_unions[j] == unions[j]);
                            if unions[j] == 0 && covered_list[j] == 0 {
                                let k = s0.lemma_quiet_arm_covered_later(covered_list, unions, j, n);
                                assert(new_covered[k] == covered_list[k] && new_unions[k] == unions[k]);
                                assert(covers_at(new_covered, new_unions, j, n + 1, k));
                            } else {
                                self.lemma_answered_kept(s0, Space::with_id(covered_list[j]), Space::with_id(unions[j]));
                            }
                        } else if w < w_flushed.len() {
                            assert(warnings@[w] == w_flushed[w]);
                            let d = old_deferred[w - w_start.len()] as int;
                            assert(j == d);
                            assert(quiet_from(covered_list, unions, d, n));
                            assert(0 <= d < n);
                            assert(quiet_at(covered_list, unions, d));
                            assert(new_covered[d] == covered_list[d] && new_unions[d] == unions[d]);
                            assert(new_covered[n] == covered_space@ && new_unions[n] == union_before@);
                            assert(covers_at(new_covered, new_unions, d, n + 1, n));
                        } else {
                            assert(j == n);
                            assert(unreachable);
                            assert(new_covered[n] == covered_space@ && new_unions[n] == union_before@);
                        }
                    }
                    // every unreachable arm is reported
                    assert forall|j: int| 0 <= j < n + 1 && #[trigger] self.arm_unreachable(new_covered, new_unions, j, n + 1)
                        implies reports_unreachable(warnings@, j) by {
                        if j == n {
                            assert(new_covered[n] == covered_space@ && new_unions[n] == union_before@);
                            assert(unreachable);
                            let w = w_flushed.len() as int;
                            assert(warnings@[w] is Unreachable && warning_arm_index(warnings@[w]) == j);
                        } else {
                            assert(new_covered[j] == covered_list[j] && new_unions[j] == unions[j]);
                            if !(unions[j] == 0 && covered_list[j] == 0) {
                                assert(s0.answered_subspace(Space::with_id(covered_list[j]), Space::with_id(unions[j])) is Some);
                                self.lemma_answered_kept(s0, Space::with_id(covered_list[j]), Space::with_id(unions[j]));
                                assert(s0.arm_unreachable(covered_list, unions, j, n));
                                assert(reports_unreachable(w_start, j));
                                lemma_reports_prefix(w_start, warnings@, j);
                            } else if quiet_from(covered_list, unions, j, n) {
                                assert(old_deferred.contains(j as usize));
                                let i = choose|i: int| 0 <= i < old_deferred.len() && old_deferred[i] == j as usize;
                                let w = w_start.len() + i;
                                assert(warnings@[w] == w_flushed[w]);
                                assert(warnings@[w] is Unreachable && warning_arm_index(warnings@[w]) == j);
                            } else {
                                let k = choose|k: int| j <= k && k < n && !#[trigger] quiet_at(covered_list, unions, k);
                                assert(k != j);
                                assert(covers_at(covered_list, unions, j, n, k));
                                assert(s0.arm_unreachable(covered_list, unions, j, n));
                                assert(reports_unreachable(w_start, j));
                                lemma_reports_prefix(w_start, warnings@, j);
                            }
                        }
                    }
                    // nothing is deferred any more
                    assert forall|j: int| 0 <= j < n + 1 && #[trigger] quiet_from(new_covered, new_unions, j, n + 1)
                        implies deferred_arm_indices@.contains(j as usize) by {
                        assert(quiet_at(new_covered, new_unions, n));
                    }
                }
                lemma_earlier_covering_arms_prefix(*match_input, covered_list, new_covered, n);
                covered_space.lemma_with_id(0);
                assert(new_covered[n] == covered_space@);
                assert(self.evolves(s_sub));
                assert(self.evolves(s_checked));
                Self::lemma_evolves_trans(*self, s_sub, s_int);
                Self::lemma_evolves_trans(*self, s_int, s0);
                if self.steps() > 0 {
                    assert(warnings@ == w_done);
                    self.lemma_new_warnings_listed(s_checked, *match_input, covered_list, unions, covered_space, arms_start, w_start, w_flushed, w_done, old_deferred);
                }
                self.lemma_covering_listed_step(s0, *match_input, covered_list, new_covered, w_start, warnings@);
                assert(covered_by_previous_arms@ == earlier_covering_arms(*match_input, new_covered, n + 1));
                covered_list = new_covered;
                unions = new_unions;
            }
            arm_index = arm_index + 1;
        }
        proof {
            if self.steps() > 0 {
                let n = match_input.arms@.len() as int;
                assert(self.reachability_trace(*match_input, covered_list, unions));
                assert(self.warnings_list_covering(*match_input, covered_list, warnings@));
                assert forall|j: int| 0 <= j < n implies (#[trigger] reports_unreachable(warnings@, j) <==> self.arm_unreachable(
                    covered_list,
                    unions,
                    j,
                    n,
                )) by {
                    if reports_unreachable(warnings@, j) {
                        let w = choose|w: int| 0 <= w < warnings@.len() && #[trigger] warnings@[w] is Unreachable && warning_arm_index(warnings@[w]) == j;
                        assert(warnings@[w] is Unreachable);
                    }
                }
            }
        }
        warnings
    }

    proof fn lemma_covering_ok(
        self,
        match_input: MatchInput<O::Type, O::Extractor>,
        covered: Seq<CoveredArm<O::Type, O::Extractor>>,
        indices: Seq<usize>,
        arm_index: int,
    )
        requires
            forall|k: int| 0 <= k < covered.len() ==> {
                let c = #[trigger] covered[k];
                &&& c.arm_index < arm_index
                &&& !match_input.arms@[c.arm_index as int].is_partial
            },
            forall|i: int| 0 <= i < indices.len() ==> covered_indices(covered).contains(#[trigger] indices[i]),
        ensures
            forall|k: int| 0 <= k < indices.len() ==> #[trigger] indices[k] < arm_index
                && !match_input.arms@[indices[k] as int].is_partial,
    {
        assert forall|k: int| 0 <= k < indices.len() implies #[trigger] indices[k] < arm_index
            && !match_input.arms@[indices[k] as int].is_partial by {
            assert(covered_indices(covered).contains(indices[k]));
            let j = choose|j: int| 0 <= j < covered_indices(covered).len() && covered_indices(covered)[j] == indices[k];
            assert(covered[j].arm_index == indices[k]);
        }
    }

    /// The earlier arms that, one after the other, account for `target_space`.
    fn covering_arm_indices(&mut self, target_space: Space<O::Type, O::Extractor>, covered_by_previous_arms: &Vec<CoveredArm<O::Type, O::Extractor>>) -> (indices: Vec<usize>)
        requires
            old(self).wf(),
            old(self).ctx().valid_space(target_space),
            forall|k: int| 0 <= k < covered_by_previous_arms@.len() ==> old(self).ctx().valid_space((#[trigger] covered_by_previous_arms@[k]).covered_space),
            increasing(covered_indices(covered_by_previous_arms@)),
        ensures
            final(self).evolves(*old(self)),
            increasing(indices@),
            forall|i: int| 0 <= i < indices@.len() ==> covered_indices(covered_by_previous_arms@).contains(#[trigger] indices@[i]),
            final(self).remembered_simplification(target_space) == Some(0nat) ==> indices@.len() == 0,
            covered_by_previous_arms@.len() > 0 && covered_by_previous_arms@[0].covered_space@ != 0
                && final(self).remembered_simplification(target_space) == Some(covered_by_previous_arms@[0].covered_space@)
                && final(self).remembered_simplification(covered_by_previous_arms@[0].covered_space) == Some(
                covered_by_previous_arms@[0].covered_space@,
            ) ==> indices@.len() > 0 && indices@[0] == covered_by_previous_arms@[0].arm_index,
            final(self).steps() > 0 ==> exists|rems: Seq<nat>, taken: Seq<bool>|
                #![trigger final(self).covering_trace(covered_by_previous_arms@, rems, taken)]
                final(self).covering_trace(covered_by_previous_arms@, rems, taken) && final(self).remembered_simplification(
                    target_space,
                ) == Some(rems[0]) && indices@ == taken_indices(covered_by_previous_arms@, taken),
            final(self).steps() > 0 ==> final(self).covering_listed(target_space, covered_by_previous_arms@, indices@),
    {
        let ghost s0 = *self;
        let mut remaining_space = self.simplify(target_space);
        let ghost first_remaining = remaining_space;
        let ghost s_simplified = *self;
        let mut covering_arm_indices: Vec<usize> = Vec::new();
        if remaining_space.is_empty() {
            proof {
                let rems = seq![0nat];
                let taken = Seq::<bool>::empty();
                assert(self.covering_trace(covered_by_previous_arms@, rems, taken));
                assert(covering_arm_indices@ =~= taken_indices(covered_by_previous_arms@, taken));
                assert(self.covering_listed(target_space, covered_by_previous_arms@, covering_arm_indices@));
            }
            return covering_arm_indices;
        }
        let ghost mut rems: Seq<nat> = seq![first_remaining@];
        let ghost mut taken: Seq<bool> = Seq::empty();
        proof {
            s_simplified.lemma_evolves_refl();
        }
        let ghost covered = covered_indices(covered_by_previous_arms@);
        let mut k: usize = 0;
        while k < covered_by_previous_arms.len()
            invariant_except_break
                remaining_space@ != 0,
            invariant
                self.evolves(*old(self)),
                k <= covered_by_previous_arms@.len(),
                covered == covered_indices(covered_by_previous_arms@),
                covered.len() == covered_by_previous_arms@.len(),
                self.ctx().valid_space(remaining_space),
                forall|j: int| 0 <= j < covered_by_previous_arms@.len() ==> self.ctx().valid_space((#[trigger] covered_by_previous_arms@[j]).covered_space),
                increasing(covered),
                increasing(covering_arm_indices@),
                forall|i: int| 0 <= i < covering_arm_indices@.len() ==> covered.contains(#[trigger] covering_arm_indices@[i]),
                forall|i: int, j: int| 0 <= i < covering_arm_indices@.len() && k <= j < covered.len() ==> #[trigger] covering_arm_indices@[i] < #[trigger] covered[j],
                self.evolves(s_simplified),
                first_remaining@ != 0,
                k == 0 ==> remaining_space == first_remaining && covering_arm_indices@.len() == 0,
                k > 0 && first_remaining@ == covered_by_previous_arms@[0].covered_space@ ==> (self.remembered_simplification(
                    covered_by_previous_arms@[0].covered_space,
                ) matches Some(o) && (o != 0 ==> covering_arm_indices@.len() > 0 && covering_arm_indices@[0]
                    == covered_by_previous_arms@[0].arm_index)),
                rems.len() == k + 1,
                taken.len() == k,
                rems[0] == first_remaining@,
                rems.last() == remaining_space@,
                covering_arm_indices@ == taken_indices(covered_by_previous_arms@, taken),
                self.steps() > 0 ==> forall|t: int|
                    0 <= t < k ==> #[trigger] self.covering_step(
                        covered_by_previous_arms@[t].covered_space,
                        rems[t],
                        taken[t],
                        rems[t + 1],
                    ),
            ensures
                k > 0 || covered_by_previous_arms@.len() == 0,
                k == covered_by_previous_arms@.len() || remaining_space@ == 0,
            decreases covered_by_previous_arms@.len() - k,
        {
            let covered_arm = &covered_by_previous_arms[k];
            let ghost s1 = *self;
            let overlap = self.intersect_simplified(remaining_space, covered_arm.covered_space);
            proof {
                Self::lemma_evolves_trans(*self, s1, *old(self));
                Self::lemma_evolves_trans(*self, s1, s_simplified);
                if first_remaining@ == covered_by_previous_arms@[0].covered_space@ {
                    if k == 0 {
                        Space::lemma_same_id(remaining_space, covered_by_previous_arms@[0].covered_space);
                    } else {
                        self.lemma_remembered_kept(s1, covered_by_previous_arms@[0].covered_space);
                    }
                }
            }
            proof {
                if self.steps() > 0 {
                    assert forall|t: int| 0 <= t < k implies #[trigger] self.covering_step(
                        covered_by_previous_arms@[t].covered_space,
                        rems[t],
                        taken[t],
                        rems[t + 1],
                    ) by {
                        self.lemma_covering_step_kept(s1, covered_by_previous_arms@[t].covered_space, rems[t], taken[t], rems[t + 1]);
                    }
                }
            }
            if overlap.is_empty() {
                proof {
                    let prev_rems = rems;
                    let prev_taken = taken;
                    remaining_space.lemma_with_id(0);
                    rems = rems.push(remaining_space@);
                    taken = taken.push(false);
                    if self.steps() > 0 {
                        assert forall|t: int| 0 <= t < k + 1 implies #[trigger] self.covering_step(
                            covered_by_previous_arms@[t].covered_space,
                            rems[t],
                            taken[t],
                            rems[t + 1],
                        ) by {
                            assert(rems[t] == prev_rems[t] && taken[t] == if t < k { prev_taken[t] } else { false });
                            if t < k {
                                assert(rems[t + 1] == prev_rems[t + 1]);
                                assert(self.covering_step(covered_by_previous_arms@[t].covered_space, prev_rems[t], prev_taken[t], prev_rems[t + 1]));
                            } else {
                                assert(rems[t + 1] == remaining_space@);
                                assert(self.covering_step(covered_by_previous_arms@[t].covered_space, prev_rems[t], false, remaining_space@));
                            }
                        }
                    }
                    assert(taken.drop_last() =~= prev_taken);
                }
                k = k + 1;
                continue;
            }
            let ghost s_overlap = *self;
            let ghost previous = covering_arm_indices@;
            covering_arm_indices.push(covered_arm.arm_index);
            proof {
                assert(covered[k as int] == covered_arm.arm_index);
                assert(covered.contains(covered_arm.arm_index));
            }
            let ghost s2 = *self;
            let ghost before_space = remaining_space;
            remaining_space = self.subtract_simplified(remaining_space, covered_arm.covered_space);
            proof {
                Self::lemma_evolves_trans(*self, s2, *old(self));
                Self::lemma_evolves_trans(*self, s2, s_simplified);
                if first_remaining@ == covered_by_previous_arms@[0].covered_space@ {
                    self.lemma_remembered_kept(s2, covered_by_previous_arms@[0].covered_space);
                }
                let prev_rems = rems;
                let prev_taken = taken;
                before_space.lemma_with_id(0);
                rems = rems.push(remaining_space@);
                taken = taken.push(true);
                if self.steps() > 0 {
                    self.lemma_intersected_kept(s_overlap, before_space, covered_arm.covered_space, overlap@);
                    assert(self.intersected_to(Space::with_id(prev_rems[k as int]), covered_by_previous_arms@[k as int].covered_space, overlap@));
                    assert(self.covering_step(covered_by_previous_arms@[k as int].covered_space, prev_rems[k as int], true, remaining_space@));
                    assert forall|t: int| 0 <= t < k + 1 implies #[trigger] self.covering_step(
                        covered_by_previous_arms@[t].covered_space,
                        rems[t],
                        taken[t],
                        rems[t + 1],
                    ) by {
                        assert(rems[t] == prev_rems[t] && taken[t] == if t < k { prev_taken[t] } else { true });
                        if t < k {
                            assert(rems[t + 1] == prev_rems[t + 1]);
                            assert(s2.covering_step(covered_by_previous_arms@[t].covered_space, prev_rems[t], prev_taken[t], prev_rems[t + 1]));
                            self.lemma_covering_step_kept(s2, covered_by_previous_arms@[t].covered_space, prev_rems[t], prev_taken[t], prev_rems[t + 1]);
                        } else {
                            assert(rems[t + 1] == remaining_space@);
                        }
                    }
                }
                assert(taken.drop_last() =~= prev_taken);
                assert(covering_arm_indices@ == taken_indices(covered_by_previous_arms@, taken));
            }
            k = k + 1;
            if remaining_space.is_empty() {
                break;
            }
        }
        proof {
            self.lemma_remembered_kept(s_simplified, target_space);
            if self.steps() > 0 {
                assert(self.covering_trace(covered_by_previous_arms@, rems, taken));
                assert(self.covering_listed(target_space, covered_by_previous_arms@, covering_arm_indices@));
            }
        }
        covering_arm_indices
    }
}

/// Appending a warning about a later arm keeps the list well shaped.
proof fn lemma_push_warning_ok<T, E>(input: MatchInput<T, E>, warnings: Seq<ReachabilityWarning>, warning: ReachabilityWarning)
    requires
        warnings_ok(input, warnings),
        forall|w: int| 0 <= w < warnings.len() ==> warning_arm_index(#[trigger] warnings[w]) < warning_arm_index(warning),
        0 <= warning_arm_index(warning) < input.arms@.len(),
        increasing(warning_covering(warning)),
        forall|k: int| 0 <= k < warning_covering(warning).len() ==> #[trigger] warning_covering(warning)[k]
            < warning_arm_index(warning) && !input.arms@[warning_covering(warning)[k] as int].is_partial,
        warning is OnlyNull ==> input.arms@[warning_arm_index(warning)].is_wildcard && input.null_space is Some,
        warning is OnlyNull ==> forall|w: int| 0 <= w < warnings.len() ==> !(#[trigger] warnings[w] is OnlyNull),
    ensures
        warnings_ok(input, warnings.push(warning)),
{
    let pushed = warnings.push(warning);
    assert forall|i: int, j: int| 0 <= i < j < pushed.len() implies warning_arm_index(pushed[i]) < warning_arm_index(pushed[j]) by {
        if j == warnings.len() {
            assert(pushed[i] == warnings[i]);
        } else {
            assert(pushed[i] == warnings[i]);
            assert(pushed[j] == warnings[j]);
        }
    }
    assert forall|i: int, j: int| 0 <= i < j < pushed.len() implies !(pushed[i] is OnlyNull && pushed[j] is OnlyNull) by {
        assert(pushed[i] == warnings[i]);
        if j < warnings.len() {
            assert(pushed[j] == warnings[j]);
        }
    }
    assert forall|i: int| 0 <= i < pushed.len() implies {
        let w = #[trigger] pushed[i];
        &&& 0 <= warning_arm_index(w) < input.arms@.len()
        &&& increasing(warning_covering(w))
        &&& forall|k: int|
            0 <= k < warning_covering(w).len() ==> #[trigger] warning_covering(w)[k]
                < warning_arm_index(w) && !input.arms@[warning_covering(w)[k] as int].is_partial
        &&& w is OnlyNull ==> input.arms@[warning_arm_index(w)].is_wildcard && input.null_space is Some
    } by {
        if i < warnings.len() {
            assert(pushed[i] == warnings[i]);
        }
    }
}

} // verus!
