//! Choosing the variable on which a cube list is split.
//!
//! A variable is binate in a list when it occurs there both as a positive
//! and as a negated literal, and unate otherwise. Splitting on the variable
//! that occurs most often keeps the expansion shallow.

use crate::logic::{cubes, lacks_variable, well_formed, CubeList, TriLogic};
use vstd::prelude::*;

verus! {

/// What is counted for one variable over a whole cube list.
#[derive(Clone, Copy, Debug, PartialEq, Eq, Structural)]
pub struct BinateVarAttrs {
    /// The number of cubes that hold the variable as a positive literal.
    pub true_count: usize,
    /// The number of cubes that hold the variable as a negated literal.
    pub complement_count: usize,
    /// The variable's own index.
    pub index: usize,
}

/// The number of cubes of `f` in which variable `i` is a positive literal.
pub open spec fn positive_count(f: Seq<Seq<TriLogic>>, i: int) -> nat
    decreases f.len(),
{
    if f.len() == 0 {
        0
    } else {
        positive_count(f.drop_last(), i) + if f.last()[i] == TriLogic::True {
            1nat
        } else {
            0nat
        }
    }
}

/// The number of cubes of `f` in which variable `i` is a negated literal.
pub open spec fn negative_count(f: Seq<Seq<TriLogic>>, i: int) -> nat
    decreases f.len(),
{
    if f.len() == 0 {
        0
    } else {
        negative_count(f.drop_last(), i) + if f.last()[i] == TriLogic::False {
            1nat
        } else {
            0nat
        }
    }
}

/// The number of cubes of `f` that constrain variable `i`.
pub open spec fn occurrences(f: Seq<Seq<TriLogic>>, i: int) -> nat {
    positive_count(f, i) + negative_count(f, i)
}

/// How far the two polarities of variable `i` are from occurring equally often.
pub open spec fn skew(f: Seq<Seq<TriLogic>>, i: int) -> nat {
    if positive_count(f, i) >= negative_count(f, i) {
        (positive_count(f, i) - negative_count(f, i)) as nat
    } else {
        (negative_count(f, i) - positive_count(f, i)) as nat
    }
}

/// Variable `i` occurs in `f` with both polarities.
pub open spec fn is_binate(f: Seq<Seq<TriLogic>>, i: int) -> bool {
    positive_count(f, i) > 0 && negative_count(f, i) > 0
}

/// One of the first `n` variables is binate in `f`.
pub open spec fn has_binate(f: Seq<Seq<TriLogic>>, n: int) -> bool {
    exists|i: int| 0 <= i < n && is_binate(f, i)
}

/// Among binate variables, `i` is chosen before `j`: it occurs more often;
/// or as often, with the greater skew; or with both equal, it comes first.
pub open spec fn binate_precedes(f: Seq<Seq<TriLogic>>, i: int, j: int) -> bool {
    occurrences(f, i) > occurrences(f, j) || (occurrences(f, i) == occurrences(f, j) && (skew(f, i)
        > skew(f, j) || (skew(f, i) == skew(f, j) && i < j)))
}

/// Where no variable is binate, `i` is chosen before `j`: it occurs more
/// often, or as often and comes first.
pub open spec fn unate_precedes(f: Seq<Seq<TriLogic>>, i: int, j: int) -> bool {
    occurrences(f, i) > occurrences(f, j) || (occurrences(f, i) == occurrences(f, j) && i < j)
}

/// `r` is the variable on which `f`, a list over `n` variables, is split:
/// the binate variable that precedes every other binate one, or, where none
/// is binate, the variable that precedes every other.
pub open spec fn is_splitting_variable(f: Seq<Seq<TriLogic>>, n: int, r: int) -> bool {
    &&& 0 <= r < n
    &&& has_binate(f, n) ==> is_binate(f, r) && forall|j: int|
        0 <= j < n && j != r && is_binate(f, j) ==> binate_precedes(f, r, j)
    &&& !has_binate(f, n) ==> forall|j: int| 0 <= j < n && j != r ==> unate_precedes(f, r, j)
}

/// The variable on which `f` is split.
pub open spec fn splitting_variable(f: Seq<Seq<TriLogic>>, n: int) -> int {
    choose|r: int| is_splitting_variable(f, n, r)
}

/// At most one variable meets the rule of choice, so the choice depends on
/// the cube list alone.
pub proof fn lemma_splitting_variable_unique(f: Seq<Seq<TriLogic>>, n: int, a: int, b: int)
    requires
        is_splitting_variable(f, n, a),
        is_splitting_variable(f, n, b),
    ensures
        a == b,
        a == splitting_variable(f, n),
{
    if a != b {
        if has_binate(f, n) {
            assert(binate_precedes(f, a, b));
            assert(binate_precedes(f, b, a));
        } else {
            assert(unate_precedes(f, a, b));
            assert(unate_precedes(f, b, a));
        }
    }
    let c = splitting_variable(f, n);
    assert(is_splitting_variable(f, n, c));
    if a != c {
        if has_binate(f, n) {
            assert(binate_precedes(f, a, c));
            assert(binate_precedes(f, c, a));
        } else {
            assert(unate_precedes(f, a, c));
            assert(unate_precedes(f, c, a));
        }
    }
}

/// A variable that may be chosen: any variable, or, where `binate` is set,
/// a binate one.
pub open spec fn is_candidate(f: Seq<Seq<TriLogic>>, binate: bool, i: int) -> bool {
    binate ==> is_binate(f, i)
}

/// The order of choice among candidates.
pub open spec fn candidate_precedes(f: Seq<Seq<TriLogic>>, binate: bool, i: int, j: int) -> bool {
    if binate {
        binate_precedes(f, i, j)
    } else {
        unate_precedes(f, i, j)
    }
}

/// Among the first `j` variables, if one is a candidate, one candidate
/// precedes all the others.
pub proof fn lemma_first_candidate(f: Seq<Seq<TriLogic>>, binate: bool, j: int) -> (r: int)
    requires
        exists|i: int| 0 <= i < j && is_candidate(f, binate, i),
    ensures
        0 <= r < j,
        is_candidate(f, binate, r),
        forall|i: int|
            0 <= i < j && i != r && is_candidate(f, binate, i) ==> candidate_precedes(
                f,
                binate,
                r,
                i,
            ),
    decreases j,
{
    if exists|i: int| 0 <= i < j - 1 && is_candidate(f, binate, i) {
        let p = lemma_first_candidate(f, binate, j - 1);
        if is_candidate(f, binate, j - 1) && candidate_precedes(f, binate, j - 1, p) {
            assert forall|i: int|
                0 <= i < j && i != j - 1 && is_candidate(f, binate, i) implies candidate_precedes(
                f,
                binate,
                j - 1,
                i,
            ) by {
                if i != p {
                    assert(candidate_precedes(f, binate, p, i));
                }
            }
            j - 1
        } else {
            p
        }
    } else {
        let w = choose|i: int| 0 <= i < j && is_candidate(f, binate, i);
        assert(w == j - 1);
        j - 1
    }
}

/// A list over at least one variable has a splitting variable.
pub proof fn lemma_splitting_variable_exists(f: Seq<Seq<TriLogic>>, n: int)
    requires
        n > 0,
    ensures
        is_splitting_variable(f, n, splitting_variable(f, n)),
{
    let binate = has_binate(f, n);
    if binate {
        let w = choose|i: int| 0 <= i < n && is_binate(f, i);
        assert(is_candidate(f, binate, w));
    } else {
        assert(is_candidate(f, binate, 0));
    }
    let r = lemma_first_candidate(f, binate, n);
    if binate {
        assert forall|j: int| 0 <= j < n && j != r && is_binate(f, j) implies binate_precedes(
            f,
            r,
            j,
        ) by {
            assert(is_candidate(f, binate, j));
            assert(candidate_precedes(f, binate, r, j));
        }
    } else {
        assert forall|j: int| 0 <= j < n && j != r implies unate_precedes(f, r, j) by {
            assert(is_candidate(f, binate, j));
            assert(candidate_precedes(f, binate, r, j));
        }
    }
    assert(is_splitting_variable(f, n, r));
}

/// A variable that some cube constrains occurs at least once.
pub proof fn lemma_occurs(f: Seq<Seq<TriLogic>>, k: int, i: int)
    requires
        0 <= k < f.len(),
        f[k][i] != TriLogic::DontCare,
    ensures
        occurrences(f, i) >= 1,
    decreases f.len(),
{
    if k < f.len() - 1 {
        assert(f.drop_last()[k] == f[k]);
        lemma_occurs(f.drop_last(), k, i);
    }
}

/// A variable that no cube constrains does not occur.
pub proof fn lemma_lacking_never_occurs(f: Seq<Seq<TriLogic>>, y: int)
    requires
        lacks_variable(f, y),
    ensures
        occurrences(f, y) == 0,
    decreases f.len(),
{
    if f.len() > 0 {
        let d = f.drop_last();
        assert forall|k: int| 0 <= k < d.len() implies (#[trigger] d[k])[y]
            == TriLogic::DontCare by {
            assert(d[k] == f[k]);
        }
        lemma_lacking_never_occurs(d, y);
        assert(f.last() == f[f.len() - 1]);
    }
}

/// Where the first cube constrains some variable, the splitting variable
/// is one that occurs in the list.
pub proof fn lemma_splitting_variable_occurs(f: Seq<Seq<TriLogic>>, n: int, i: int)
    requires
        f.len() > 0,
        0 <= i < n,
        f[0][i] != TriLogic::DontCare,
    ensures
        is_splitting_variable(f, n, splitting_variable(f, n)),
        occurrences(f, splitting_variable(f, n)) >= 1,
{
    lemma_splitting_variable_exists(f, n);
    lemma_occurs(f, 0, i);
    let r = splitting_variable(f, n);
    if !has_binate(f, n) && r != i {
        assert(unate_precedes(f, r, i));
    }
}

/// A cube counts for at most one polarity of a variable.
pub proof fn lemma_occurrences_bounded(f: Seq<Seq<TriLogic>>, i: int)
    ensures
        occurrences(f, i) <= f.len(),
    decreases f.len(),
{
    if f.len() > 0 {
        lemma_occurrences_bounded(f.drop_last(), i);
    }
}

/// The entry agrees with what the cube list holds for its variable.
pub open spec fn counts_variable(attrs: BinateVarAttrs, f: Seq<Seq<TriLogic>>, i: int) -> bool {
    &&& attrs.true_count == positive_count(f, i)
    &&& attrs.complement_count == negative_count(f, i)
    &&& attrs.index == i
}

/// Counts, for each variable, the cubes that hold it in either polarity.
pub fn count_polarities(f: &CubeList, num_vars: usize) -> (tie: Vec<BinateVarAttrs>)
    requires
        well_formed(cubes(f@), num_vars as nat),
    ensures
        tie.len() == num_vars,
        forall|i: int| 0 <= i < num_vars ==> counts_variable(#[trigger] tie[i], cubes(f@), i),
{
    let ghost all = cubes(f@);
    let mut tie: Vec<BinateVarAttrs> = Vec::new();
    let mut v: usize = 0;
    while v < num_vars
        invariant
            v <= num_vars,
            tie.len() == v,
            forall|i: int| 0 <= i < v ==> counts_variable(#[trigger] tie[i], all.subrange(0, 0), i),
        decreases num_vars - v,
    {
        tie.push(BinateVarAttrs { true_count: 0, complement_count: 0, index: v });
        v = v + 1;
    }
    let mut k: usize = 0;
    while k < f.len()
        invariant
            k <= f.len(),
            all == cubes(f@),
            well_formed(all, num_vars as nat),
            tie.len() == num_vars,
            forall|i: int|
                0 <= i < num_vars ==> counts_variable(#[trigger] tie[i], all.subrange(0, k as int), i),
        decreases f.len() - k,
    {
        let cube = &f[k];
        let ghost before = all.subrange(0, k as int);
        let ghost after = all.subrange(0, k + 1);
        assert(cube@ == all[k as int]);
        assert(after.drop_last() =~= before);
        assert(after.last() == cube@);
        let mut i: usize = 0;
        while i < num_vars
            invariant
                i <= num_vars,
                k < f.len(),
                before.len() == k,
                cube@.len() == num_vars,
                tie.len() == num_vars,
                after.len() > 0,
                after.drop_last() == before,
                after.last() == cube@,
                forall|j: int| 0 <= j < i ==> counts_variable(#[trigger] tie[j], after, j),
                forall|j: int| i <= j < num_vars ==> counts_variable(#[trigger] tie[j], before, j),
            decreases num_vars - i,
        {
            let seen = tie[i];
            proof {
                lemma_occurrences_bounded(before, i as int);
                assert(counts_variable(seen, before, i as int));
            }
            let term = cube[i];
            let updated = if term == TriLogic::True {
                BinateVarAttrs {
                    true_count: seen.true_count + 1,
                    complement_count: seen.complement_count,
                    index: i,
                }
            } else if term == TriLogic::False {
                BinateVarAttrs {
                    true_count: seen.true_count,
                    complement_count: seen.complement_count + 1,
                    index: i,
                }
            } else {
                seen
            };
            tie[i] = updated;
            assert(counts_variable(updated, after, i as int));
            i = i + 1;
        }
        k = k + 1;
    }
    assert(all.subrange(0, k as int) =~= all);
    tie
}

/// The sum of the two counts of an entry.
pub open spec fn attrs_total(attrs: BinateVarAttrs) -> int {
    attrs.true_count + attrs.complement_count
}

/// The distance between the two counts of an entry.
pub open spec fn attrs_skew(attrs: BinateVarAttrs) -> int {
    if attrs.true_count >= attrs.complement_count {
        attrs.true_count - attrs.complement_count
    } else {
        attrs.complement_count - attrs.true_count
    }
}

/// Both polarities were counted at least once.
pub open spec fn attrs_binate(attrs: BinateVarAttrs) -> bool {
    attrs.true_count > 0 && attrs.complement_count > 0
}

/// The order in which binate entries are chosen: greater total first, then
/// greater skew, then smaller index.
pub open spec fn attrs_binate_precedes(left: BinateVarAttrs, right: BinateVarAttrs) -> bool {
    attrs_total(left) > attrs_total(right) || (attrs_total(left) == attrs_total(right) && (
    attrs_skew(left) > attrs_skew(right) || (attrs_skew(left) == attrs_skew(right) && left.index
        < right.index)))
}

/// The order in which entries are chosen where none is binate: greater total
/// first, then smaller index.
pub open spec fn attrs_unate_precedes(left: BinateVarAttrs, right: BinateVarAttrs) -> bool {
    attrs_total(left) > attrs_total(right) || (attrs_total(left) == attrs_total(right)
        && left.index < right.index)
}

/// The distance between the two counts of an entry.
pub fn skew_of(attrs: &BinateVarAttrs) -> (distance: usize)
    ensures
        distance == attrs_skew(*attrs),
{
    if attrs.true_count >= attrs.complement_count {
        attrs.true_count - attrs.complement_count
    } else {
        attrs.complement_count - attrs.true_count
    }
}

/// Whether `left` is chosen before `right` among binate entries.
pub fn binate_comes_first(left: &BinateVarAttrs, right: &BinateVarAttrs) -> (before: bool)
    requires
        attrs_total(*left) <= usize::MAX,
        attrs_total(*right) <= usize::MAX,
    ensures
        before == attrs_binate_precedes(*left, *right),
{
    let left_total: usize = left.true_count + left.complement_count;
    let right_total: usize = right.true_count + right.complement_count;
    if left_total != right_total {
        left_total > right_total
    } else {
        let left_skew: usize = skew_of(left);
        let right_skew: usize = skew_of(right);
        if left_skew != right_skew {
            left_skew > right_skew
        } else {
            left.index < right.index
        }
    }
}

/// Whether `left` is chosen before `right` where no entry is binate.
pub fn unate_comes_first(left: &BinateVarAttrs, right: &BinateVarAttrs) -> (before: bool)
    requires
        attrs_total(*left) <= usize::MAX,
        attrs_total(*right) <= usize::MAX,
    ensures
        before == attrs_unate_precedes(*left, *right),
{
    let left_total: usize = left.true_count + left.complement_count;
    let right_total: usize = right.true_count + right.complement_count;
    if left_total != right_total {
        left_total > right_total
    } else {
        left.index < right.index
    }
}

/// Whether some entry has both counts above zero.
pub fn there_are_binate_vars(tie: &Vec<BinateVarAttrs>) -> (found: bool)
    ensures
        found == exists|i: int| 0 <= i < tie.len() && attrs_binate(#[trigger] tie[i]),
{
    let mut i: usize = 0;
    while i < tie.len()
        invariant
            i <= tie.len(),
            forall|j: int| 0 <= j < i ==> !attrs_binate(#[trigger] tie[j]),
        decreases tie.len() - i,
    {
        if tie[i].true_count > 0 && tie[i].complement_count > 0 {
            return true;
        }
        i = i + 1;
    }
    false
}

/// The variable on which a cube list is best split.
///
/// Where some variable is binate, the result is the binate variable that
/// occurs in the most cubes; among those that occur equally often, the one
/// whose two polarities differ most in number; among those still equal, the
/// one with the smallest index. Where no variable is binate, the result is
/// the variable that occurs in the most cubes, and of several the first.
pub fn most_binate_variable(f: &CubeList) -> (split_var_idx: usize)
    requires
        f.len() > 0,
        f[0].len() > 0,
        well_formed(cubes(f@), f[0].len() as nat),
    ensures
        is_splitting_variable(cubes(f@), f[0].len() as int, split_var_idx as int),
        split_var_idx == splitting_variable(cubes(f@), f[0].len() as int),
{
    let ghost all = cubes(f@);
    let num_vars = f[0].len();
    let tie = count_polarities(f, num_vars);
    let binate = there_are_binate_vars(&tie);
    proof {
        assert forall|i: int| 0 <= i < num_vars implies attrs_total(#[trigger] tie[i])
            <= usize::MAX by {
            lemma_occurrences_bounded(all, i);
            assert(counts_variable(tie[i], all, i));
        }
        if binate {
            let w = choose|i: int| 0 <= i < tie.len() && attrs_binate(#[trigger] tie[i]);
            assert(counts_variable(tie[w], all, w));
            assert(is_binate(all, w));
        } else {
            assert forall|i: int| 0 <= i < num_vars implies !is_binate(all, i) by {
                assert(counts_variable(tie[i], all, i));
            }
        }
        assert(binate == has_binate(all, num_vars as int));
    }
    let mut found = false;
    let mut best: usize = 0;
    let mut j: usize = 0;
    while j < num_vars
        invariant
            j <= num_vars,
            tie.len() == num_vars,
            forall|i: int| 0 <= i < num_vars ==> counts_variable(#[trigger] tie[i], all, i),
            forall|i: int| 0 <= i < num_vars ==> attrs_total(#[trigger] tie[i]) <= usize::MAX,
            found ==> best < j,
            found && binate ==> is_binate(all, best as int),
            !found && binate ==> forall|i: int| 0 <= i < j ==> !is_binate(all, i),
            !found && !binate ==> j == 0,
            found && binate ==> forall|i: int|
                0 <= i < j && i != best && is_binate(all, i) ==> binate_precedes(
                    all,
                    best as int,
                    i,
                ),
            found && !binate ==> forall|i: int|
                0 <= i < j && i != best ==> unate_precedes(all, best as int, i),
        decreases num_vars - j,
    {
        let candidate = tie[j];
        proof {
            assert(counts_variable(candidate, all, j as int));
            if found {
                assert(counts_variable(tie[best as int], all, best as int));
            }
        }
        if binate {
            if candidate.true_count > 0 && candidate.complement_count > 0 {
                if !found || binate_comes_first(&candidate, &tie[best]) {
                    best = j;
                    found = true;
                }
            }
        } else {
            let ghost earlier = best as int;
            if !found || unate_comes_first(&candidate, &tie[best]) {
                proof {
                    assert forall|i: int| 0 <= i < j implies unate_precedes(all, j as int, i) by {
                        if i != earlier {
                            assert(unate_precedes(all, earlier, i));
                        }
                    }
                }
                best = j;
                found = true;
            }
        }
        j = j + 1;
    }
    proof {
        assert(found);
        assert(is_splitting_variable(all, num_vars as int, best as int));
        lemma_splitting_variable_unique(all, num_vars as int, best as int, best as int);
    }
    best
}

} // verus!
