//! Counting the entries of a cube, and detecting the constant-1 cube.

use crate::logic::{cubes, has_free_cube, is_free, CubeList, TriLogic};
use vstd::prelude::*;

verus! {

/// How many entries of `c` are `DontCare`.
pub open spec fn dont_care_count(c: Seq<TriLogic>) -> nat
    decreases c.len(),
{
    if c.len() == 0 {
        0
    } else {
        dont_care_count(c.drop_last()) + if c.last() == TriLogic::DontCare {
            1nat
        } else {
            0nat
        }
    }
}

/// How many entries of `c` are literals, positive or negated.
pub open spec fn literal_count(c: Seq<TriLogic>) -> nat
    decreases c.len(),
{
    if c.len() == 0 {
        0
    } else {
        literal_count(c.drop_last()) + if c.last() != TriLogic::DontCare {
            1nat
        } else {
            0nat
        }
    }
}

/// Each entry of a cube is counted by exactly one of the two counters.
pub proof fn lemma_counts_partition(c: Seq<TriLogic>)
    ensures
        dont_care_count(c) + literal_count(c) == c.len(),
    decreases c.len(),
{
    if c.len() > 0 {
        lemma_counts_partition(c.drop_last());
    }
}

/// Counts the `DontCare` entries of a cube.
pub fn count_all_dont_cares(cube: &[TriLogic]) -> (count: usize)
    ensures
        count == dont_care_count(cube@),
{
    let mut count: usize = 0;
    let mut i: usize = 0;
    while i < cube.len()
        invariant
            i <= cube.len(),
            count <= i,
            count == dont_care_count(cube@.subrange(0, i as int)),
        decreases cube.len() - i,
    {
        assert(cube@.subrange(0, i + 1).drop_last() =~= cube@.subrange(0, i as int));
        if cube[i] == TriLogic::DontCare {
            count = count + 1;
        }
        i = i + 1;
    }
    assert(cube@.subrange(0, i as int) =~= cube@);
    count
}

/// Counts the entries of a cube that are literals.
pub fn count_all_not_dont_cares(cube: &[TriLogic]) -> (count: usize)
    ensures
        count == literal_count(cube@),
{
    let mut count: usize = 0;
    let mut i: usize = 0;
    while i < cube.len()
        invariant
            i <= cube.len(),
            count <= i,
            count == literal_count(cube@.subrange(0, i as int)),
        decreases cube.len() - i,
    {
        assert(cube@.subrange(0, i + 1).drop_last() =~= cube@.subrange(0, i as int));
        if cube[i] != TriLogic::DontCare {
            count = count + 1;
        }
        i = i + 1;
    }
    assert(cube@.subrange(0, i as int) =~= cube@);
    count
}

/// Whether a cube constrains no variable at all.
pub fn is_all_dont_cares(cube: &[TriLogic]) -> (free: bool)
    ensures
        free == is_free(cube@),
{
    let mut i: usize = 0;
    while i < cube.len()
        invariant
            i <= cube.len(),
            forall|j: int| 0 <= j < i ==> cube@[j] == TriLogic::DontCare,
        decreases cube.len() - i,
    {
        if cube[i] != TriLogic::DontCare {
            return false;
        }
        i = i + 1;
    }
    true
}

/// Whether some cube of the list constrains no variable, which makes the
/// list the constant 1.
pub fn cubelist_contains_all_dont_cares_cube(f: &CubeList) -> (present: bool)
    ensures
        present == has_free_cube(cubes(f@)),
{
    let mut k: usize = 0;
    while k < f.len()
        invariant
            k <= f.len(),
            forall|j: int| 0 <= j < k ==> !is_free(#[trigger] cubes(f@)[j]),
        decreases f.len() - k,
    {
        if is_all_dont_cares(f[k].as_slice()) {
            assert(is_free(cubes(f@)[k as int]));
            return true;
        }
        k = k + 1;
    }
    false
}

} // verus!
