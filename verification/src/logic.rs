//! The three-valued literal domain, cubes, cube lists, and what they mean.

use vstd::prelude::*;

verus! {

/// One entry of a cube: the variable occurs as a positive literal, as a
/// negated literal, or not at all.
#[derive(Clone, Copy, Debug, PartialEq, Eq, PartialOrd, Ord, Hash, Structural)]
pub enum TriLogic {
    True,
    False,
    DontCare,
}

/// The two bits that stand for a literal where cubes are shown in binary:
/// `01` for the positive literal, `10` for the negated one, `11` for an
/// absent variable.
pub open spec fn bit_pattern(t: TriLogic) -> u8 {
    match t {
        TriLogic::True => 1,
        TriLogic::False => 2,
        TriLogic::DontCare => 3,
    }
}

impl TriLogic {
    /// The two bits that stand for this literal.
    pub fn bits(self) -> (pattern: u8)
        ensures
            pattern == bit_pattern(self),
    {
        match self {
            TriLogic::True => 1,
            TriLogic::False => 2,
            TriLogic::DontCare => 3,
        }
    }
}

/// A conjunction of literals: entry `i` is the literal of variable `i`.
pub type Cube = Vec<TriLogic>;

/// A disjunction of cubes. The empty list is the constant 0; a list holding
/// an all-`DontCare` cube is the constant 1.
pub type CubeList = Vec<Vec<TriLogic>>;

/// The mathematical content of a cube list: a sequence of sequences.
pub open spec fn cubes(f: Seq<Vec<TriLogic>>) -> Seq<Seq<TriLogic>> {
    Seq::new(f.len(), |k: int| f[k]@)
}

/// Every cube of `f` has one entry for each of the `n` variables.
pub open spec fn well_formed(f: Seq<Seq<TriLogic>>, n: nat) -> bool {
    forall|k: int| 0 <= k < f.len() ==> (#[trigger] f[k]).len() == n
}

/// The cube of `n` variables that constrains none of them.
pub open spec fn free_cube(n: nat) -> Seq<TriLogic> {
    Seq::new(n, |i: int| TriLogic::DontCare)
}

/// No variable is constrained by `c`.
pub open spec fn is_free(c: Seq<TriLogic>) -> bool {
    forall|i: int| 0 <= i < c.len() ==> c[i] == TriLogic::DontCare
}

/// Some cube of `f` constrains no variable, so `f` is the constant 1.
pub open spec fn has_free_cube(f: Seq<Seq<TriLogic>>) -> bool {
    exists|k: int| 0 <= k < f.len() && is_free(#[trigger] f[k])
}

/// Every cube of `f` leaves variable `x` unconstrained.
pub open spec fn lacks_variable(f: Seq<Seq<TriLogic>>, x: int) -> bool {
    forall|k: int| 0 <= k < f.len() ==> (#[trigger] f[k])[x] == TriLogic::DontCare
}

/// The literal `t` of one variable agrees with the value `v` given to it.
pub open spec fn literal_admits(t: TriLogic, v: bool) -> bool {
    match t {
        TriLogic::True => v,
        TriLogic::False => !v,
        TriLogic::DontCare => true,
    }
}

/// The conjunction `c` is 1 under the assignment `a`.
pub open spec fn cube_holds(c: Seq<TriLogic>, a: Seq<bool>) -> bool {
    forall|i: int| 0 <= i < c.len() ==> literal_admits(#[trigger] c[i], a[i])
}

/// The disjunction `f` is 1 under the assignment `a`.
pub open spec fn holds(f: Seq<Seq<TriLogic>>, a: Seq<bool>) -> bool {
    exists|k: int| 0 <= k < f.len() && cube_holds(#[trigger] f[k], a)
}

/// The opposite literal; an absent variable stays absent.
pub open spec fn flipped(t: TriLogic) -> TriLogic {
    match t {
        TriLogic::True => TriLogic::False,
        TriLogic::False => TriLogic::True,
        TriLogic::DontCare => TriLogic::DontCare,
    }
}

/// Whether every cube of the list has `num_vars` entries.
pub fn every_cube_has_length(f: &CubeList, num_vars: usize) -> (all_have: bool)
    ensures
        all_have == well_formed(cubes(f@), num_vars as nat),
{
    let mut k: usize = 0;
    while k < f.len()
        invariant
            k <= f.len(),
            forall|j: int| 0 <= j < k ==> (#[trigger] cubes(f@)[j]).len() == num_vars,
        decreases f.len() - k,
    {
        if f[k].len() != num_vars {
            assert(cubes(f@)[k as int].len() != num_vars);
            return false;
        }
        k = k + 1;
    }
    true
}

/// The value of a cube under an assignment of its variables.
pub fn evaluate_cube(cube: &Cube, assignment: &[bool]) -> (value: bool)
    requires
        cube.len() <= assignment.len(),
    ensures
        value == cube_holds(cube@, assignment@),
{
    let mut i: usize = 0;
    while i < cube.len()
        invariant
            i <= cube.len() <= assignment.len(),
            forall|j: int| 0 <= j < i ==> literal_admits(#[trigger] cube@[j], assignment@[j]),
        decreases cube.len() - i,
    {
        let admitted = match cube[i] {
            TriLogic::True => assignment[i],
            TriLogic::False => !assignment[i],
            TriLogic::DontCare => true,
        };
        if !admitted {
            assert(!literal_admits(cube@[i as int], assignment@[i as int]));
            return false;
        }
        i = i + 1;
    }
    true
}

/// The value of the function of a cube list under an assignment of its
/// variables.
pub fn evaluate(f: &CubeList, assignment: &[bool]) -> (value: bool)
    requires
        well_formed(cubes(f@), assignment@.len()),
    ensures
        value == holds(cubes(f@), assignment@),
{
    let mut k: usize = 0;
    while k < f.len()
        invariant
            k <= f.len(),
            well_formed(cubes(f@), assignment@.len()),
            forall|j: int| 0 <= j < k ==> !cube_holds(#[trigger] cubes(f@)[j], assignment@),
        decreases f.len() - k,
    {
        assert(cubes(f@)[k as int] == f[k as int]@);
        if evaluate_cube(&f[k], assignment) {
            assert(cube_holds(cubes(f@)[k as int], assignment@));
            return true;
        }
        k = k + 1;
    }
    false
}

} // verus!
