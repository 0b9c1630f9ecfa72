//! The complement of a Boolean function given as a cube list.
//!
//! The constant functions and the single cube are complemented directly.
//! Any other list is split on one variable: the complements of its two
//! cofactors, each joined with the literal of its side, together make up
//! the complement of the whole.

use crate::algebra::{
    lemma_holds_concat, lemma_with_literal_holds, lemma_with_literal_shape, put_literal,
    with_literal, OR,
};
use crate::binate::{
    is_splitting_variable, lemma_lacking_never_occurs, lemma_splitting_variable_occurs,
    most_binate_variable, occurrences, splitting_variable,
};
use crate::cofactor::{
    lemma_cofactor_holds, lemma_cofactor_literal_total, lemma_cofactor_shape, lemma_holds_push,
    literal_total, negativeCofactor, negative_cofactor, positiveCofactor, positive_cofactor,
    variable_in_range,
};
use crate::counting::{cubelist_contains_all_dont_cares_cube, literal_count};
use crate::error::CubeError;
use crate::logic::{
    cube_holds, cubes, every_cube_has_length, flipped, free_cube, has_free_cube, holds, is_free,
    lacks_variable, literal_admits, well_formed, CubeList, TriLogic,
};
use vstd::prelude::*;

verus! {

/// The cube of `n` variables whose only literal is `t`, at variable `i`.
pub open spec fn unit_cube(n: nat, i: int, t: TriLogic) -> Seq<TriLogic> {
    free_cube(n).update(i, t)
}

/// One cube for each literal among the first `upto` entries of `c`, in
/// their order: the cube that holds the opposite literal and nothing else.
pub open spec fn negated_literals(c: Seq<TriLogic>, upto: int) -> Seq<Seq<TriLogic>>
    decreases upto,
{
    if upto <= 0 {
        Seq::empty()
    } else if c[upto - 1] == TriLogic::DontCare {
        negated_literals(c, upto - 1)
    } else {
        negated_literals(c, upto - 1).push(unit_cube(c.len(), upto - 1, flipped(c[upto - 1])))
    }
}

/// The complement of a single cube, by De Morgan's law: the disjunction of
/// the opposites of its literals.
pub open spec fn cube_complement(c: Seq<TriLogic>) -> Seq<Seq<TriLogic>> {
    negated_literals(c, c.len() as int)
}

/// The complement of a single cube has one cube for each of its literals.
pub proof fn lemma_negated_literals_len(c: Seq<TriLogic>, upto: int)
    requires
        0 <= upto <= c.len(),
    ensures
        negated_literals(c, upto).len() == literal_count(c.subrange(0, upto)),
    decreases upto,
{
    if upto > 0 {
        lemma_negated_literals_len(c, upto - 1);
        assert(c.subrange(0, upto).drop_last() =~= c.subrange(0, upto - 1));
    }
}

/// The cubes made for the literals of a cube have its length, and constrain
/// no variable that the cube leaves free.
pub proof fn lemma_negated_literals_shape(c: Seq<TriLogic>, upto: int)
    requires
        0 <= upto <= c.len(),
    ensures
        well_formed(negated_literals(c, upto), c.len()),
        forall|y: int|
            0 <= y < c.len() && c[y] == TriLogic::DontCare ==> #[trigger] lacks_variable(
                negated_literals(c, upto),
                y,
            ),
    decreases upto,
{
    if upto > 0 {
        lemma_negated_literals_shape(c, upto - 1);
        let shorter = negated_literals(c, upto - 1);
        assert forall|y: int|
            0 <= y < c.len() && c[y] == TriLogic::DontCare implies #[trigger] lacks_variable(
            negated_literals(c, upto),
            y,
        ) by {
            assert(lacks_variable(shorter, y));
        }
    }
}

/// The cubes made for the first `upto` literals of a cube are 1 exactly
/// where one of these literals is 0.
pub proof fn lemma_negated_literals_hold(c: Seq<TriLogic>, upto: int, a: Seq<bool>)
    requires
        0 <= upto <= c.len(),
        a.len() == c.len(),
    ensures
        holds(negated_literals(c, upto), a) <==> exists|i: int|
            0 <= i < upto && !literal_admits(#[trigger] c[i], a[i]),
    decreases upto,
{
    if upto <= 0 {
        assert(!holds(negated_literals(c, upto), a));
    } else {
        let j = upto - 1;
        lemma_negated_literals_hold(c, j, a);
        let shorter = negated_literals(c, j);
        if c[j] == TriLogic::DontCare {
            if exists|i: int| 0 <= i < upto && !literal_admits(#[trigger] c[i], a[i]) {
                let w = choose|i: int| 0 <= i < upto && !literal_admits(#[trigger] c[i], a[i]);
                assert(w < j);
            }
        } else {
            let unit = unit_cube(c.len(), j, flipped(c[j]));
            lemma_holds_push(shorter, unit, a);
            if cube_holds(unit, a) {
                assert(literal_admits(unit[j], a[j]));
                assert(!literal_admits(c[j], a[j]));
            }
            if !literal_admits(c[j], a[j]) {
                assert forall|i: int| 0 <= i < unit.len() implies literal_admits(
                    #[trigger] unit[i],
                    a[i],
                ) by {}
                assert(cube_holds(unit, a));
            }
            if exists|i: int| 0 <= i < upto && !literal_admits(#[trigger] c[i], a[i]) {
                let w = choose|i: int| 0 <= i < upto && !literal_admits(#[trigger] c[i], a[i]);
                if w < j {
                    assert(holds(shorter, a));
                }
            }
        }
    }
}

/// The complement of `f`, a cube list over `n` variables.
///
/// The empty list, which is the constant 0, has the one cube without
/// literals as its complement. A list that holds such a cube is the
/// constant 1, and its complement is empty. A single cube is complemented
/// by De Morgan's law. Any other list is split on its splitting variable:
/// the complement of each cofactor is joined with the literal of its side,
/// the positive side first.
pub open spec fn complement(n: nat, f: Seq<Seq<TriLogic>>) -> Seq<Seq<TriLogic>>
    decreases literal_total(f),
    when well_formed(f, n)
    via complement_decreases
{
    if f.len() == 0 {
        seq![free_cube(n)]
    } else if has_free_cube(f) {
        Seq::empty()
    } else if f.len() == 1 {
        cube_complement(f[0])
    } else {
        let x = splitting_variable(f, n as int);
        with_literal(complement(n, positive_cofactor(f, x)), x, true) + with_literal(
            complement(n, negative_cofactor(f, x)),
            x,
            false,
        )
    }
}

/// A list without a cube free of literals is split on a variable that some
/// cube constrains.
pub proof fn lemma_split_occurs(n: nat, f: Seq<Seq<TriLogic>>)
    requires
        well_formed(f, n),
        f.len() > 0,
        !has_free_cube(f),
    ensures
        0 <= splitting_variable(f, n as int) < n,
        is_splitting_variable(f, n as int, splitting_variable(f, n as int)),
        occurrences(f, splitting_variable(f, n as int)) >= 1,
        variable_in_range(f, splitting_variable(f, n as int)),
{
    assert(!is_free(f[0]));
    let i = choose|i: int| 0 <= i < f[0].len() && f[0][i] != TriLogic::DontCare;
    lemma_splitting_variable_occurs(f, n as int, i);
}

#[via_fn]
proof fn complement_decreases(n: nat, f: Seq<Seq<TriLogic>>) {
    if f.len() != 0 && !has_free_cube(f) && f.len() != 1 {
        let x = splitting_variable(f, n as int);
        lemma_split_occurs(n, f);
        lemma_cofactor_literal_total(f, x, true);
        lemma_cofactor_literal_total(f, x, false);
    }
}

/// The complement of a well-formed list is well formed, and constrains no
/// variable that the list leaves free in every cube.
pub proof fn lemma_complement_shape(n: nat, f: Seq<Seq<TriLogic>>)
    requires
        well_formed(f, n),
    ensures
        well_formed(complement(n, f), n),
        forall|y: int|
            0 <= y < n && #[trigger] lacks_variable(f, y) ==> lacks_variable(complement(n, f), y),
    decreases literal_total(f),
{
    let g = complement(n, f);
    if f.len() == 0 {
        assert(g[0] == free_cube(n));
    } else if has_free_cube(f) {
    } else if f.len() == 1 {
        lemma_negated_literals_shape(f[0], f[0].len() as int);
        assert forall|y: int| 0 <= y < n && #[trigger] lacks_variable(f, y) implies lacks_variable(
            g,
            y,
        ) by {
            assert(f[0][y] == TriLogic::DontCare);
        }
    } else {
        let x = splitting_variable(f, n as int);
        lemma_split_occurs(n, f);
        let pc = positive_cofactor(f, x);
        let nc = negative_cofactor(f, x);
        lemma_cofactor_literal_total(f, x, true);
        lemma_cofactor_literal_total(f, x, false);
        lemma_cofactor_shape(f, n, x, true);
        lemma_cofactor_shape(f, n, x, false);
        lemma_complement_shape(n, pc);
        lemma_complement_shape(n, nc);
        let p = complement(n, pc);
        let q = complement(n, nc);
        lemma_with_literal_shape(p, n, x, true);
        lemma_with_literal_shape(q, n, x, false);
        let pl = with_literal(p, x, true);
        let ql = with_literal(q, x, false);
        assert(g == pl + ql);
        assert forall|k: int| 0 <= k < g.len() implies (#[trigger] g[k]).len() == n by {
            if k < pl.len() {
                assert(g[k] == pl[k]);
            } else {
                assert(g[k] == ql[k - pl.len()]);
            }
        }
        assert forall|y: int| 0 <= y < n && #[trigger] lacks_variable(f, y) implies lacks_variable(
            g,
            y,
        ) by {
            lemma_lacking_never_occurs(f, y);
            assert(y != x);
            assert(lacks_variable(pc, y));
            assert(lacks_variable(nc, y));
            assert(lacks_variable(p, y));
            assert(lacks_variable(q, y));
            assert(lacks_variable(pl, y));
            assert(lacks_variable(ql, y));
            assert forall|k: int| 0 <= k < g.len() implies (#[trigger] g[k])[y]
                == TriLogic::DontCare by {
                if k < pl.len() {
                    assert(g[k] == pl[k]);
                } else {
                    assert(g[k] == ql[k - pl.len()]);
                }
            }
        }
    }
}

/// The complement is 1 under an assignment exactly when the list is 0
/// under it.
pub proof fn lemma_complement_holds(n: nat, f: Seq<Seq<TriLogic>>, a: Seq<bool>)
    requires
        well_formed(f, n),
        a.len() == n,
    ensures
        holds(complement(n, f), a) <==> !holds(f, a),
    decreases literal_total(f),
{
    let g = complement(n, f);
    if f.len() == 0 {
        assert(g[0] == free_cube(n));
        assert(cube_holds(g[0], a));
    } else if has_free_cube(f) {
        let k = choose|k: int| 0 <= k < f.len() && is_free(#[trigger] f[k]);
        assert(cube_holds(f[k], a));
    } else if f.len() == 1 {
        let c = f[0];
        lemma_negated_literals_hold(c, c.len() as int, a);
        if holds(f, a) {
            let k = choose|k: int| 0 <= k < f.len() && cube_holds(#[trigger] f[k], a);
            assert(k == 0);
        }
        if !cube_holds(c, a) {
            assert(!holds(f, a));
        } else {
            assert(cube_holds(f[0], a));
        }
    } else {
        let x = splitting_variable(f, n as int);
        lemma_split_occurs(n, f);
        let pc = positive_cofactor(f, x);
        let nc = negative_cofactor(f, x);
        lemma_cofactor_literal_total(f, x, true);
        lemma_cofactor_literal_total(f, x, false);
        lemma_cofactor_shape(f, n, x, true);
        lemma_cofactor_shape(f, n, x, false);
        lemma_complement_shape(n, pc);
        lemma_complement_shape(n, nc);
        lemma_complement_holds(n, pc, a);
        lemma_complement_holds(n, nc, a);
        let p = complement(n, pc);
        let q = complement(n, nc);
        assert(lacks_variable(pc, x));
        assert(lacks_variable(nc, x));
        lemma_with_literal_holds(p, n, x, true, a);
        lemma_with_literal_holds(q, n, x, false, a);
        lemma_holds_concat(with_literal(p, x, true), with_literal(q, x, false), a);
        lemma_cofactor_holds(f, n, x, true, a);
        lemma_cofactor_holds(f, n, x, false, a);
        if a[x] {
            assert(a.update(x, true) =~= a);
        } else {
            assert(a.update(x, false) =~= a);
        }
    }
}

/// Complementing twice gives back the function: the complement of the
/// complement is 1 under exactly the assignments under which the list is,
/// though its cubes may be others.
pub proof fn lemma_complement_involution(n: nat, f: Seq<Seq<TriLogic>>, a: Seq<bool>)
    requires
        well_formed(f, n),
        a.len() == n,
    ensures
        holds(complement(n, complement(n, f)), a) <==> holds(f, a),
{
    lemma_complement_shape(n, f);
    lemma_complement_holds(n, f, a);
    lemma_complement_holds(n, complement(n, f), a);
}

/// The complement of a list of exactly one cube: for each literal of the
/// cube, in the order of the variables, one cube that holds the opposite
/// literal and leaves every other variable free.
pub fn direct_complement(f: &CubeList) -> (result: CubeList)
    requires
        f.len() == 1,
    ensures
        cubes(result@) == cube_complement(cubes(f@)[0]),
        result.len() == literal_count(cubes(f@)[0]),
{
    let cube = &f[0];
    let ghost c = cubes(f@)[0];
    assert(c == cube@);
    let mut result: CubeList = Vec::new();
    let num_vars = cube.len();
    let mut i: usize = 0;
    assert(cubes(result@) =~= negated_literals(c, 0));
    while i < num_vars
        invariant
            i <= num_vars,
            num_vars == c.len(),
            c == cube@,
            cubes(result@) == negated_literals(c, i as int),
        decreases num_vars - i,
    {
        let ghost done = cubes(result@);
        match cube[i] {
            TriLogic::True => {
                let mut new_cube = vec![TriLogic::DontCare; num_vars];
                assert(new_cube@ =~= free_cube(num_vars as nat));
                new_cube[i] = TriLogic::False;
                result.push(new_cube);
                assert(cubes(result@) =~= done.push(new_cube@));
            },
            TriLogic::False => {
                let mut new_cube = vec![TriLogic::DontCare; num_vars];
                assert(new_cube@ =~= free_cube(num_vars as nat));
                new_cube[i] = TriLogic::True;
                result.push(new_cube);
                assert(cubes(result@) =~= done.push(new_cube@));
            },
            TriLogic::DontCare => {},
        }
        i = i + 1;
    }
    proof {
        lemma_negated_literals_len(c, c.len() as int);
        assert(c.subrange(0, c.len() as int) =~= c);
    }
    result
}

/// The complement of a Boolean function over `num_vars` variables.
///
/// The result is the cube list that [`complement`] describes. It is 1
/// under exactly the assignments under which `f` is 0, and each of its
/// cubes has `num_vars` entries.
#[allow(non_snake_case)]
pub fn Complement(num_vars: usize, f: &CubeList) -> (result: CubeList)
    requires
        well_formed(cubes(f@), num_vars as nat),
    ensures
        cubes(result@) == complement(num_vars as nat, cubes(f@)),
        well_formed(cubes(result@), num_vars as nat),
        forall|a: Seq<bool>|
            a.len() == num_vars ==> (#[trigger] holds(cubes(result@), a) <==> !holds(cubes(f@), a)),
        f.len() == 0 ==> result.len() == 1 && result[0]@ == free_cube(num_vars as nat),
        has_free_cube(cubes(f@)) ==> result.len() == 0,
    decreases literal_total(cubes(f@)),
{
    let ghost all = cubes(f@);
    let ghost n = num_vars as nat;
    proof {
        lemma_complement_shape(n, all);
        assert forall|a: Seq<bool>| a.len() == num_vars implies (#[trigger] holds(
            complement(n, all),
            a,
        ) <==> !holds(all, a)) by {
            lemma_complement_holds(n, all, a);
        }
    }
    if f.len() == 0 {
        let mut clist: CubeList = Vec::new();
        let free = vec![TriLogic::DontCare; num_vars];
        assert(free@ =~= free_cube(n));
        clist.push(free);
        assert(cubes(clist@) =~= seq![free_cube(n)]);
        clist
    } else if cubelist_contains_all_dont_cares_cube(f) {
        let clist: CubeList = Vec::new();
        assert(cubes(clist@) =~= Seq::<Seq<TriLogic>>::empty());
        clist
    } else if f.len() == 1 {
        direct_complement(f)
    } else {
        proof {
            lemma_split_occurs(n, all);
            assert(all[0] == f[0]@);
        }
        let x = most_binate_variable(f);
        proof {
            lemma_cofactor_literal_total(all, x as int, true);
            lemma_cofactor_literal_total(all, x as int, false);
            lemma_cofactor_shape(all, n, x as int, true);
            lemma_cofactor_shape(all, n, x as int, false);
        }
        let positive = positiveCofactor(f, x);
        let negative = negativeCofactor(f, x);
        let p = Complement(num_vars, &positive);
        let q = Complement(num_vars, &negative);
        let p = put_literal(&p, x, true);
        let q = put_literal(&q, x, false);
        OR(&p, &q)
    }
}

/// The complement of a cube list that may be ill-formed.
///
/// A list in which some cube has not `num_vars` entries is refused as a
/// violated invariant. Any other list is complemented as [`Complement`]
/// does.
pub fn try_complement(num_vars: usize, f: &CubeList) -> (outcome: Result<CubeList, CubeError>)
    ensures
        match outcome {
            Ok(result) => {
                &&& well_formed(cubes(f@), num_vars as nat)
                &&& cubes(result@) == complement(num_vars as nat, cubes(f@))
                &&& well_formed(cubes(result@), num_vars as nat)
                &&& forall|a: Seq<bool>|
                    a.len() == num_vars ==> (#[trigger] holds(cubes(result@), a) <==> !holds(
                        cubes(f@),
                        a,
                    ))
            },
            Err(reason) => reason == CubeError::InvariantViolation && !well_formed(
                cubes(f@),
                num_vars as nat,
            ),
        },
{
    if every_cube_has_length(f, num_vars) {
        Ok(Complement(num_vars, f))
    } else {
        Err(CubeError::InvariantViolation)
    }
}

} // verus!
