//! Shannon cofactors of a cube list with respect to one variable.
//!
//! The positive cofactor is the function obtained by fixing the variable
//! to 1, the negative cofactor by fixing it to 0. On cube lists this drops
//! the cubes that hold the opposite literal and frees the variable in the
//! others.

use crate::binate::{negative_count, occurrences, positive_count};
use crate::counting::literal_count;
use crate::error::CubeError;
use crate::logic::{
    cube_holds, cubes, holds, lacks_variable, literal_admits, well_formed, CubeList, TriLogic,
};
use vstd::prelude::*;

verus! {

/// The cofactor of `f` for variable `x` fixed to `phase`: the cubes of `f`
/// whose literal of `x` admits that value, in their order, each with `x`
/// left unconstrained.
pub open spec fn cofactor(f: Seq<Seq<TriLogic>>, x: int, phase: bool) -> Seq<Seq<TriLogic>>
    decreases f.len(),
{
    if f.len() == 0 {
        Seq::empty()
    } else if literal_admits(f.last()[x], phase) {
        cofactor(f.drop_last(), x, phase).push(f.last().update(x, TriLogic::DontCare))
    } else {
        cofactor(f.drop_last(), x, phase)
    }
}

/// The cofactor of `f` for variable `x` fixed to 1.
pub open spec fn positive_cofactor(f: Seq<Seq<TriLogic>>, x: int) -> Seq<Seq<TriLogic>> {
    cofactor(f, x, true)
}

/// The cofactor of `f` for variable `x` fixed to 0.
pub open spec fn negative_cofactor(f: Seq<Seq<TriLogic>>, x: int) -> Seq<Seq<TriLogic>> {
    cofactor(f, x, false)
}

/// Variable `x` is an index into every cube of `f`.
pub open spec fn variable_in_range(f: Seq<Seq<TriLogic>>, x: int) -> bool {
    forall|k: int| 0 <= k < f.len() ==> 0 <= x < (#[trigger] f[k]).len()
}

/// The sum, over the cubes of `f`, of the number of their literals.
pub open spec fn literal_total(f: Seq<Seq<TriLogic>>) -> nat
    decreases f.len(),
{
    if f.len() == 0 {
        0
    } else {
        literal_total(f.drop_last()) + literal_count(f.last())
    }
}

/// A list with one more cube is 1 where the shorter list or the new cube is.
pub proof fn lemma_holds_push(f: Seq<Seq<TriLogic>>, c: Seq<TriLogic>, a: Seq<bool>)
    ensures
        holds(f.push(c), a) <==> holds(f, a) || cube_holds(c, a),
{
    let g = f.push(c);
    if holds(g, a) {
        let k = choose|k: int| 0 <= k < g.len() && cube_holds(#[trigger] g[k], a);
        if k < f.len() {
            assert(cube_holds(f[k], a));
        }
    }
    if holds(f, a) {
        let k = choose|k: int| 0 <= k < f.len() && cube_holds(#[trigger] f[k], a);
        assert(cube_holds(g[k], a));
    }
    if cube_holds(c, a) {
        assert(cube_holds(g[f.len() as int], a));
    }
}

/// A cofactor keeps the shape of the list, no cube of it constrains the
/// variable that was fixed, and a variable that the list leaves free
/// everywhere stays free.
pub proof fn lemma_cofactor_shape(f: Seq<Seq<TriLogic>>, n: nat, x: int, phase: bool)
    requires
        well_formed(f, n),
        0 <= x < n,
    ensures
        well_formed(cofactor(f, x, phase), n),
        lacks_variable(cofactor(f, x, phase), x),
        cofactor(f, x, phase).len() <= f.len(),
        forall|y: int|
            0 <= y < n && #[trigger] lacks_variable(f, y) ==> lacks_variable(
                cofactor(f, x, phase),
                y,
            ),
    decreases f.len(),
{
    if f.len() > 0 {
        let d = f.drop_last();
        assert forall|k: int| 0 <= k < d.len() implies (#[trigger] d[k]).len() == n by {
            assert(d[k] == f[k]);
        }
        lemma_cofactor_shape(d, n, x, phase);
        let g = cofactor(f, x, phase);
        assert(f.last() == f[f.len() - 1]);
        assert forall|y: int| 0 <= y < n && #[trigger] lacks_variable(f, y) implies lacks_variable(
            g,
            y,
        ) by {
            assert forall|k: int| 0 <= k < d.len() implies (#[trigger] d[k])[y]
                == TriLogic::DontCare by {
                assert(d[k] == f[k]);
            }
            assert(lacks_variable(d, y));
            assert(lacks_variable(cofactor(d, x, phase), y));
            assert(f[f.len() - 1][y] == TriLogic::DontCare);
        }
    }
}

/// The cofactor is 1 under an assignment exactly when the list is 1 under
/// the same assignment with the variable set to the value it was fixed to.
pub proof fn lemma_cofactor_holds(
    f: Seq<Seq<TriLogic>>,
    n: nat,
    x: int,
    phase: bool,
    a: Seq<bool>,
)
    requires
        well_formed(f, n),
        0 <= x < n,
        a.len() == n,
    ensures
        holds(cofactor(f, x, phase), a) <==> holds(f, a.update(x, phase)),
    decreases f.len(),
{
    let b = a.update(x, phase);
    if f.len() == 0 {
        assert(!holds(f, b));
        assert(!holds(cofactor(f, x, phase), a));
    } else {
        let d = f.drop_last();
        let c = f.last();
        assert(c == f[f.len() - 1]);
        assert forall|k: int| 0 <= k < d.len() implies (#[trigger] d[k]).len() == n by {
            assert(d[k] == f[k]);
        }
        lemma_cofactor_holds(d, n, x, phase, a);
        assert(f =~= d.push(c));
        lemma_holds_push(d, c, b);
        let freed = c.update(x, TriLogic::DontCare);
        if literal_admits(c[x], phase) {
            lemma_holds_push(cofactor(d, x, phase), freed, a);
            if cube_holds(freed, a) {
                assert forall|i: int| 0 <= i < c.len() implies literal_admits(
                    #[trigger] c[i],
                    b[i],
                ) by {
                    if i != x {
                        assert(literal_admits(freed[i], a[i]));
                    }
                }
            }
            if cube_holds(c, b) {
                assert forall|i: int| 0 <= i < freed.len() implies literal_admits(
                    #[trigger] freed[i],
                    a[i],
                ) by {
                    if i != x {
                        assert(literal_admits(c[i], b[i]));
                    }
                }
            }
        } else {
            if cube_holds(c, b) {
                assert(literal_admits(c[x], b[x]));
            }
        }
    }
}

/// Freeing a variable of a cube removes its literal, if it had one, and
/// nothing else.
pub proof fn lemma_freed_literal_count(c: Seq<TriLogic>, x: int)
    requires
        0 <= x < c.len(),
    ensures
        literal_count(c.update(x, TriLogic::DontCare)) + (if c[x] != TriLogic::DontCare {
            1nat
        } else {
            0nat
        }) == literal_count(c),
    decreases c.len(),
{
    let freed = c.update(x, TriLogic::DontCare);
    if x == c.len() - 1 {
        assert(freed.drop_last() =~= c.drop_last());
    } else {
        lemma_freed_literal_count(c.drop_last(), x);
        assert(freed.drop_last() =~= c.drop_last().update(x, TriLogic::DontCare));
    }
}

/// A cofactor has fewer literals than the list, by at least the number of
/// cubes that constrain the variable.
pub proof fn lemma_cofactor_literal_total(f: Seq<Seq<TriLogic>>, x: int, phase: bool)
    requires
        variable_in_range(f, x),
    ensures
        literal_total(cofactor(f, x, phase)) + occurrences(f, x) <= literal_total(f),
    decreases f.len(),
{
    if f.len() > 0 {
        let d = f.drop_last();
        let c = f.last();
        assert(c == f[f.len() - 1]);
        assert forall|k: int| 0 <= k < d.len() implies 0 <= x < (#[trigger] d[k]).len() by {
            assert(d[k] == f[k]);
        }
        lemma_cofactor_literal_total(d, x, phase);
        lemma_freed_literal_count(c, x);
        if literal_admits(c[x], phase) {
            let freed = c.update(x, TriLogic::DontCare);
            let g = cofactor(d, x, phase).push(freed);
            assert(g.drop_last() =~= cofactor(d, x, phase));
            assert(g.last() == freed);
        }
    }
}

/// The number of cubes that a cofactor keeps: all but those that hold the
/// opposite literal.
pub proof fn lemma_cofactor_len(f: Seq<Seq<TriLogic>>, x: int)
    ensures
        positive_cofactor(f, x).len() + negative_count(f, x) == f.len(),
        negative_cofactor(f, x).len() + positive_count(f, x) == f.len(),
    decreases f.len(),
{
    if f.len() > 0 {
        lemma_cofactor_len(f.drop_last(), x);
    }
}

/// The cofactor of the first `k` cubes is the beginning of the cofactor of
/// the whole list.
pub proof fn lemma_cofactor_prefix(f: Seq<Seq<TriLogic>>, x: int, phase: bool, k: int)
    requires
        0 <= k <= f.len(),
    ensures
        cofactor(f.subrange(0, k), x, phase).len() <= cofactor(f, x, phase).len(),
        cofactor(f.subrange(0, k), x, phase) == cofactor(f, x, phase).subrange(
            0,
            cofactor(f.subrange(0, k), x, phase).len() as int,
        ),
    decreases f.len() - k,
{
    let whole = cofactor(f, x, phase);
    if k == f.len() {
        assert(f.subrange(0, k) =~= f);
        assert(whole.subrange(0, whole.len() as int) =~= whole);
    } else {
        let d = f.drop_last();
        lemma_cofactor_prefix(d, x, phase, k);
        assert(d.subrange(0, k) =~= f.subrange(0, k));
        let part = cofactor(f.subrange(0, k), x, phase);
        let shorter = cofactor(d, x, phase);
        assert(part =~= whole.subrange(0, part.len() as int));
    }
}

/// Every cube of a list is accounted for in each cofactor: a cube whose
/// literal of `x` admits the value is found in the cofactor, with `x`
/// freed, behind the kept cubes that came before it; any other cube is
/// dropped, and adds nothing.
pub proof fn lemma_cofactor_accounts(f: Seq<Seq<TriLogic>>, x: int, phase: bool, k: int)
    requires
        0 <= k < f.len(),
    ensures
        ({
            let at = cofactor(f.subrange(0, k), x, phase).len() as int;
            let through = cofactor(f.subrange(0, k + 1), x, phase).len() as int;
            &&& at <= through <= cofactor(f, x, phase).len()
            &&& literal_admits(f[k][x], phase) ==> through == at + 1 && cofactor(f, x, phase)[at]
                == f[k].update(x, TriLogic::DontCare)
            &&& !literal_admits(f[k][x], phase) ==> through == at
        }),
{
    let upto = f.subrange(0, k + 1);
    assert(upto.drop_last() =~= f.subrange(0, k));
    assert(upto.last() == f[k]);
    lemma_cofactor_prefix(f, x, phase, k + 1);
    let part = cofactor(upto, x, phase);
    let at = cofactor(f.subrange(0, k), x, phase).len() as int;
    if literal_admits(f[k][x], phase) {
        assert(part[at] == f[k].update(x, TriLogic::DontCare));
        assert(part[at] == cofactor(f, x, phase).subrange(0, part.len() as int)[at]);
    }
}

/// A cube that constrains `x` is kept by exactly one of the two cofactors;
/// a cube that leaves `x` free is kept, unchanged, by both.
pub proof fn lemma_cofactor_partition(c: Seq<TriLogic>, x: int)
    requires
        0 <= x < c.len(),
    ensures
        c[x] != TriLogic::DontCare ==> (literal_admits(c[x], true) != literal_admits(c[x], false)),
        c[x] == TriLogic::DontCare ==> literal_admits(c[x], true) && literal_admits(c[x], false)
            && c.update(x, TriLogic::DontCare) == c,
{
    if c[x] == TriLogic::DontCare {
        assert(c.update(x, TriLogic::DontCare) =~= c);
    }
}

/// The cofactor of a cube list for `x` fixed to `phase`.
fn cofactor_of(f: &CubeList, x: usize, phase: bool) -> (cofactor_list: CubeList)
    requires
        variable_in_range(cubes(f@), x as int),
    ensures
        cubes(cofactor_list@) == cofactor(cubes(f@), x as int, phase),
{
    let ghost all = cubes(f@);
    let mut cofactor_list: CubeList = Vec::new();
    let mut k: usize = 0;
    assert(cubes(cofactor_list@) =~= cofactor(all.subrange(0, 0), x as int, phase));
    while k < f.len()
        invariant
            k <= f.len(),
            all == cubes(f@),
            variable_in_range(all, x as int),
            cubes(cofactor_list@) == cofactor(all.subrange(0, k as int), x as int, phase),
        decreases f.len() - k,
    {
        let ghost kept = cubes(cofactor_list@);
        assert(all.subrange(0, k + 1).drop_last() =~= all.subrange(0, k as int));
        assert(all.subrange(0, k + 1).last() == all[k as int]);
        assert(f[k as int]@ == all[k as int]);
        let mut cube = f[k].clone();
        assert(cube@ =~= f[k as int]@);
        let term_val: TriLogic = cube[x];
        let dropped = match term_val {
            TriLogic::True => !phase,
            TriLogic::False => phase,
            TriLogic::DontCare => false,
        };
        if !dropped {
            cube[x] = TriLogic::DontCare;
            cofactor_list.push(cube);
            assert(cubes(cofactor_list@) =~= kept.push(cube@));
        }
        k = k + 1;
    }
    assert(all.subrange(0, k as int) =~= all);
    cofactor_list
}

/// The positive cofactor of a cube list: a cube with the positive literal
/// of `x` is kept with `x` freed, a cube without `x` is kept as it is, and a
/// cube with the negated literal is dropped.
#[allow(non_snake_case)]
pub fn positiveCofactor(f: &CubeList, x: usize) -> (cofactor_list: CubeList)
    requires
        variable_in_range(cubes(f@), x as int),
    ensures
        cubes(cofactor_list@) == positive_cofactor(cubes(f@), x as int),
{
    cofactor_of(f, x, true)
}

/// The negative cofactor of a cube list: a cube with the negated literal
/// of `x` is kept with `x` freed, a cube without `x` is kept as it is, and a
/// cube with the positive literal is dropped.
#[allow(non_snake_case)]
pub fn negativeCofactor(f: &CubeList, x: usize) -> (cofactor_list: CubeList)
    requires
        variable_in_range(cubes(f@), x as int),
    ensures
        cubes(cofactor_list@) == negative_cofactor(cubes(f@), x as int),
{
    cofactor_of(f, x, false)
}

/// Whether `x` is an index into every cube of the list.
pub fn every_cube_has(f: &CubeList, x: usize) -> (all_have: bool)
    ensures
        all_have == variable_in_range(cubes(f@), x as int),
{
    let mut k: usize = 0;
    while k < f.len()
        invariant
            k <= f.len(),
            forall|j: int| 0 <= j < k ==> x < (#[trigger] cubes(f@)[j]).len(),
        decreases f.len() - k,
    {
        if x >= f[k].len() {
            assert(cubes(f@)[k as int].len() <= x);
            return false;
        }
        k = k + 1;
    }
    true
}

/// The cofactor of a cube list for `x` fixed to `phase`, for a caller that
/// has not established that every cube has the variable: where one has
/// not, the variable is refused as out of range.
pub fn try_cofactor(f: &CubeList, x: usize, phase: bool) -> (outcome: Result<CubeList, CubeError>)
    ensures
        match outcome {
            Ok(cofactor_list) => variable_in_range(cubes(f@), x as int) && cubes(cofactor_list@)
                == cofactor(cubes(f@), x as int, phase),
            Err(reason) => reason == CubeError::IndexOutOfRange && !variable_in_range(
                cubes(f@),
                x as int,
            ),
        },
{
    if every_cube_has(f, x) {
        Ok(cofactor_of(f, x, phase))
    } else {
        Err(CubeError::IndexOutOfRange)
    }
}

} // verus!
