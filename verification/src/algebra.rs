//! Conjunction of a cube list with one literal, and disjunction of two
//! cube lists.

use crate::cofactor::{every_cube_has, variable_in_range};
use crate::error::CubeError;
use crate::logic::{
    cube_holds, cubes, holds, lacks_variable, literal_admits, well_formed, CubeList, TriLogic,
};
use vstd::prelude::*;

verus! {

/// The variable that a signed reference names: references count from 1,
/// and the sign tells the polarity.
pub open spec fn literal_index(x: int) -> int {
    if x > 0 {
        x - 1
    } else {
        -x - 1
    }
}

/// The literal of a variable that is 1 when the variable has value `phase`.
pub open spec fn literal_of(phase: bool) -> TriLogic {
    if phase {
        TriLogic::True
    } else {
        TriLogic::False
    }
}

/// Every cube of `f`, with the literal of polarity `phase` put at variable `x`.
pub open spec fn with_literal(f: Seq<Seq<TriLogic>>, x: int, phase: bool) -> Seq<Seq<TriLogic>> {
    Seq::new(f.len(), |k: int| f[k].update(x, literal_of(phase)))
}

/// Where no cube of a list constrains `x`, the list with a literal of `x`
/// put into every cube is the conjunction of the list and that literal.
pub proof fn lemma_with_literal_holds(
    f: Seq<Seq<TriLogic>>,
    n: nat,
    x: int,
    phase: bool,
    a: Seq<bool>,
)
    requires
        well_formed(f, n),
        lacks_variable(f, x),
        0 <= x < n,
        a.len() == n,
    ensures
        holds(with_literal(f, x, phase), a) <==> (a[x] == phase && holds(f, a)),
{
    let g = with_literal(f, x, phase);
    if holds(g, a) {
        let k = choose|k: int| 0 <= k < g.len() && cube_holds(#[trigger] g[k], a);
        assert(g[k] == f[k].update(x, literal_of(phase)));
        assert(literal_admits(g[k][x], a[x]));
        assert forall|i: int| 0 <= i < f[k].len() implies literal_admits(
            #[trigger] f[k][i],
            a[i],
        ) by {
            if i != x {
                assert(literal_admits(g[k][i], a[i]));
            }
        }
        assert(cube_holds(f[k], a));
    }
    if a[x] == phase && holds(f, a) {
        let k = choose|k: int| 0 <= k < f.len() && cube_holds(#[trigger] f[k], a);
        assert forall|i: int| 0 <= i < g[k].len() implies literal_admits(
            #[trigger] g[k][i],
            a[i],
        ) by {
            if i != x {
                assert(literal_admits(f[k][i], a[i]));
            }
        }
        assert(cube_holds(g[k], a));
    }
}

/// Putting a literal into every cube keeps the shape of the list and
/// touches no other variable.
pub proof fn lemma_with_literal_shape(f: Seq<Seq<TriLogic>>, n: nat, x: int, phase: bool)
    requires
        well_formed(f, n),
        0 <= x < n,
    ensures
        well_formed(with_literal(f, x, phase), n),
        with_literal(f, x, phase).len() == f.len(),
        forall|y: int|
            0 <= y < n && y != x && #[trigger] lacks_variable(f, y) ==> lacks_variable(
                with_literal(f, x, phase),
                y,
            ),
{
    let g = with_literal(f, x, phase);
    assert forall|y: int| 0 <= y < n && y != x && #[trigger] lacks_variable(f, y) implies lacks_variable(
        g,
        y,
    ) by {
        assert forall|k: int| 0 <= k < g.len() implies (#[trigger] g[k])[y]
            == TriLogic::DontCare by {
            assert(f[k][y] == TriLogic::DontCare);
        }
    }
}

/// Two lists, one behind the other, are 1 where either of them is.
pub proof fn lemma_holds_concat(p: Seq<Seq<TriLogic>>, q: Seq<Seq<TriLogic>>, a: Seq<bool>)
    ensures
        holds(p + q, a) <==> holds(p, a) || holds(q, a),
{
    let g = p + q;
    if holds(g, a) {
        let k = choose|k: int| 0 <= k < g.len() && cube_holds(#[trigger] g[k], a);
        if k < p.len() {
            assert(cube_holds(p[k], a));
        } else {
            assert(cube_holds(q[k - p.len()], a));
        }
    }
    if holds(p, a) {
        let k = choose|k: int| 0 <= k < p.len() && cube_holds(#[trigger] p[k], a);
        assert(cube_holds(g[k], a));
    }
    if holds(q, a) {
        let k = choose|k: int| 0 <= k < q.len() && cube_holds(#[trigger] q[k], a);
        assert(cube_holds(g[k + p.len()], a));
    }
}

/// Puts the literal of polarity `phase` at variable `ind` of every cube.
pub fn put_literal(f: &CubeList, ind: usize, phase: bool) -> (and_list: CubeList)
    requires
        variable_in_range(cubes(f@), ind as int),
    ensures
        cubes(and_list@) == with_literal(cubes(f@), ind as int, phase),
{
    let ghost all = cubes(f@);
    let ghost goal = with_literal(all, ind as int, phase);
    let mut and_list: CubeList = Vec::new();
    let mut k: usize = 0;
    while k < f.len()
        invariant
            k <= f.len(),
            all == cubes(f@),
            variable_in_range(all, ind as int),
            goal == with_literal(all, ind as int, phase),
            cubes(and_list@) =~= goal.subrange(0, k as int),
        decreases f.len() - k,
    {
        let ghost done = cubes(and_list@);
        assert(f[k as int]@ == all[k as int]);
        let mut cube = f[k].clone();
        assert(cube@ =~= f[k as int]@);
        cube[ind] = if phase {
            TriLogic::True
        } else {
            TriLogic::False
        };
        and_list.push(cube);
        assert(cubes(and_list@) =~= done.push(cube@));
        k = k + 1;
    }
    assert(goal.subrange(0, k as int) =~= goal);
    and_list
}

/// The conjunction of a cube list with one literal.
///
/// `x` names a variable counting from 1: a positive `x` stands for the
/// positive literal of variable `x - 1`, a negative `x` for the negated
/// literal of variable `-x - 1`. No cube of the list may constrain that
/// variable yet; each cube of the result holds the literal there and is
/// otherwise as it was.
#[allow(non_snake_case)]
pub fn AND(x: isize, f: &CubeList) -> (and_list: CubeList)
    requires
        x != 0,
        variable_in_range(cubes(f@), literal_index(x as int)),
        lacks_variable(cubes(f@), literal_index(x as int)),
    ensures
        cubes(and_list@) == with_literal(cubes(f@), literal_index(x as int), x > 0),
{
    let ind: usize = if x > 0 {
        (x - 1) as usize
    } else {
        (-(x + 1)) as usize
    };
    put_literal(f, ind, x > 0)
}

/// Whether no cube of the list constrains variable `ind`.
pub fn every_cube_frees(f: &CubeList, ind: usize) -> (all_free: bool)
    requires
        variable_in_range(cubes(f@), ind as int),
    ensures
        all_free == lacks_variable(cubes(f@), ind as int),
{
    let mut k: usize = 0;
    while k < f.len()
        invariant
            k <= f.len(),
            variable_in_range(cubes(f@), ind as int),
            forall|j: int| 0 <= j < k ==> (#[trigger] cubes(f@)[j])[ind as int] == TriLogic::DontCare,
        decreases f.len() - k,
    {
        assert(cubes(f@)[k as int] == f[k as int]@);
        if f[k][ind] != TriLogic::DontCare {
            return false;
        }
        k = k + 1;
    }
    true
}

/// The conjunction of a cube list with one literal, for a caller that has
/// not established what [`AND`] requires.
///
/// A reference that names no variable of some cube is refused as out of
/// range. A list in which some cube already constrains the variable is
/// refused as a violated invariant: a literal is never overwritten.
pub fn and_literal(x: isize, f: &CubeList) -> (outcome: Result<CubeList, CubeError>)
    ensures
        match outcome {
            Ok(and_list) => {
                &&& x != 0
                &&& variable_in_range(cubes(f@), literal_index(x as int))
                &&& lacks_variable(cubes(f@), literal_index(x as int))
                &&& cubes(and_list@) == with_literal(cubes(f@), literal_index(x as int), x > 0)
            },
            Err(CubeError::IndexOutOfRange) => x == 0 || !variable_in_range(
                cubes(f@),
                literal_index(x as int),
            ),
            Err(CubeError::InvariantViolation) => {
                &&& x != 0
                &&& variable_in_range(cubes(f@), literal_index(x as int))
                &&& !lacks_variable(cubes(f@), literal_index(x as int))
            },
            Err(CubeError::MalformedInput) => false,
        },
{
    if x == 0 {
        return Err(CubeError::IndexOutOfRange);
    }
    let ind: usize = if x > 0 {
        (x - 1) as usize
    } else {
        (-(x + 1)) as usize
    };
    if !every_cube_has(f, ind) {
        return Err(CubeError::IndexOutOfRange);
    }
    if !every_cube_frees(f, ind) {
        return Err(CubeError::InvariantViolation);
    }
    Ok(AND(x, f))
}

/// Puts copies of the cubes of `source` behind those of `target`.
pub fn append_cubes(target: &mut CubeList, source: &CubeList)
    ensures
        cubes(final(target)@) == cubes(old(target)@) + cubes(source@),
{
    let ghost start = cubes(target@);
    let ghost all = cubes(source@);
    let mut k: usize = 0;
    assert(cubes(target@) =~= start + all.subrange(0, 0));
    while k < source.len()
        invariant
            k <= source.len(),
            all == cubes(source@),
            cubes(target@) == start + all.subrange(0, k as int),
        decreases source.len() - k,
    {
        let ghost done = cubes(target@);
        let cube = source[k].clone();
        assert(cube@ =~= source[k as int]@);
        target.push(cube);
        assert(cubes(target@) =~= done.push(cube@));
        assert(done.push(cube@) =~= start + all.subrange(0, k + 1));
        k = k + 1;
    }
    assert(all.subrange(0, k as int) =~= all);
}

/// The disjunction of two cube lists: the cubes of the first followed by
/// those of the second, none merged and none removed.
#[allow(non_snake_case)]
pub fn OR(p: &CubeList, n: &CubeList) -> (or_list: CubeList)
    ensures
        cubes(or_list@) == cubes(p@) + cubes(n@),
{
    let mut or_list: CubeList = Vec::new();
    assert(cubes(or_list@) =~= Seq::<Seq<TriLogic>>::empty());
    append_cubes(&mut or_list, p);
    append_cubes(&mut or_list, n);
    assert(Seq::<Seq<TriLogic>>::empty() + cubes(p@) =~= cubes(p@));
    or_list
}

} // verus!
