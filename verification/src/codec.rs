//! Cube lists as text.
//!
//! The text of a problem has one line for the number of variables, one for
//! the number of cubes, and one line for each cube: the number of its
//! literals, then each literal as a signed variable number that counts
//! from 1, negative where the literal is negated. Every line ends with a
//! line feed.

use crate::algebra::{literal_index, literal_of};
use crate::counting::{count_all_not_dont_cares, literal_count};
use crate::decimal::{
    decimal, is_digit, lemma_decimal_value, lemma_token_round_trip, parse_signed, parse_unsigned,
    push_decimal, signed, signed_value, token_of, unsigned_value,
};
use crate::error::CubeError;
use crate::logic::{cubes, every_cube_has_length, free_cube, well_formed, Cube, CubeList, TriLogic};
use crate::text::{is_separator, joined, lemma_split_joined, rows, split, split_bytes, unbroken};
use vstd::prelude::*;

verus! {

/// The literals among the first `upto` entries of a cube, in the order of
/// the variables: each as the number of its variable, counted from 1, and
/// negative where the literal is negated.
pub open spec fn signed_literals(c: Seq<TriLogic>, upto: int) -> Seq<int>
    decreases upto,
{
    if upto <= 0 {
        Seq::empty()
    } else {
        match c[upto - 1] {
            TriLogic::True => signed_literals(c, upto - 1).push(upto),
            TriLogic::False => signed_literals(c, upto - 1).push(-upto),
            TriLogic::DontCare => signed_literals(c, upto - 1),
        }
    }
}

/// The literals of a cube as signed variable numbers.
pub open spec fn cube_literals(c: Seq<TriLogic>) -> Seq<int> {
    signed_literals(c, c.len() as int)
}

/// The cube of `n` variables that holds the given literals. Of two
/// literals of one variable the later stands.
pub open spec fn cube_of_literals(n: nat, literals: Seq<int>) -> Seq<TriLogic>
    decreases literals.len(),
{
    if literals.len() == 0 {
        free_cube(n)
    } else {
        cube_of_literals(n, literals.drop_last()).update(
            literal_index(literals.last()),
            literal_of(literals.last() > 0),
        )
    }
}

/// Each literal names one of the `n` variables.
pub open spec fn literals_in_range(n: nat, literals: Seq<int>) -> bool {
    forall|j: int|
        0 <= j < literals.len() ==> (#[trigger] literals[j]) != 0 && -(n as int) <= literals[j]
            <= n
}

/// The tokens written for a sequence of integers.
pub open spec fn literal_tokens(literals: Seq<int>) -> Seq<Seq<u8>> {
    Seq::new(literals.len(), |j: int| token_of(literals[j]))
}

/// The tokens of the line written for a sequence of literals: their
/// number, then each of them.
pub open spec fn line_tokens(literals: Seq<int>) -> Seq<Seq<u8>> {
    seq![decimal(literals.len())] + literal_tokens(literals)
}

/// The line written for a sequence of literals, without its line feed.
pub open spec fn line_text(literals: Seq<int>) -> Seq<u8> {
    joined(line_tokens(literals), 32)
}

/// The lines of the text written for a cube list over `n` variables.
pub open spec fn problem_lines(n: nat, f: Seq<Seq<TriLogic>>) -> Seq<Seq<u8>> {
    seq![decimal(n), decimal(f.len())] + Seq::new(
        f.len(),
        |k: int| line_text(cube_literals(f[k])),
    )
}

/// The text written for a cube list over `n` variables.
pub open spec fn problem_text(n: nat, f: Seq<Seq<TriLogic>>) -> Seq<u8> {
    joined(problem_lines(n, f), 10).push(10)
}

/// The count with which a line begins.
pub open spec fn line_count(line: Seq<u8>) -> Option<nat> {
    unsigned_value(split(line, false)[0])
}

/// The literals that a cube line gives: its first token is their number,
/// and as many tokens behind it are read as integers. What follows them on
/// the line is not looked at.
pub open spec fn line_literals(line: Seq<u8>) -> Option<Seq<int>> {
    let tokens = split(line, false);
    match unsigned_value(tokens[0]) {
        None => None,
        Some(k) => if k < tokens.len() && (forall|j: int|
            1 <= j <= k ==> signed_value(#[trigger] tokens[j]).is_some()) {
            Some(Seq::new(k, |j: int| signed_value(tokens[j + 1]).unwrap()))
        } else {
            None
        },
    }
}

/// The cube that a line describes, or why the line is refused: as
/// malformed where a token is missing or is no integer; as out of range
/// where all are integers and one of them names no variable.
pub open spec fn cube_line(n: nat, line: Seq<u8>) -> Result<Seq<TriLogic>, CubeError> {
    match line_literals(line) {
        None => Err(CubeError::MalformedInput),
        Some(literals) => if literals_in_range(n, literals) {
            Ok(cube_of_literals(n, literals))
        } else {
            Err(CubeError::IndexOutOfRange)
        },
    }
}

/// What the line of cube `k` gives; the lines of the cubes follow the two
/// lines of the counts, and a line that is not there is malformed.
pub open spec fn cube_at(n: nat, lines: Seq<Seq<u8>>, k: int) -> Result<Seq<TriLogic>, CubeError> {
    if k + 2 < lines.len() {
        cube_line(n, lines[k + 2])
    } else {
        Err(CubeError::MalformedInput)
    }
}

/// The cube that was read, where one was.
pub open spec fn cube_read(outcome: Result<Seq<TriLogic>, CubeError>) -> Seq<TriLogic> {
    match outcome {
        Ok(cube) => cube,
        Err(_) => Seq::empty(),
    }
}

/// The reason for which a line was refused, where it was.
pub open spec fn refusal(outcome: Result<Seq<TriLogic>, CubeError>) -> CubeError {
    match outcome {
        Ok(_) => CubeError::MalformedInput,
        Err(reason) => reason,
    }
}

/// How many of the first `m` cube lines are read before one is refused.
pub open spec fn good_lines(n: nat, lines: Seq<Seq<u8>>, m: nat) -> nat
    decreases m,
{
    if m == 0 {
        0
    } else {
        let before = good_lines(n, lines, (m - 1) as nat);
        if before == m - 1 && cube_at(n, lines, m - 1).is_ok() {
            m
        } else {
            before
        }
    }
}

/// What a text gives when read as a problem: the number of variables and
/// the cubes, or the reason for which the first offending line is refused.
/// Lines behind those of the declared cubes are not looked at.
pub open spec fn parse_problem(text: Seq<u8>) -> Result<(nat, Seq<Seq<TriLogic>>), CubeError> {
    let lines = split(text, true);
    if lines.len() < 2 {
        Err(CubeError::MalformedInput)
    } else {
        match (line_count(lines[0]), line_count(lines[1])) {
            (Some(n), Some(m)) => {
                let good = good_lines(n, lines, m);
                if good < m {
                    Err(refusal(cube_at(n, lines, good as int)))
                } else {
                    Ok((n, Seq::new(m, |k: int| cube_read(cube_at(n, lines, k)))))
                }
            },
            _ => Err(CubeError::MalformedInput),
        }
    }
}

/// A cube made from literals has one entry for each variable.
pub proof fn lemma_cube_of_literals_len(n: nat, literals: Seq<int>)
    requires
        literals_in_range(n, literals),
    ensures
        cube_of_literals(n, literals).len() == n,
    decreases literals.len(),
{
    if literals.len() > 0 {
        let shorter = literals.drop_last();
        assert forall|j: int| 0 <= j < shorter.len() implies (#[trigger] shorter[j]) != 0 && -(
        n as int) <= shorter[j] <= n by {
            assert(shorter[j] == literals[j]);
        }
        lemma_cube_of_literals_len(n, shorter);
        assert(literals.last() == literals[literals.len() - 1]);
    }
}

/// A problem that is read is well formed: it has as many cubes as its
/// second line declares, and each has one entry for each variable.
pub proof fn lemma_parsed_well_formed(text: Seq<u8>)
    ensures
        match parse_problem(text) {
            Ok((n, f)) => well_formed(f, n) && line_count(split(text, true)[1]) == Some(f.len()),
            Err(_) => true,
        },
{
    match parse_problem(text) {
        Ok((n, f)) => {
            let lines = split(text, true);
            let m = line_count(lines[1]).unwrap();
            lemma_good_lines_bounded(n, lines, m);
            assert forall|k: int| 0 <= k < f.len() implies (#[trigger] f[k]).len() == n by {
                assert(cube_at(n, lines, k).is_ok());
                lemma_cube_of_literals_len(n, line_literals(lines[k + 2]).unwrap());
            }
        },
        Err(_) => {},
    }
}

/// Once a cube line is refused, no later line is read.
pub proof fn lemma_good_lines_stop(n: nat, lines: Seq<Seq<u8>>, j: nat, m: nat)
    requires
        good_lines(n, lines, j) < j,
        j <= m,
    ensures
        good_lines(n, lines, m) == good_lines(n, lines, j),
    decreases m,
{
    if j < m {
        lemma_good_lines_stop(n, lines, j, (m - 1) as nat);
    }
}

/// Never more lines are read than were asked for.
pub proof fn lemma_good_lines_bounded(n: nat, lines: Seq<Seq<u8>>, m: nat)
    ensures
        good_lines(n, lines, m) <= m,
        good_lines(n, lines, m) < m ==> cube_at(n, lines, good_lines(n, lines, m) as int).is_err(),
        forall|k: int| 0 <= k < good_lines(n, lines, m) ==> cube_at(n, lines, k).is_ok(),
    decreases m,
{
    if m > 0 {
        lemma_good_lines_bounded(n, lines, (m - 1) as nat);
    }
}

/// A cube has as many signed literals as it has literals, each naming one
/// of the variables seen so far.
pub proof fn lemma_signed_literals(c: Seq<TriLogic>, upto: int)
    requires
        0 <= upto <= c.len(),
    ensures
        signed_literals(c, upto).len() == literal_count(c.subrange(0, upto)),
        signed_literals(c, upto).len() <= upto,
        literals_in_range(upto as nat, signed_literals(c, upto)),
    decreases upto,
{
    if upto > 0 {
        lemma_signed_literals(c, upto - 1);
        assert(c.subrange(0, upto).drop_last() =~= c.subrange(0, upto - 1));
        let shorter = signed_literals(c, upto - 1);
        let longer = signed_literals(c, upto);
        assert forall|j: int| 0 <= j < longer.len() implies (#[trigger] longer[j]) != 0 && -upto
            <= longer[j] <= upto by {
            if j < shorter.len() {
                assert(longer[j] == shorter[j]);
            }
        }
    }
}

/// The literals of a cube, put into a cube without literals, give its
/// first `upto` entries back.
pub proof fn lemma_cube_of_signed_literals(c: Seq<TriLogic>, upto: int)
    requires
        0 <= upto <= c.len(),
    ensures
        cube_of_literals(c.len(), signed_literals(c, upto)) == Seq::new(
            c.len(),
            |i: int|
                if i < upto {
                    c[i]
                } else {
                    TriLogic::DontCare
                },
        ),
    decreases upto,
{
    let n = c.len();
    let goal = Seq::new(
        n,
        |i: int|
            if i < upto {
                c[i]
            } else {
                TriLogic::DontCare
            },
    );
    if upto <= 0 {
        assert(cube_of_literals(n, signed_literals(c, upto)) =~= goal);
    } else {
        lemma_cube_of_signed_literals(c, upto - 1);
        let shorter = signed_literals(c, upto - 1);
        let longer = signed_literals(c, upto);
        if c[upto - 1] != TriLogic::DontCare {
            assert(longer.drop_last() =~= shorter);
        }
        assert(cube_of_literals(n, longer) =~= goal);
    }
}

/// The literals of a cube describe it.
pub proof fn lemma_cube_literals_round_trip(c: Seq<TriLogic>)
    ensures
        cube_of_literals(c.len(), cube_literals(c)) == c,
        literals_in_range(c.len(), cube_literals(c)),
        cube_literals(c).len() == literal_count(c),
        cube_literals(c).len() <= c.len(),
{
    lemma_cube_of_signed_literals(c, c.len() as int);
    lemma_signed_literals(c, c.len() as int);
    assert(c.subrange(0, c.len() as int) =~= c);
    assert(cube_of_literals(c.len(), cube_literals(c)) =~= c);
}

/// A token written for an integer holds no blank and no line feed.
pub proof fn lemma_token_unbroken(v: int, lines: bool)
    ensures
        unbroken(token_of(v), lines),
{
    let t = token_of(v);
    if v < 0 {
        lemma_decimal_value((-v) as nat);
        let d = decimal((-v) as nat);
        assert forall|i: int| 0 <= i < t.len() implies !is_separator(#[trigger] t[i], lines) by {
            if i > 0 {
                assert(is_digit(d[i - 1]));
            }
        }
    } else {
        lemma_decimal_value(v as nat);
        assert forall|i: int| 0 <= i < t.len() implies !is_separator(#[trigger] t[i], lines) by {
            assert(is_digit(t[i]));
        }
    }
}

/// Parts without a line feed, joined by spaces, hold no line feed.
pub proof fn lemma_joined_one_line(parts: Seq<Seq<u8>>)
    requires
        forall|k: int| 0 <= k < parts.len() ==> unbroken(#[trigger] parts[k], true),
    ensures
        unbroken(joined(parts, 32), true),
    decreases parts.len(),
{
    if parts.len() >= 2 {
        let d = parts.drop_last();
        assert forall|k: int| 0 <= k < d.len() implies unbroken(#[trigger] d[k], true) by {
            assert(d[k] == parts[k]);
        }
        lemma_joined_one_line(d);
        let text = joined(parts, 32);
        let head = joined(d, 32);
        let tail = parts.last();
        assert(unbroken(parts[parts.len() - 1], true));
        assert forall|i: int| 0 <= i < text.len() implies !is_separator(#[trigger] text[i], true) by {
            if i < head.len() {
                assert(text[i] == head[i]);
            } else if i > head.len() {
                assert(text[i] == tail[i - head.len() - 1]);
            }
        }
    } else if parts.len() == 1 {
        assert(unbroken(parts[0], true));
    }
}

/// The line written for literals of machine size is one line, and is read
/// back as these literals.
pub proof fn lemma_line_round_trip(literals: Seq<int>)
    requires
        literals.len() <= usize::MAX,
        forall|j: int|
            0 <= j < literals.len() ==> -(usize::MAX as int) <= (#[trigger] literals[j])
                <= usize::MAX,
    ensures
        unbroken(line_text(literals), true),
        split(line_text(literals), false) == line_tokens(literals),
        line_literals(line_text(literals)) == Some(literals),
{
    let tokens = line_tokens(literals);
    let k = literals.len();
    assert(tokens[0] == decimal(k));
    assert(decimal(k) == token_of(k as int));
    assert forall|j: int| 0 <= j < tokens.len() implies unbroken(#[trigger] tokens[j], false)
        && unbroken(tokens[j], true) by {
        if j == 0 {
            lemma_token_unbroken(k as int, false);
            lemma_token_unbroken(k as int, true);
        } else {
            assert(tokens[j] == token_of(literals[j - 1]));
            lemma_token_unbroken(literals[j - 1], false);
            lemma_token_unbroken(literals[j - 1], true);
        }
    }
    lemma_joined_one_line(tokens);
    lemma_split_joined(tokens, 32, false);
    lemma_token_round_trip(k as int);
    assert forall|j: int| 1 <= j <= k implies signed_value(#[trigger] tokens[j]) == Some(
        literals[j - 1],
    ) by {
        assert(tokens[j] == token_of(literals[j - 1]));
        lemma_token_round_trip(literals[j - 1]);
    }
    let read = Seq::new(k, |j: int| signed_value(tokens[j + 1]).unwrap());
    assert(read =~= literals);
}

/// Reading the text written for a cube list gives the number of variables
/// and the list back: the same cubes in the same order, none lost and none
/// added.
pub proof fn lemma_codec_round_trip(n: nat, f: Seq<Seq<TriLogic>>)
    requires
        well_formed(f, n),
        n <= usize::MAX,
        f.len() <= usize::MAX,
    ensures
        parse_problem(problem_text(n, f)) == Ok::<(nat, Seq<Seq<TriLogic>>), CubeError>((n, f)),
{
    let lines = problem_lines(n, f);
    let m = f.len();
    assert(lines[0] == decimal(n));
    assert(lines[1] == decimal(m));
    assert(decimal(n) == token_of(n as int));
    assert(decimal(m) == token_of(m as int));
    lemma_token_unbroken(n as int, true);
    lemma_token_unbroken(m as int, true);
    lemma_token_unbroken(n as int, false);
    lemma_token_unbroken(m as int, false);
    lemma_token_round_trip(n as int);
    lemma_token_round_trip(m as int);
    assert forall|k: int| 0 <= k < m implies unbroken(#[trigger] lines[k + 2], true) && cube_line(
        n,
        lines[k + 2],
    ) == Ok::<Seq<TriLogic>, CubeError>(f[k]) by {
        let c = f[k];
        let literals = cube_literals(c);
        assert(lines[k + 2] == line_text(literals));
        lemma_cube_literals_round_trip(c);
        assert forall|j: int| 0 <= j < literals.len() implies -(usize::MAX as int)
            <= (#[trigger] literals[j]) <= usize::MAX by {}
        lemma_line_round_trip(literals);
    }
    assert forall|k: int| 0 <= k < lines.len() implies unbroken(#[trigger] lines[k], true) by {
        if k >= 2 {
            assert(unbroken(lines[(k - 2) + 2], true));
        }
    }
    lemma_split_joined(lines, 10, true);
    let text = problem_text(n, f);
    assert(text.drop_last() =~= joined(lines, 10));
    let read = split(text, true);
    assert(read == lines.push(Seq::<u8>::empty()));
    assert(read[0] == lines[0]);
    assert(read[1] == lines[1]);
    lemma_split_joined(seq![decimal(n)], 32, false);
    lemma_split_joined(seq![decimal(m)], 32, false);
    assert(line_count(read[0]) == Some(n));
    assert(line_count(read[1]) == Some(m));
    assert forall|k: int| 0 <= k < m implies cube_at(n, read, k) == Ok::<
        Seq<TriLogic>,
        CubeError,
    >(f[k]) by {
        assert(read[k + 2] == lines[k + 2]);
    }
    lemma_all_lines_good(n, read, m);
    assert(Seq::new(m, |k: int| cube_read(cube_at(n, read, k))) =~= f);
}

/// Where every cube line is read, none stops the reading.
pub proof fn lemma_all_lines_good(n: nat, lines: Seq<Seq<u8>>, m: nat)
    requires
        forall|k: int| 0 <= k < m ==> (#[trigger] cube_at(n, lines, k)).is_ok(),
    ensures
        good_lines(n, lines, m) == m,
    decreases m,
{
    if m > 0 {
        lemma_all_lines_good(n, lines, (m - 1) as nat);
        assert(cube_at(n, lines, m - 1).is_ok());
    }
}

/// Appends the line of one cube, without a line feed: the number of its
/// literals, then each literal as a signed variable number.
pub fn write_cube_line(out: &mut Vec<u8>, cube: &Cube)
    ensures
        final(out)@ == old(out)@ + line_text(cube_literals(cube@)),
{
    let ghost start = out@;
    let ghost c = cube@;
    let num_of_not_dont_cares = count_all_not_dont_cares(cube.as_slice());
    push_decimal(out, num_of_not_dont_cares);
    let ghost count = decimal(num_of_not_dont_cares as nat);
    let mut i: usize = 0;
    proof {
        assert(seq![count] + literal_tokens(signed_literals(c, 0)) =~= seq![count]);
    }
    while i < cube.len()
        invariant
            i <= cube.len(),
            c == cube@,
            out@ == start + joined(seq![count] + literal_tokens(signed_literals(c, i as int)), 32),
        decreases cube.len() - i,
    {
        let ghost before = seq![count] + literal_tokens(signed_literals(c, i as int));
        let ghost written = out@;
        match cube[i] {
            TriLogic::True => {
                out.push(32);
                push_decimal(out, i + 1);
                proof {
                    let after = seq![count] + literal_tokens(signed_literals(c, i + 1));
                    assert(after.drop_last() =~= before);
                    assert(after.last() == token_of(i + 1));
                    assert(out@ =~= start + joined(after, 32));
                }
            },
            TriLogic::False => {
                out.push(32);
                out.push(45);
                push_decimal(out, i + 1);
                proof {
                    let after = seq![count] + literal_tokens(signed_literals(c, i + 1));
                    assert(after.drop_last() =~= before);
                    assert(after.last() == token_of(-(i + 1)));
                    assert(out@ =~= start + joined(after, 32));
                }
            },
            TriLogic::DontCare => {},
        }
        i = i + 1;
    }
    proof {
        lemma_cube_literals_round_trip(c);
    }
}

/// Appends the text of a cube list over `num_vars` variables: the two
/// counts and one line for each cube, each line ended by a line feed.
///
/// A list in which some cube has not `num_vars` entries is refused, and
/// nothing is written.
#[allow(non_snake_case)]
pub fn WriteCubeList(out: &mut Vec<u8>, num_vars: usize, f: &CubeList) -> (outcome: Result<
    (),
    CubeError,
>)
    ensures
        match outcome {
            Ok(_) => well_formed(cubes(f@), num_vars as nat) && final(out)@ == old(out)@
                + problem_text(num_vars as nat, cubes(f@)),
            Err(reason) => reason == CubeError::InvariantViolation && !well_formed(
                cubes(f@),
                num_vars as nat,
            ) && final(out)@ == old(out)@,
        },
{
    if !every_cube_has_length(f, num_vars) {
        return Err(CubeError::InvariantViolation);
    }
    let ghost start = out@;
    let ghost all = cubes(f@);
    let ghost lines = problem_lines(num_vars as nat, all);
    push_decimal(out, num_vars);
    out.push(10);
    push_decimal(out, f.len());
    out.push(10);
    let mut k: usize = 0;
    proof {
        let head = lines.subrange(0, 2);
        assert(head.drop_last() =~= seq![decimal(num_vars as nat)]);
        assert(joined(head.drop_last(), 10) == decimal(num_vars as nat));
        assert(head.last() == decimal(f.len() as nat));
        assert(out@ =~= start + joined(head, 10).push(10));
    }
    while k < f.len()
        invariant
            k <= f.len(),
            all == cubes(f@),
            lines == problem_lines(num_vars as nat, all),
            out@ == start + joined(lines.subrange(0, k + 2), 10).push(10),
        decreases f.len() - k,
    {
        let ghost written = out@;
        write_cube_line(out, &f[k]);
        out.push(10);
        proof {
            let before = lines.subrange(0, k + 2);
            let after = lines.subrange(0, k + 3);
            assert(after.drop_last() =~= before);
            assert(after.last() == line_text(cube_literals(all[k as int])));
            assert(all[k as int] == f[k as int]@);
            assert(out@ =~= start + joined(after, 10).push(10));
        }
        k = k + 1;
    }
    assert(lines.subrange(0, k + 2) =~= lines);
    Ok(())
}

/// Reads the line of one cube over `num_vars` variables.
pub fn parse_cube_line(num_vars: usize, line: &[u8]) -> (outcome: Result<Cube, CubeError>)
    ensures
        match outcome {
            Ok(cube) => cube_line(num_vars as nat, line@) == Ok::<Seq<TriLogic>, CubeError>(cube@),
            Err(reason) => cube_line(num_vars as nat, line@) == Err::<Seq<TriLogic>, CubeError>(
                reason,
            ),
        },
{
    let tokens = split_bytes(line, false);
    let ghost parts = split(line@, false);
    assert(parts[0] == tokens[0]@);
    let nterms = match parse_unsigned(tokens[0].as_slice()) {
        Some(count) => count,
        None => {
            return Err(CubeError::MalformedInput);
        },
    };
    if nterms >= tokens.len() {
        return Err(CubeError::MalformedInput);
    }
    let mut terms: Vec<(bool, usize)> = Vec::new();
    let mut j: usize = 0;
    while j < nterms
        invariant
            j <= nterms < tokens.len(),
            parts == rows(tokens@),
            parts == split(line@, false),
            unsigned_value(parts[0]) == Some(nterms as nat),
            terms.len() == j,
            forall|i: int|
                0 <= i < j ==> signed_value(#[trigger] parts[i + 1]) == Some(
                    signed(terms[i].0, terms[i].1),
                ),
        decreases nterms - j,
    {
        assert(parts[j + 1] == tokens[j + 1]@);
        match parse_signed(tokens[j + 1].as_slice()) {
            Some(term) => {
                terms.push(term);
            },
            None => {
                assert(!signed_value(parts[j + 1]).is_some());
                return Err(CubeError::MalformedInput);
            },
        }
        j = j + 1;
    }
    let ghost literals = Seq::new(nterms as nat, |i: int| signed_value(parts[i + 1]).unwrap());
    proof {
        assert forall|i: int| 1 <= i <= nterms implies signed_value(#[trigger] parts[i]).is_some() by {
            assert(signed_value(parts[(i - 1) + 1]).is_some());
        }
        assert(line_literals(line@) == Some(literals));
    }
    let mut cube = vec![TriLogic::DontCare; num_vars];
    assert(cube@ =~= free_cube(num_vars as nat));
    let mut j: usize = 0;
    proof {
        assert(literals.subrange(0, 0) =~= Seq::<int>::empty());
    }
    while j < nterms
        invariant
            j <= nterms,
            terms.len() == nterms,
            literals.len() == nterms,
            cube.len() == num_vars,
            line_literals(line@) == Some(literals),
            forall|i: int|
                0 <= i < nterms ==> (#[trigger] literals[i]) == signed(terms[i].0, terms[i].1),
            literals_in_range(num_vars as nat, literals.subrange(0, j as int)),
            cube@ == cube_of_literals(num_vars as nat, literals.subrange(0, j as int)),
        decreases nterms - j,
    {
        let (negative, magnitude) = terms[j];
        let ghost seen = literals.subrange(0, j as int);
        let ghost next = literals.subrange(0, j + 1);
        assert(literals[j as int] == signed(negative, magnitude));
        if magnitude == 0 || magnitude > num_vars {
            assert(!literals_in_range(num_vars as nat, literals));
            return Err(CubeError::IndexOutOfRange);
        }
        cube[magnitude - 1] = if negative {
            TriLogic::False
        } else {
            TriLogic::True
        };
        proof {
            assert(next.drop_last() =~= seen);
            assert(next.last() == literals[j as int]);
            assert forall|i: int| 0 <= i < next.len() implies (#[trigger] next[i]) != 0 && -(
            num_vars as int) <= next[i] <= num_vars by {
                if i < j {
                    assert(next[i] == seen[i]);
                }
            }
        }
        j = j + 1;
    }
    assert(literals.subrange(0, j as int) =~= literals);
    Ok(cube)
}

/// Reads the text of a problem: the number of variables, the number of
/// cubes, and one line for each cube.
///
/// On success the result holds the number of variables and the cubes in
/// the order of their lines. The text is refused as malformed where a
/// count or a literal is no integer or a line is missing, and as out of
/// range where a literal names no variable; the first line that offends
/// decides. Lines behind those of the declared cubes are not looked at.
pub fn parse_cube_list(text: &[u8]) -> (outcome: Result<(usize, CubeList), CubeError>)
    ensures
        match outcome {
            Ok((num_vars, list)) => parse_problem(text@) == Ok::<
                (nat, Seq<Seq<TriLogic>>),
                CubeError,
            >((num_vars as nat, cubes(list@))) && well_formed(cubes(list@), num_vars as nat),
            Err(reason) => parse_problem(text@) == Err::<(nat, Seq<Seq<TriLogic>>), CubeError>(
                reason,
            ),
        },
{
    let lines = split_bytes(text, true);
    let ghost all = split(text@, true);
    if lines.len() < 2 {
        return Err(CubeError::MalformedInput);
    }
    assert(all[0] == lines[0]@);
    assert(all[1] == lines[1]@);
    let first = split_bytes(lines[0].as_slice(), false);
    let second = split_bytes(lines[1].as_slice(), false);
    assert(split(all[0], false)[0] == first[0]@);
    assert(split(all[1], false)[0] == second[0]@);
    let num_vars = match parse_unsigned(first[0].as_slice()) {
        Some(count) => count,
        None => {
            return Err(CubeError::MalformedInput);
        },
    };
    let num_cubes = match parse_unsigned(second[0].as_slice()) {
        Some(count) => count,
        None => {
            return Err(CubeError::MalformedInput);
        },
    };
    let ghost n = num_vars as nat;
    let mut cube_list: CubeList = Vec::new();
    let mut k: usize = 0;
    while k < num_cubes
        invariant
            k <= num_cubes,
            all == rows(lines@),
            all == split(text@, true),
            lines.len() >= 2,
            line_count(all[0]) == Some(n),
            line_count(all[1]) == Some(num_cubes as nat),
            n == num_vars,
            cube_list.len() == k,
            good_lines(n, all, k as nat) == k,
            forall|i: int|
                0 <= i < k ==> cube_at(n, all, i) == Ok::<Seq<TriLogic>, CubeError>(
                    (#[trigger] cube_list[i])@,
                ),
        decreases num_cubes - k,
    {
        if k >= lines.len() - 2 {
            proof {
                assert(cube_at(n, all, k as int).is_err());
                assert(good_lines(n, all, (k + 1) as nat) == k);
                lemma_good_lines_stop(n, all, (k + 1) as nat, num_cubes as nat);
            }
            return Err(CubeError::MalformedInput);
        }
        assert(all[k + 2] == lines[k + 2]@);
        match parse_cube_line(num_vars, lines[k + 2].as_slice()) {
            Ok(cube) => {
                cube_list.push(cube);
            },
            Err(reason) => {
                proof {
                    assert(cube_at(n, all, k as int).is_err());
                    assert(good_lines(n, all, (k + 1) as nat) == k);
                    lemma_good_lines_stop(n, all, (k + 1) as nat, num_cubes as nat);
                }
                return Err(reason);
            },
        }
        k = k + 1;
    }
    proof {
        assert(cubes(cube_list@) =~= Seq::new(
            num_cubes as nat,
            |i: int| cube_read(cube_at(n, all, i)),
        ));
        lemma_parsed_well_formed(text@);
    }
    Ok((num_vars, cube_list))
}

} // verus!
