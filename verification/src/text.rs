//! Cutting text into lines, and lines into tokens.

use vstd::prelude::*;

verus! {

/// A byte that parts two tokens of a line: a space, or one of the ASCII
/// control characters from the tabulator to the carriage return.
pub open spec fn is_blank(b: u8) -> bool {
    b == 32 || 9 <= b <= 13
}

/// A byte at which text is cut: the line feed where lines are wanted, a
/// blank where tokens are.
pub open spec fn is_separator(b: u8, lines: bool) -> bool {
    if lines {
        b == 10
    } else {
        is_blank(b)
    }
}

/// No byte of `s` is a separator.
pub open spec fn unbroken(s: Seq<u8>, lines: bool) -> bool {
    forall|i: int| 0 <= i < s.len() ==> !is_separator(#[trigger] s[i], lines)
}

/// The parts into which the separators cut `s`. Every separator ends a
/// part and begins another, so there is always at least one part, and
/// between two separators that touch lies an empty one.
pub open spec fn split(s: Seq<u8>, lines: bool) -> Seq<Seq<u8>>
    decreases s.len(),
{
    if s.len() == 0 {
        seq![Seq::<u8>::empty()]
    } else {
        let before = split(s.drop_last(), lines);
        if is_separator(s.last(), lines) {
            before.push(Seq::<u8>::empty())
        } else {
            before.update(before.len() - 1, before.last().push(s.last()))
        }
    }
}

/// The parts joined again, with the separator `sep` between each two.
pub open spec fn joined(parts: Seq<Seq<u8>>, sep: u8) -> Seq<u8>
    decreases parts.len(),
{
    if parts.len() == 0 {
        Seq::<u8>::empty()
    } else if parts.len() == 1 {
        parts[0]
    } else {
        joined(parts.drop_last(), sep).push(sep) + parts.last()
    }
}

/// Text is always cut into at least one part.
pub proof fn lemma_split_nonempty(s: Seq<u8>, lines: bool)
    ensures
        split(s, lines).len() >= 1,
    decreases s.len(),
{
    if s.len() > 0 {
        lemma_split_nonempty(s.drop_last(), lines);
    }
}

/// Text without a separator behind other text lengthens the last part.
pub proof fn lemma_split_extend(s: Seq<u8>, t: Seq<u8>, lines: bool)
    requires
        unbroken(t, lines),
    ensures
        split(s, lines).len() >= 1,
        split(s + t, lines) == split(s, lines).update(
            split(s, lines).len() - 1,
            split(s, lines).last() + t,
        ),
    decreases t.len(),
{
    lemma_split_nonempty(s, lines);
    let parts = split(s, lines);
    if t.len() == 0 {
        assert(s + t =~= s);
        assert(parts.last() + t =~= parts.last());
        assert(parts.update(parts.len() - 1, parts.last()) =~= parts);
    } else {
        let u = t.drop_last();
        assert forall|i: int| 0 <= i < u.len() implies !is_separator(#[trigger] u[i], lines) by {
            assert(u[i] == t[i]);
        }
        lemma_split_extend(s, u, lines);
        assert((s + t).drop_last() =~= s + u);
        assert((s + t).last() == t.last());
        assert(!is_separator(t[t.len() - 1], lines));
        let mid = split(s + u, lines);
        assert(mid.last() == parts.last() + u);
        assert((parts.last() + u).push(t.last()) =~= parts.last() + t);
        assert(split(s + t, lines) =~= parts.update(parts.len() - 1, parts.last() + t));
    }
}

/// A separator and then text without one add that text as a new part.
pub proof fn lemma_split_append(s: Seq<u8>, sep: u8, t: Seq<u8>, lines: bool)
    requires
        is_separator(sep, lines),
        unbroken(t, lines),
    ensures
        split(s.push(sep) + t, lines) == split(s, lines).push(t),
{
    let cut = s.push(sep);
    assert(cut.drop_last() =~= s);
    lemma_split_extend(cut, t, lines);
    assert(Seq::<u8>::empty() + t =~= t);
    assert(split(cut + t, lines) =~= split(s, lines).push(t));
}

/// Parts without a separator in them, of which there is at least one, are
/// found again when their joined text is cut.
pub proof fn lemma_split_joined(parts: Seq<Seq<u8>>, sep: u8, lines: bool)
    requires
        parts.len() >= 1,
        is_separator(sep, lines),
        forall|k: int| 0 <= k < parts.len() ==> unbroken(#[trigger] parts[k], lines),
    ensures
        split(joined(parts, sep), lines) == parts,
    decreases parts.len(),
{
    if parts.len() == 1 {
        lemma_split_extend(Seq::<u8>::empty(), parts[0], lines);
        assert(Seq::<u8>::empty() + parts[0] =~= parts[0]);
        assert(split(parts[0], lines) =~= parts);
    } else {
        let d = parts.drop_last();
        assert forall|k: int| 0 <= k < d.len() implies unbroken(#[trigger] d[k], lines) by {
            assert(d[k] == parts[k]);
        }
        lemma_split_joined(d, sep, lines);
        lemma_split_append(joined(d, sep), sep, parts.last(), lines);
        assert(d.push(parts.last()) =~= parts);
    }
}

/// The bytes that each vector of a sequence holds.
pub open spec fn rows(parts: Seq<Vec<u8>>) -> Seq<Seq<u8>> {
    Seq::new(parts.len(), |k: int| parts[k]@)
}

/// Cuts `s` at every line feed, where `lines` is set, or else at every
/// blank. The separators themselves belong to no part.
pub fn split_bytes(s: &[u8], lines: bool) -> (parts: Vec<Vec<u8>>)
    ensures
        rows(parts@) == split(s@, lines),
        parts.len() >= 1,
{
    let mut parts: Vec<Vec<u8>> = Vec::new();
    let mut current: Vec<u8> = Vec::new();
    let mut i: usize = 0;
    assert(s@.subrange(0, 0) =~= Seq::<u8>::empty());
    assert(rows(parts@).push(current@) =~= split(s@.subrange(0, 0), lines));
    while i < s.len()
        invariant
            i <= s.len(),
            rows(parts@).push(current@) == split(s@.subrange(0, i as int), lines),
        decreases s.len() - i,
    {
        let b = s[i];
        let ghost done = rows(parts@);
        let ghost open = current@;
        let ghost next = s@.subrange(0, i + 1);
        assert(next.drop_last() =~= s@.subrange(0, i as int));
        assert(next.last() == b);
        let cut = if lines {
            b == 10
        } else {
            b == 32 || (9 <= b && b <= 13)
        };
        if cut {
            parts.push(current);
            current = Vec::new();
            assert(rows(parts@) =~= done.push(open));
            assert(rows(parts@).push(current@) =~= split(next, lines));
        } else {
            current.push(b);
            assert(rows(parts@).push(current@) =~= done.push(open).update(
                done.len() as int,
                open.push(b),
            ));
        }
        i = i + 1;
    }
    assert(s@.subrange(0, i as int) =~= s@);
    let ghost done = rows(parts@);
    parts.push(current);
    assert(rows(parts@) =~= done.push(current@));
    parts
}

} // verus!
