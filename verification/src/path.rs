//! Splitting a path string into its keys.

use vstd::prelude::*;

verus! {

/// `s` without its leading run of `sep`.
pub open spec fn trim_start(s: Seq<char>, sep: char) -> Seq<char>
    decreases s.len(),
{
    if s.len() > 0 && s.first() == sep {
        trim_start(s.drop_first(), sep)
    } else {
        s
    }
}

/// `s` without its trailing run of `sep`.
pub open spec fn trim_end(s: Seq<char>, sep: char) -> Seq<char>
    decreases s.len(),
{
    if s.len() > 0 && s.last() == sep {
        trim_end(s.drop_last(), sep)
    } else {
        s
    }
}

/// `s` without the runs of `sep` at its two ends.
pub open spec fn trim(s: Seq<char>, sep: char) -> Seq<char> {
    trim_end(trim_start(s, sep), sep)
}

/// The pieces of `s` between occurrences of `sep`, in order. There is one
/// piece more than there are separators, so the result is never empty, and
/// two separators in a row enclose an empty piece.
pub open spec fn split(s: Seq<char>, sep: char) -> Seq<Seq<char>>
    decreases s.len(),
{
    if s.len() == 0 {
        seq![Seq::empty()]
    } else if s.last() == sep {
        split(s.drop_last(), sep).push(Seq::empty())
    } else {
        let before = split(s.drop_last(), sep);
        before.drop_last().push(before.last().push(s.last()))
    }
}

/// The keys of a path: the path is trimmed of separators at both ends and
/// then split on the separator. An empty path, or one of separators only,
/// has one key, the empty one.
pub open spec fn path_parts(path: Seq<char>, sep: char) -> Seq<Seq<char>> {
    split(trim(path, sep), sep)
}

/// The pieces put together again, with one `sep` between neighbours.
pub open spec fn join(parts: Seq<Seq<char>>, sep: char) -> Seq<char>
    decreases parts.len(),
{
    if parts.len() == 0 {
        Seq::empty()
    } else if parts.len() == 1 {
        parts[0]
    } else {
        join(parts.drop_last(), sep).push(sep) + parts.last()
    }
}

/// Whether `sep` occurs nowhere in `s`.
pub open spec fn free_of(s: Seq<char>, sep: char) -> bool {
    forall|i: int| 0 <= i < s.len() ==> s[i] != sep
}

proof fn lemma_trim_start_skips(s: Seq<char>, sep: char, start: int)
    requires
        0 <= start <= s.len(),
        forall|i: int| 0 <= i < start ==> s[i] == sep,
        start < s.len() ==> s[start] != sep,
    ensures
        trim_start(s, sep) == s.skip(start),
    decreases start,
{
    if start > 0 {
        lemma_trim_start_skips(s.drop_first(), sep, start - 1);
    }
}

proof fn lemma_trim_end_takes(s: Seq<char>, sep: char, end: int)
    requires
        0 <= end <= s.len(),
        forall|i: int| end <= i < s.len() ==> s[i] == sep,
        0 < end ==> s[end - 1] != sep,
    ensures
        trim_end(s, sep) == s.take(end),
    decreases s.len() - end,
{
    if end < s.len() {
        lemma_trim_end_takes(s.drop_last(), sep, end);
    }
}

/// Trimming `s` leaves the stretch from `start` to `end`, where everything
/// before `start` and everything from `end` on is a separator and the
/// stretch, unless it is empty, neither begins nor ends with one.
pub proof fn lemma_trim_between(s: Seq<char>, sep: char, start: int, end: int)
    requires
        0 <= start <= end <= s.len(),
        forall|i: int| 0 <= i < start ==> s[i] == sep,
        forall|i: int| end <= i < s.len() ==> s[i] == sep,
        start < end ==> s[start] != sep && s[end - 1] != sep,
    ensures
        trim(s, sep) == s.subrange(start, end),
{
    if start < end {
        lemma_trim_start_skips(s, sep, start);
        lemma_trim_end_takes(s.skip(start), sep, end - start);
    } else {
        lemma_trim_start_skips(s, sep, s.len() as int);
    }
}

/// What trimming leaves is empty, or begins and ends with a character other
/// than the separator.
pub proof fn lemma_trim_has_clean_ends(s: Seq<char>, sep: char)
    ensures
        trim(s, sep).len() > 0 ==> trim(s, sep).first() != sep && trim(s, sep).last() != sep,
{
    lemma_trim_start_is_clean(s, sep);
    lemma_trim_end_is_clean(trim_start(s, sep), sep);
}

proof fn lemma_trim_start_is_clean(s: Seq<char>, sep: char)
    ensures
        trim_start(s, sep).len() > 0 ==> trim_start(s, sep).first() != sep,
    decreases s.len(),
{
    if s.len() > 0 && s.first() == sep {
        lemma_trim_start_is_clean(s.drop_first(), sep);
    }
}

proof fn lemma_trim_end_is_clean(s: Seq<char>, sep: char)
    ensures
        trim_end(s, sep).len() > 0 ==> trim_end(s, sep).last() != sep && trim_end(s, sep).first()
            == s.first(),
    decreases s.len(),
{
    if s.len() > 0 && s.last() == sep {
        lemma_trim_end_is_clean(s.drop_last(), sep);
    }
}

/// Splitting gives at least one piece, no piece holds a separator, and the
/// pieces joined by separators are the string that was split.
pub proof fn lemma_split_pieces(s: Seq<char>, sep: char)
    ensures
        split(s, sep).len() >= 1,
        forall|i: int| 0 <= i < split(s, sep).len() ==> free_of(#[trigger] split(s, sep)[i], sep),
        join(split(s, sep), sep) == s,
    decreases s.len(),
{
    if s.len() > 0 {
        let before = split(s.drop_last(), sep);
        lemma_split_pieces(s.drop_last(), sep);
        if s.last() == sep {
            assert(before.push(Seq::empty()).drop_last() == before);
        } else {
            let pieces = before.drop_last().push(before.last().push(s.last()));
            assert(pieces.drop_last() == before.drop_last());
            assert(s.drop_last().push(s.last()) == s);
        }
    }
}

proof fn lemma_split_append(s: Seq<char>, tail: Seq<char>, sep: char)
    requires
        free_of(tail, sep),
    ensures
        split(s + tail, sep) == split(s, sep).drop_last().push(split(s, sep).last() + tail),
    decreases tail.len(),
{
    lemma_split_pieces(s, sep);
    if tail.len() > 0 {
        assert((s + tail).drop_last() == s + tail.drop_last());
        lemma_split_append(s, tail.drop_last(), sep);
        let shorter = split(s + tail.drop_last(), sep);
        assert(shorter.last().push(tail.last()) == split(s, sep).last() + tail);
    }
}

/// Joining pieces that hold no separator and splitting the result gives the
/// pieces back.
pub proof fn lemma_split_of_join(parts: Seq<Seq<char>>, sep: char)
    requires
        parts.len() >= 1,
        forall|i: int| 0 <= i < parts.len() ==> free_of(#[trigger] parts[i], sep),
    ensures
        split(join(parts, sep), sep) == parts,
    decreases parts.len(),
{
    let empty = Seq::<char>::empty();
    if parts.len() == 1 {
        lemma_split_append(empty, parts[0], sep);
    } else {
        let front = join(parts.drop_last(), sep).push(sep);
        lemma_split_of_join(parts.drop_last(), sep);
        assert(front.drop_last() == join(parts.drop_last(), sep));
        lemma_split_append(front, parts.last(), sep);
    }
}

proof fn lemma_join_ends(parts: Seq<Seq<char>>, sep: char)
    requires
        parts.len() > 1,
    ensures
        join(parts, sep).len() > 0,
        join(parts, sep).first() == (if parts.first().len() > 0 {
            parts.first().first()
        } else {
            sep
        }),
        join(parts, sep).last() == (if parts.last().len() > 0 {
            parts.last().last()
        } else {
            sep
        }),
    decreases parts.len(),
{
    if parts.len() > 2 {
        lemma_join_ends(parts.drop_last(), sep);
    }
    assert(join(parts, sep) == join(parts.drop_last(), sep).push(sep) + parts.last());
}

/// The keys of a path: there is at least one, none holds the separator,
/// joined by separators they are the trimmed path, and where there are
/// several the first and the last are not empty.
pub proof fn lemma_path_parts_shape(path: Seq<char>, sep: char)
    ensures
        path_parts(path, sep).len() >= 1,
        forall|i: int|
            0 <= i < path_parts(path, sep).len() ==> free_of(
                #[trigger] path_parts(path, sep)[i],
                sep,
            ),
        join(path_parts(path, sep), sep) == trim(path, sep),
        path_parts(path, sep).len() > 1 ==> path_parts(path, sep).first().len() > 0
            && path_parts(path, sep).last().len() > 0,
{
    lemma_split_pieces(trim(path, sep), sep);
    lemma_trim_has_clean_ends(path, sep);
    if path_parts(path, sep).len() > 1 {
        lemma_join_ends(path_parts(path, sep), sep);
    }
}

/// A path made of separators only, the empty path among them, has one key:
/// the empty one.
pub proof fn lemma_blank_path_has_one_empty_part(path: Seq<char>, sep: char)
    requires
        forall|i: int| 0 <= i < path.len() ==> path[i] == sep,
    ensures
        path_parts(path, sep) == seq![Seq::<char>::empty()],
{
    lemma_trim_between(path, sep, 0, 0);
}

/// Keys that hold no separator, joined by separators, are split into the
/// same keys again, as long as trimming takes nothing away: that is, unless
/// there are several keys and the first or the last is empty.
pub proof fn lemma_path_parts_of_join(parts: Seq<Seq<char>>, sep: char)
    requires
        parts.len() >= 1,
        forall|i: int| 0 <= i < parts.len() ==> free_of(#[trigger] parts[i], sep),
        parts.len() > 1 ==> parts.first().len() > 0 && parts.last().len() > 0,
    ensures
        path_parts(join(parts, sep), sep) == parts,
{
    let joined = join(parts, sep);
    if parts.len() > 1 {
        lemma_join_ends(parts, sep);
    }
    lemma_trim_between(joined, sep, 0, joined.len() as int);
    lemma_split_of_join(parts, sep);
}

/// `path` with every `from` replaced by `to`.
pub open spec fn with_separator(path: Seq<char>, from: char, to: char) -> Seq<char> {
    path.map_values(|c: char| if c == from { to } else { c })
}

proof fn lemma_trim_start_bound(s: Seq<char>, sep: char) -> (start: int)
    ensures
        0 <= start <= s.len(),
        forall|i: int| 0 <= i < start ==> s[i] == sep,
        start < s.len() ==> s[start] != sep,
    decreases s.len(),
{
    if s.len() > 0 && s.first() == sep {
        let rest: int = lemma_trim_start_bound(s.drop_first(), sep);
        assert forall|i: int| 0 <= i < rest + 1 implies s[i] == sep by {
            if i > 0 {
                assert(s[i] == s.drop_first()[i - 1]);
            }
        }
        rest + 1
    } else {
        0
    }
}

proof fn lemma_trim_end_bound(s: Seq<char>, sep: char, start: int) -> (end: int)
    requires
        0 <= start <= s.len(),
        start < s.len() ==> s[start] != sep,
    ensures
        start <= end <= s.len(),
        forall|i: int| end <= i < s.len() ==> s[i] == sep,
        start < end ==> s[end - 1] != sep,
    decreases s.len(),
{
    if s.len() > start && s.last() == sep {
        let end: int = lemma_trim_end_bound(s.drop_last(), sep, start);
        assert forall|i: int| end <= i < s.len() implies s[i] == sep by {
            if i < s.len() - 1 {
                assert(s[i] == s.drop_last()[i]);
            }
        }
        end
    } else {
        s.len() as int
    }
}

proof fn lemma_split_renamed(s: Seq<char>, from: char, to: char)
    requires
        from != to ==> free_of(s, to),
    ensures
        split(with_separator(s, from, to), to) == split(s, from),
    decreases s.len(),
{
    if s.len() > 0 {
        assert(with_separator(s, from, to).drop_last() == with_separator(s.drop_last(), from, to));
        lemma_split_renamed(s.drop_last(), from, to);
    }
}

/// The separator is a matter of notation: a path written with `to` where
/// another has `from` has the same keys under `to` as the other has under
/// `from`, provided the other does not already use `to` inside its keys.
pub proof fn lemma_separator_renamed(path: Seq<char>, from: char, to: char)
    requires
        from != to ==> free_of(path, to),
    ensures
        path_parts(with_separator(path, from, to), to) == path_parts(path, from),
{
    let renamed = with_separator(path, from, to);
    let start: int = lemma_trim_start_bound(path, from);
    let end: int = lemma_trim_end_bound(path, from, start);
    lemma_trim_between(path, from, start, end);
    lemma_trim_between(renamed, to, start, end);
    let kept = path.subrange(start, end);
    assert(renamed.subrange(start, end) == with_separator(kept, from, to));
    lemma_split_renamed(kept, from, to);
}

/// Splits `path` into its keys on `sep`, after trimming the separators at
/// both ends.
pub fn split_path(path: &str, sep: char) -> (parts: Vec<String>)
    ensures
        parts.deep_view() == path_parts(path@, sep),
{
    let len: usize = path.unicode_len();
    let mut start: usize = 0;
    while start < len && path.get_char(start) == sep
        invariant
            start <= len,
            len == path@.len(),
            forall|i: int| 0 <= i < start ==> path@[i] == sep,
        decreases len - start,
    {
        start = start + 1;
    }
    let mut end: usize = len;
    while end > start && path.get_char(end - 1) == sep
        invariant
            start <= end <= len,
            len == path@.len(),
            forall|i: int| end <= i < len ==> path@[i] == sep,
        decreases end,
    {
        end = end - 1;
    }
    let ghost trimmed = path@.subrange(start as int, end as int);
    proof {
        lemma_trim_between(path@, sep, start as int, end as int);
    }
    let mut parts: Vec<String> = Vec::new();
    let mut from: usize = start;
    let mut at: usize = start;
    assert(path@.subrange(from as int, at as int) == Seq::<char>::empty());
    while at < end
        invariant
            start <= from <= at <= end <= len,
            len == path@.len(),
            trimmed == path@.subrange(start as int, end as int),
            split(trimmed.take(at - start), sep) == parts.deep_view().push(
                path@.subrange(from as int, at as int),
            ),
        decreases end - at,
    {
        assert(trimmed.take(at - start + 1).drop_last() == trimmed.take(at - start));
        if path.get_char(at) == sep {
            let piece = path.substring_char(from, at);
            parts.push(piece.to_owned());
            from = at + 1;
            assert(path@.subrange(from as int, at + 1) == Seq::<char>::empty());
        } else {
            assert(path@.subrange(from as int, at + 1) == path@.subrange(
                from as int,
                at as int,
            ).push(path@[at as int]));
        }
        at = at + 1;
    }
    let piece = path.substring_char(from, end);
    parts.push(piece.to_owned());
    assert(trimmed.take(end - start) == trimmed);
    parts
}

} // verus!
