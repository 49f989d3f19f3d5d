//! Sequences of characters cut into segments and put together again.
use vstd::prelude::*;
use vstd::string::*;

verus! {

/// The segments of `s` between the occurrences of `sep`: one more than `s`
/// holds of `sep`, and none of them holds `sep`.
pub open spec fn split_on(s: Seq<char>, sep: char) -> Seq<Seq<char>>
    decreases s.len(),
{
    if s.len() == 0 {
        seq![Seq::<char>::empty()]
    } else {
        let init = split_on(s.drop_last(), sep);
        if s.last() == sep {
            init.push(Seq::<char>::empty())
        } else {
            init.update(init.len() - 1, init.last().push(s.last()))
        }
    }
}

/// The segments written one after the other with `sep` between neighbours.
pub open spec fn join_with(parts: Seq<Seq<char>>, sep: Seq<char>) -> Seq<char>
    decreases parts.len(),
{
    if parts.len() == 0 {
        Seq::<char>::empty()
    } else if parts.len() == 1 {
        parts[0]
    } else {
        join_with(parts.drop_last(), sep) + sep + parts.last()
    }
}

/// Cutting gives at least one segment.
pub proof fn lemma_split_on_nonempty(s: Seq<char>, sep: char)
    ensures
        split_on(s, sep).len() >= 1,
    decreases s.len(),
{
    if s.len() > 0 {
        lemma_split_on_nonempty(s.drop_last(), sep);
    }
}

/// No segment holds the separator.
pub proof fn lemma_split_on_segments(s: Seq<char>, sep: char)
    ensures
        forall|i: int, j: int|
            0 <= i < split_on(s, sep).len() && 0 <= j < split_on(s, sep)[i].len() ==> split_on(
                s,
                sep,
            )[i][j] != sep,
    decreases s.len(),
{
    if s.len() > 0 {
        lemma_split_on_nonempty(s.drop_last(), sep);
        lemma_split_on_segments(s.drop_last(), sep);
    }
}

/// The segments of a text, joined with the separator, are the text.
pub proof fn lemma_split_on_joins_back(s: Seq<char>, sep: char)
    ensures
        join_with(split_on(s, sep), seq![sep]) == s,
    decreases s.len(),
{
    if s.len() > 0 {
        let init = split_on(s.drop_last(), sep);
        lemma_split_on_nonempty(s.drop_last(), sep);
        lemma_split_on_joins_back(s.drop_last(), sep);
        if s.last() == sep {
            let parts = init.push(Seq::<char>::empty());
            assert(parts.drop_last() =~= init);
            assert(join_with(parts, seq![sep]) =~= s.drop_last() + seq![sep]);
            assert(s.drop_last() + seq![sep] =~= s);
        } else {
            let parts = init.update(init.len() - 1, init.last().push(s.last()));
            assert(parts.drop_last() =~= init.drop_last());
            if init.len() == 1 {
                assert(join_with(parts, seq![sep]) =~= s.drop_last().push(s.last()));
            } else {
                assert(join_with(parts, seq![sep]) =~= join_with(init.drop_last(), seq![sep]) + seq![
                    sep,
                ] + init.last().push(s.last()));
                assert(join_with(init, seq![sep]) =~= join_with(init.drop_last(), seq![sep]) + seq![
                    sep,
                ] + init.last());
                assert(join_with(parts, seq![sep]) =~= s.drop_last().push(s.last()));
            }
            assert(s.drop_last().push(s.last()) =~= s);
        }
    } else {
        assert(join_with(split_on(s, sep), seq![sep]) =~= s);
    }
}

/// Cuts `s` at every occurrence of `sep`.
pub fn split(s: &str, sep: char) -> (parts: Vec<String>)
    ensures
        parts.deep_view() == split_on(s@, sep),
{
    let chars = chars_of(s);
    let n = chars.len();
    let mut parts: Vec<String> = Vec::new();
    let mut start: usize = 0;
    let mut i: usize = 0;
    proof {
        assert(s@.subrange(0, 0) =~= Seq::<char>::empty());
        assert(parts.deep_view() =~= Seq::<Seq<char>>::empty());
    }
    while i < n
        invariant
            n == s@.len(),
            chars@ == s@,
            start <= i <= n,
            split_on(s@.subrange(0, i as int), sep) =~= parts.deep_view().push(
                s@.subrange(start as int, i as int),
            ),
        decreases n - i,
    {
        let c = chars[i];
        proof {
            let before = s@.subrange(0, i as int);
            let after = s@.subrange(0, i + 1);
            assert(after.drop_last() == before);
            assert(after.last() == c);
            lemma_split_on_nonempty(before, sep);
        }
        if c == sep {
            let piece = s.substring_char(start, i);
            let ghost old_parts = parts.deep_view();
            parts.push(String::from_str(piece));
            start = i + 1;
            proof {
                assert(parts.deep_view() == old_parts.push(piece@));
                assert(s@.subrange(start as int, i + 1) == Seq::<char>::empty());
            }
        } else {
            proof {
                let init = split_on(s@.subrange(0, i as int), sep);
                assert(s@.subrange(start as int, i + 1) == s@.subrange(start as int, i as int).push(c));
                assert(init.update(init.len() - 1, init.last().push(c)) == parts.deep_view().push(
                    s@.subrange(start as int, i + 1),
                ));
            }
        }
        i = i + 1;
    }
    let piece = s.substring_char(start, n);
    let ghost old_parts = parts.deep_view();
    parts.push(String::from_str(piece));
    proof {
        assert(parts.deep_view() == old_parts.push(piece@));
        assert(s@.subrange(0, n as int) == s@);
    }
    parts
}

/// Writes the segments of `parts` from `from` up to `to` one after the other,
/// with `sep` between neighbours.
pub fn join_range(parts: &Vec<String>, from: usize, to: usize, sep: &str) -> (joined: String)
    requires
        from <= to <= parts.len(),
    ensures
        joined@ == join_with(parts.deep_view().subrange(from as int, to as int), sep@),
{
    let ghost all = parts.deep_view();
    let mut joined = String::new();
    let mut j: usize = from;
    proof {
        assert(all.subrange(from as int, from as int) =~= Seq::<Seq<char>>::empty());
    }
    while j < to
        invariant
            from <= j <= to <= parts.len(),
            all == parts.deep_view(),
            joined@ == join_with(all.subrange(from as int, j as int), sep@),
        decreases to - j,
    {
        let ghost before = all.subrange(from as int, j as int);
        let ghost after = all.subrange(from as int, j + 1);
        proof {
            assert(after.drop_last() =~= before);
            assert(after.last() == parts[j as int]@) by {
                assert(all[j as int] == parts[j as int]@);
            }
        }
        if j > from {
            joined.append(sep);
        }
        joined.append(parts[j].as_str());
        proof {
            if j == from {
                assert(join_with(before, sep@) =~= Seq::<char>::empty());
            }
            assert(joined@ =~= join_with(after, sep@));
        }
        j = j + 1;
    }
    joined
}

/// Whether `a` and `b` hold the same characters.
pub fn same_text(a: &str, b: &str) -> (same: bool)
    ensures
        same == (a@ == b@),
{
    String::from_str(a) == String::from_str(b)
}

/// Whether `s` starts with the character `c`.
pub fn starts_with_char(s: &str, c: char) -> (starts: bool)
    ensures
        starts == (s@.len() > 0 && s@[0] == c),
{
    !s.is_empty() && s.get_char(0) == c
}

/// `s` without its first character.
pub fn after_first(s: &str) -> (rest: &str)
    requires
        s@.len() > 0,
    ensures
        rest@ == s@.skip(1),
{
    let n = s.unicode_len();
    s.substring_char(1, n)
}

/// The characters of `s`, one by one.
pub fn chars_of(s: &str) -> (chars: Vec<char>)
    ensures
        chars@ == s@,
{
    let mut chars: Vec<char> = Vec::new();
    for c in it: s.chars()
        invariant
            it.seq() == s@,
            chars@ == s@.subrange(0, it.index() as int),
    {
        chars.push(c);
    }
    chars
}

} // verus!
