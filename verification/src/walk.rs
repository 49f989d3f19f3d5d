//! Where a relative path leads: the path that [`relative_path`] gives for
//! two documents, followed from the first, arrives at the second.
use vstd::prelude::*;
use crate::relative::{
    climb, common_prefix, common_prefix_from, directories, lemma_common_prefix_bounds, levels_up,
    relative_path,
};
use crate::text::{join_with, lemma_split_on_nonempty, lemma_split_on_segments, split_on};

verus! {

/// The segment that stays in a directory.
pub open spec fn here() -> Seq<char> {
    seq!['.']
}

/// The segment that leaves a directory.
pub open spec fn parent() -> Seq<char> {
    seq!['.', '.']
}

/// The directory, and at last the document, that `steps` lead to from the
/// directory `from`: `.` stays, `..` leaves a directory, any other segment
/// enters what it names.
pub open spec fn walk(from: Seq<Seq<char>>, steps: Seq<Seq<char>>) -> Seq<Seq<char>>
    decreases steps.len(),
{
    if steps.len() == 0 {
        from
    } else {
        let at = walk(from, steps.drop_last());
        if steps.last() == here() {
            at
        } else if steps.last() == parent() {
            if at.len() > 0 {
                at.drop_last()
            } else {
                at
            }
        } else {
            at.push(steps.last())
        }
    }
}

/// `..`, `n` times.
pub open spec fn climbs(n: nat) -> Seq<Seq<char>> {
    Seq::new(n, |i: int| parent())
}

/// Whether no segment of `segments` is `.` or `..`.
pub open spec fn names_only(segments: Seq<Seq<char>>) -> bool {
    forall|i: int|
        0 <= i < segments.len() ==> #[trigger] segments[i] != here() && segments[i] != parent()
}

/// Whether no segment of `segments` holds `sep`.
pub open spec fn free_of(segments: Seq<Seq<char>>, sep: char) -> bool {
    forall|i: int, j: int|
        0 <= i < segments.len() && 0 <= j < segments[i].len() ==> segments[i][j] != sep
}

/// The segments of the relative path from `base` to `target`.
pub open spec fn relative_segments(base: Seq<char>, target: Seq<char>) -> Seq<Seq<char>> {
    let to = split_on(target, '/');
    let shared = common_prefix(directories(base), directories(target));
    let rest = to.subrange(shared, to.len() as int);
    if levels_up(base, target) == 0 {
        seq![here()] + rest
    } else {
        climbs(levels_up(base, target) as nat) + rest
    }
}

/// Joining with one more segment in front.
pub proof fn lemma_join_with_first(first: Seq<char>, parts: Seq<Seq<char>>, sep: Seq<char>)
    requires
        parts.len() >= 1,
    ensures
        join_with(seq![first] + parts, sep) == first + sep + join_with(parts, sep),
    decreases parts.len(),
{
    let all = seq![first] + parts;
    assert(all.drop_last() =~= seq![first] + parts.drop_last());
    assert(all.last() == parts.last());
    if parts.len() == 1 {
        assert(all.drop_last() =~= seq![first]);
        assert(join_with(seq![first], sep) == first);
        assert(join_with(parts, sep) == parts.last());
        assert(join_with(all, sep) =~= first + sep + join_with(parts, sep));
    } else {
        lemma_join_with_first(first, parts.drop_last(), sep);
        assert(join_with(all, sep) =~= first + sep + join_with(parts, sep));
    }
}

/// Joining behind `n` segments `..` writes `../` `n` times in front.
pub proof fn lemma_join_with_climbs(n: nat, parts: Seq<Seq<char>>)
    requires
        parts.len() >= 1,
    ensures
        join_with(climbs(n) + parts, seq!['/']) == climb(n) + join_with(parts, seq!['/']),
    decreases n,
{
    if n == 0 {
        assert(climbs(0) + parts =~= parts);
        assert(climb(0) + join_with(parts, seq!['/']) =~= join_with(parts, seq!['/']));
    } else {
        let more = seq![parent()] + parts;
        assert(climbs(n) + parts =~= climbs((n - 1) as nat) + more);
        lemma_join_with_climbs((n - 1) as nat, more);
        lemma_join_with_first(parent(), parts, seq!['/']);
        assert(climb((n - 1) as nat) + (parent() + seq!['/'] + join_with(parts, seq!['/']))
            =~= climb(n) + join_with(parts, seq!['/']));
    }
}

/// A relative path is its segments, joined with `/`.
pub proof fn lemma_relative_path_segments(base: Seq<char>, target: Seq<char>)
    ensures
        relative_path(base, target) == join_with(relative_segments(base, target), seq!['/']),
{
    lemma_split_on_nonempty(base, '/');
    lemma_split_on_nonempty(target, '/');
    lemma_common_prefix_bounds(directories(base), directories(target), 0);
    let to = split_on(target, '/');
    let shared = common_prefix(directories(base), directories(target));
    let rest = to.subrange(shared, to.len() as int);
    if levels_up(base, target) == 0 {
        lemma_join_with_first(here(), rest, seq!['/']);
        assert(here() + seq!['/'] + join_with(rest, seq!['/']) =~= seq!['.', '/'] + join_with(
            rest,
            seq!['/'],
        ));
    } else {
        lemma_join_with_climbs(levels_up(base, target) as nat, rest);
    }
}

/// Text without a separator, written behind other text, lengthens its last
/// segment.
pub proof fn lemma_split_on_extended(s: Seq<char>, t: Seq<char>, sep: char)
    requires
        forall|j: int| 0 <= j < t.len() ==> t[j] != sep,
    ensures
        split_on(s + t, sep) == split_on(s, sep).update(
            split_on(s, sep).len() - 1,
            split_on(s, sep).last() + t,
        ),
    decreases t.len(),
{
    lemma_split_on_nonempty(s, sep);
    let segments = split_on(s, sep);
    if t.len() == 0 {
        assert(s + t =~= s);
        assert(segments.last() + t =~= segments.last());
        assert(segments.update(segments.len() - 1, segments.last()) =~= segments);
    } else {
        assert((s + t).drop_last() =~= s + t.drop_last());
        assert((s + t).last() == t.last());
        lemma_split_on_extended(s, t.drop_last(), sep);
        assert((segments.last() + t.drop_last()).push(t.last()) =~= segments.last() + t);
        assert(split_on(s + t, sep) =~= segments.update(
            segments.len() - 1,
            segments.last() + t,
        ));
    }
}

/// Segments without a separator, joined with it and cut at it, are the
/// segments.
pub proof fn lemma_split_on_joined(parts: Seq<Seq<char>>, sep: char)
    requires
        parts.len() >= 1,
        free_of(parts, sep),
    ensures
        split_on(join_with(parts, seq![sep]), sep) == parts,
    decreases parts.len(),
{
    let last = parts.last();
    assert forall|j: int| 0 <= j < last.len() implies last[j] != sep by {
        assert(parts[parts.len() - 1][j] != sep);
    }
    if parts.len() == 1 {
        let nothing = Seq::<char>::empty();
        lemma_split_on_extended(nothing, last, sep);
        assert(nothing + last =~= last);
        assert(join_with(parts, seq![sep]) == last);
        assert(split_on(nothing, sep).update(0, nothing + last) =~= parts);
    } else {
        let init = parts.drop_last();
        assert forall|i: int, j: int| 0 <= i < init.len() && 0 <= j < init[i].len() implies init[i][j]
            != sep by {
            assert(parts[i][j] != sep);
        }
        lemma_split_on_joined(init, sep);
        let head = join_with(init, seq![sep]) + seq![sep];
        assert(head.drop_last() =~= join_with(init, seq![sep]));
        assert(head.last() == sep);
        assert(split_on(head, sep) == init.push(Seq::<char>::empty()));
        lemma_split_on_extended(head, last, sep);
        assert(Seq::<char>::empty() + last =~= last);
        assert(init.push(Seq::<char>::empty()).update(init.len() as int, last) =~= parts);
    }
}

/// Steps taken one after the other.
pub proof fn lemma_walk_append(from: Seq<Seq<char>>, a: Seq<Seq<char>>, b: Seq<Seq<char>>)
    ensures
        walk(from, a + b) == walk(walk(from, a), b),
    decreases b.len(),
{
    if b.len() == 0 {
        assert(a + b =~= a);
    } else {
        assert((a + b).drop_last() =~= a + b.drop_last());
        assert((a + b).last() == b.last());
        lemma_walk_append(from, a, b.drop_last());
    }
}

/// `n` steps `..` leave the `n` innermost directories.
pub proof fn lemma_walk_climbs(from: Seq<Seq<char>>, n: nat)
    requires
        n <= from.len(),
    ensures
        walk(from, climbs(n)) == from.subrange(0, from.len() - n),
    decreases n,
{
    if n == 0 {
        assert(from.subrange(0, from.len() as int) =~= from);
    } else {
        assert(climbs(n).drop_last() =~= climbs((n - 1) as nat));
        assert(climbs(n).last() == parent());
        assert(parent().len() != here().len());
        lemma_walk_climbs(from, (n - 1) as nat);
        assert(from.subrange(0, from.len() - n + 1).drop_last() =~= from.subrange(
            0,
            from.len() - n,
        ));
    }
}

/// Steps that are names enter what they name, one after the other.
pub proof fn lemma_walk_names(from: Seq<Seq<char>>, names: Seq<Seq<char>>)
    requires
        names_only(names),
    ensures
        walk(from, names) == from + names,
    decreases names.len(),
{
    if names.len() == 0 {
        assert(from + names =~= from);
    } else {
        let init = names.drop_last();
        assert forall|i: int| 0 <= i < init.len() implies #[trigger] init[i] != here() && init[i]
            != parent() by {
            assert(init[i] == names[i]);
        }
        lemma_walk_names(from, init);
        assert(names[names.len() - 1] == names.last());
        assert((from + init).push(names.last()) =~= from + names);
    }
}

/// Two lists agree on the segments that they share.
pub proof fn lemma_common_prefix_agrees(a: Seq<Seq<char>>, b: Seq<Seq<char>>, k: int)
    requires
        0 <= k <= a.len(),
        k <= b.len(),
        a.subrange(0, k) == b.subrange(0, k),
    ensures
        a.subrange(0, common_prefix_from(a, b, k)) == b.subrange(0, common_prefix_from(a, b, k)),
    decreases a.len() - k,
{
    lemma_common_prefix_bounds(a, b, k);
    if k < a.len() && k < b.len() && a[k] == b[k] {
        assert(a.subrange(0, k + 1) =~= a.subrange(0, k).push(a[k]));
        assert(b.subrange(0, k + 1) =~= b.subrange(0, k).push(b[k]));
        lemma_common_prefix_agrees(a, b, k + 1);
    }
}

/// The relative path from `base` to `target`, followed from the directory
/// of `base`, leads to `target`, where what `target` does not share with
/// `base` holds no segment `.` or `..`.
pub proof fn lemma_relative_path_leads_to_target(base: Seq<char>, target: Seq<char>)
    requires
        forall|i: int|
            common_prefix(directories(base), directories(target)) <= i < split_on(target, '/').len()
                ==> #[trigger] split_on(target, '/')[i] != here() && split_on(target, '/')[i]
                != parent(),
    ensures
        walk(directories(base), split_on(relative_path(base, target), '/')) == split_on(
            target,
            '/',
        ),
{
    lemma_split_on_nonempty(base, '/');
    lemma_split_on_nonempty(target, '/');
    let from = directories(base);
    let to = split_on(target, '/');
    let shared = common_prefix(from, directories(target));
    lemma_common_prefix_bounds(from, directories(target), 0);
    assert(from.subrange(0, 0) =~= directories(target).subrange(0, 0));
    lemma_common_prefix_agrees(from, directories(target), 0);
    let rest = to.subrange(shared, to.len() as int);
    let steps = relative_segments(base, target);
    assert(names_only(rest)) by {
        assert forall|i: int| 0 <= i < rest.len() implies #[trigger] rest[i] != here() && rest[i]
            != parent() by {
            assert(rest[i] == to[shared + i]);
        }
    }
    // The path is cut into the segments that it was joined from.
    lemma_relative_path_segments(base, target);
    lemma_split_on_segments(target, '/');
    assert(free_of(steps, '/')) by {
        assert forall|i: int, j: int| 0 <= i < steps.len() && 0 <= j < steps[i].len() implies steps[i][j]
            != '/' by {
            if levels_up(base, target) == 0 {
                if i >= 1 {
                    assert(steps[i] == to[shared + i - 1]);
                }
            } else {
                let n = levels_up(base, target);
                if i >= n {
                    assert(steps[i] == to[shared + i - n]);
                }
            }
        }
    }
    lemma_split_on_joined(steps, '/');
    // The steps lead to the shared directory, and from there to the target.
    let n = levels_up(base, target);
    if n == 0 {
        lemma_walk_append(from, seq![here()], rest);
        assert(seq![here()].drop_last() =~= Seq::<Seq<char>>::empty());
        assert(walk(from, seq![here()].drop_last()) == from);
        assert(seq![here()].last() == here());
        assert(walk(from, seq![here()]) == from);
        lemma_walk_names(from, rest);
        assert(from =~= from.subrange(0, shared));
    } else {
        lemma_walk_append(from, climbs(n as nat), rest);
        lemma_walk_climbs(from, n as nat);
        lemma_walk_names(from.subrange(0, shared), rest);
    }
    assert(from.subrange(0, shared) =~= to.subrange(0, shared)) by {
        assert(directories(target).subrange(0, shared) =~= to.subrange(0, shared));
    }
    assert(to.subrange(0, shared) + rest =~= to);
}

} // verus!
