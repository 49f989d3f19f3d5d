//! Relative paths between two documents of the corpus.
//!
//! A document path is a sequence of segments separated by `/`: the last
//! segment names the document, the segments before it the directories that
//! hold it, counted from the root of the corpus.
use vstd::prelude::*;
use vstd::string::*;
use crate::text::{join_range, join_with, lemma_split_on_nonempty, split, split_on};

verus! {

/// The first position from `k` on at which `a` and `b` differ, or at which
/// one of them ends.
pub open spec fn common_prefix_from(a: Seq<Seq<char>>, b: Seq<Seq<char>>, k: int) -> int
    decreases a.len() - k,
{
    if 0 <= k < a.len() && k < b.len() && a[k] == b[k] {
        common_prefix_from(a, b, k + 1)
    } else {
        k
    }
}

/// The number of leading segments that `a` and `b` share.
pub open spec fn common_prefix(a: Seq<Seq<char>>, b: Seq<Seq<char>>) -> int {
    common_prefix_from(a, b, 0)
}

/// `../` written `n` times.
pub open spec fn climb(n: nat) -> Seq<char>
    decreases n,
{
    if n == 0 {
        Seq::<char>::empty()
    } else {
        climb((n - 1) as nat) + seq!['.', '.', '/']
    }
}

/// The directories that hold the document at `path`, outermost first.
pub open spec fn directories(path: Seq<char>) -> Seq<Seq<char>> {
    split_on(path, '/').drop_last()
}

/// The number of directories that a link from `base` to `target` has to
/// leave: those of `base` below the last directory that both paths share.
pub open spec fn levels_up(base: Seq<char>, target: Seq<char>) -> int {
    directories(base).len() - common_prefix(directories(base), directories(target))
}

/// The path that leads from the document at `base` to the document at
/// `target`: one `../` for every directory of `base` that `target` does not
/// share, then what is left of `target`. A path that leaves no directory
/// starts with `./`.
pub open spec fn relative_path(base: Seq<char>, target: Seq<char>) -> Seq<char> {
    let to = split_on(target, '/');
    let shared = common_prefix(directories(base), directories(target));
    let rest = join_with(to.subrange(shared, to.len() as int), seq!['/']);
    if levels_up(base, target) == 0 {
        seq!['.', '/'] + rest
    } else {
        climb(levels_up(base, target) as nat) + rest
    }
}

/// The shared segments are segments of both.
pub proof fn lemma_common_prefix_bounds(a: Seq<Seq<char>>, b: Seq<Seq<char>>, k: int)
    requires
        0 <= k <= a.len(),
        k <= b.len(),
    ensures
        k <= common_prefix_from(a, b, k) <= a.len(),
        common_prefix_from(a, b, k) <= b.len(),
    decreases a.len() - k,
{
    if k < a.len() && k < b.len() && a[k] == b[k] {
        lemma_common_prefix_bounds(a, b, k + 1);
    }
}

/// A climb of at least one level starts with `../`.
pub proof fn lemma_climb_starts_with_parent(n: nat)
    requires
        n >= 1,
    ensures
        climb(n).len() == 3 * n,
        climb(n)[0] == '.',
        climb(n)[1] == '.',
        climb(n)[2] == '/',
    decreases n,
{
    if n == 1 {
        assert(climb(0) =~= Seq::<char>::empty());
        assert(climb(1) =~= seq!['.', '.', '/']);
    } else {
        lemma_climb_starts_with_parent((n - 1) as nat);
    }
}

/// A relative path is never empty and never starts with `/`. It starts with
/// `./` where the way from `base` to `target` leaves no directory, and with
/// `../` where it leaves one.
pub proof fn lemma_relative_path_shape(base: Seq<char>, target: Seq<char>)
    ensures
        relative_path(base, target).len() > 0,
        relative_path(base, target)[0] != '/',
        levels_up(base, target) >= 0,
        levels_up(base, target) == 0 ==> seq!['.', '/'].is_prefix_of(relative_path(base, target)),
        levels_up(base, target) > 0 ==> seq!['.', '.', '/'].is_prefix_of(
            relative_path(base, target),
        ),
{
    lemma_split_on_nonempty(base, '/');
    lemma_split_on_nonempty(target, '/');
    lemma_common_prefix_bounds(directories(base), directories(target), 0);
    let path = relative_path(base, target);
    if levels_up(base, target) > 0 {
        lemma_climb_starts_with_parent(levels_up(base, target) as nat);
        assert(path.subrange(0, 3) =~= seq!['.', '.', '/']);
    } else {
        assert(path.subrange(0, 2) =~= seq!['.', '/']);
    }
}

/// The relative path from the document at `base` to the document at
/// `target`, both given from the root of the corpus.
///
/// A path between two documents always exists, so the result is never
/// `None`.
pub fn make_relative(base: &str, target: &str) -> (path: Option<String>)
    ensures
        path matches Some(p) && p@ == relative_path(base@, target@),
        path matches Some(p) && p@.len() > 0 && p@[0] != '/',
        path matches Some(p) && (levels_up(base@, target@) == 0 ==> seq!['.', '/'].is_prefix_of(p@)),
        path matches Some(p) && (levels_up(base@, target@) != 0 ==> seq![
            '.',
            '.',
            '/',
        ].is_prefix_of(p@)),
{
    proof {
        lemma_relative_path_shape(base@, target@);
    }
    let from = split(base, '/');
    let to = split(target, '/');
    proof {
        lemma_split_on_nonempty(base@, '/');
        lemma_split_on_nonempty(target@, '/');
    }
    let from_dirs = from.len() - 1;
    let to_dirs = to.len() - 1;
    let ghost a = directories(base@);
    let ghost b = directories(target@);
    let mut shared: usize = 0;
    while shared < from_dirs && shared < to_dirs && from[shared] == to[shared]
        invariant
            from.deep_view() == split_on(base@, '/'),
            to.deep_view() == split_on(target@, '/'),
            from_dirs == from.len() - 1,
            to_dirs == to.len() - 1,
            a == directories(base@),
            b == directories(target@),
            shared <= from_dirs,
            shared <= to_dirs,
            common_prefix(a, b) == common_prefix_from(a, b, shared as int),
        decreases from_dirs - shared,
    {
        proof {
            assert(a[shared as int] == from.deep_view()[shared as int]);
            assert(b[shared as int] == to.deep_view()[shared as int]);
            assert(from.deep_view()[shared as int] == from[shared as int]@);
            assert(to.deep_view()[shared as int] == to[shared as int]@);
        }
        shared = shared + 1;
    }
    proof {
        if shared < from_dirs && shared < to_dirs {
            assert(a[shared as int] == from.deep_view()[shared as int]);
            assert(b[shared as int] == to.deep_view()[shared as int]);
            assert(from.deep_view()[shared as int] == from[shared as int]@);
            assert(to.deep_view()[shared as int] == to[shared as int]@);
        }
        assert(common_prefix(a, b) == shared);
    }
    let mut out = String::new();
    if shared == from_dirs {
        out.append("./");
        proof {
            reveal_strlit("./");
            assert(out@ =~= seq!['.', '/']);
        }
    } else {
        let mut k: usize = shared;
        while k < from_dirs
            invariant
                shared <= k <= from_dirs,
                out@ == climb((k - shared) as nat),
            decreases from_dirs - k,
        {
            out.append("../");
            k = k + 1;
            proof {
                reveal_strlit("../");
                assert("../"@ =~= seq!['.', '.', '/']);
            }
        }
    }
    let rest = join_range(&to, shared, to.len(), "/");
    proof {
        reveal_strlit("/");
        assert("/"@ =~= seq!['/']);
        assert(to.deep_view().subrange(shared as int, to.len() as int) == split_on(target@, '/').subrange(
            shared as int,
            split_on(target@, '/').len() as int,
        ));
    }
    out.append(rest.as_str());
    Some(out)
}

} // verus!
