//! Proved laws of lexical normalization: the shape of every output, that
//! normalization is idempotent, that an absolute root is never clamped away,
//! and exactly when a rootless path fails.

use vstd::prelude::*;

use crate::Component;
use crate::is_normalized;
use crate::root_len;
use crate::spec_normalize;
use crate::spec_normalize_from;

verus! {

/// How many `..` segments `s` holds.
pub open spec fn parent_dirs(s: Seq<Component>) -> int
    decreases s.len(),
{
    if s.len() == 0 {
        0
    } else {
        (if s[0] is ParentDir {
            1int
        } else {
            0int
        }) + parent_dirs(s.drop_first())
    }
}

/// How many named segments `s` holds.
pub open spec fn named_segs(s: Seq<Component>) -> int
    decreases s.len(),
{
    if s.len() == 0 {
        0
    } else {
        (if s[0] is Normal {
            1int
        } else {
            0int
        }) + named_segs(s.drop_first())
    }
}

/// Counting over a nonempty prefix `s.take(i)` splits into the first
/// component and the matching prefix of `s.drop_first()`.
proof fn lemma_take_counts(s: Seq<Component>, i: int)
    requires
        1 <= i <= s.len(),
    ensures
        parent_dirs(s.take(i)) == (if s[0] is ParentDir {
            1int
        } else {
            0int
        }) + parent_dirs(s.drop_first().take(i - 1)),
        named_segs(s.take(i)) == (if s[0] is Normal {
            1int
        } else {
            0int
        }) + named_segs(s.drop_first().take(i - 1)),
{
    assert(s.take(i)[0] == s[0]);
    assert(s.take(i).drop_first() =~= s.drop_first().take(i - 1));
}

/// Resolution never touches the first `b` output components, and everything
/// it leaves past them is a named segment.
proof fn lemma_from_shape(out: Seq<Component>, b: int, rest: Seq<Component>)
    requires
        0 <= b <= out.len(),
        forall|j: int| b <= j < out.len() ==> (#[trigger] out[j]) is Normal,
    ensures
        spec_normalize_from(out, b, rest) matches Some(t) ==> {
            &&& t.len() >= b
            &&& t.take(b) == out.take(b)
            &&& forall|j: int| b <= j < t.len() ==> (#[trigger] t[j]) is Normal
        },
    decreases rest.len(),
{
    if rest.len() == 0 {
    } else {
        match rest[0] {
            Component::Prefix(_) => {},
            Component::RootDir => {},
            Component::CurDir => {
                lemma_from_shape(out, b, rest.drop_first());
            },
            Component::ParentDir => {
                if out.len() != b {
                    lemma_from_shape(out.drop_last(), b, rest.drop_first());
                    assert(out.drop_last().take(b) =~= out.take(b));
                }
            },
            Component::Normal(_) => {
                lemma_from_shape(out.push(rest[0]), b, rest.drop_first());
                assert(out.push(rest[0]).take(b) =~= out.take(b));
            },
        }
    }
}

/// Every successful normalization keeps the whole root boundary of its input:
/// the first `root_len` components come through unchanged, so the output is
/// never shorter than the boundary.
pub proof fn lemma_boundary_preserved(s: Seq<Component>)
    ensures
        spec_normalize(s) matches Some(t) ==> {
            &&& t.len() >= root_len(s)
            &&& t.take(root_len(s)) == s.take(root_len(s))
        },
{
    if s.len() == 0 {
        match spec_normalize(s) {
            Some(t) => {
                assert(t.take(0) =~= s.take(0));
            },
            None => {},
        }
    } else if s[0] is ParentDir {
    } else {
        let rl = root_len(s);
        let out = s.take(rl);
        lemma_from_shape(out, rl, s.skip(rl));
        assert(out.take(rl) =~= out);
    }
}

/// **Root invariant**: when the input starts with a root marker, a successful
/// normalization never loses it — the output still starts with the root
/// marker.  Ascending above an absolute root is never silently clamped: the
/// resolution that would need it returns no output at all.
pub proof fn lemma_root_invariant(s: Seq<Component>)
    requires
        s.len() > 0,
        s[0] is RootDir,
    ensures
        spec_normalize(s) matches Some(t) ==> t.len() >= 1 && t[0] is RootDir,
{
    lemma_boundary_preserved(s);
    match spec_normalize(s) {
        Some(t) => {
            assert(t.take(1)[0] == t[0]);
        },
        None => {},
    }
}

/// Every successful normalization returns a sequence in normal form, with the
/// same root boundary as its input.
pub proof fn lemma_normalized_output(s: Seq<Component>)
    ensures
        spec_normalize(s) matches Some(t) ==> is_normalized(t) && root_len(t) == root_len(s),
{
    lemma_boundary_preserved(s);
    if s.len() == 0 || s[0] is ParentDir {
    } else {
        let rl = root_len(s);
        lemma_from_shape(s.take(rl), rl, s.skip(rl));
        match spec_normalize(s) {
            Some(t) => {
                assert forall|j: int| 0 <= j < rl implies t[j] == s[j] by {
                    assert(t[j] == t.take(rl)[j]);
                    assert(s[j] == s.take(rl)[j]);
                }
                assert(root_len(t) == rl);
            },
            None => {},
        }
    }
}

/// Past the root boundary a normal-form tail resolves to itself: each named
/// segment is appended back in order.
proof fn lemma_from_all_named(out: Seq<Component>, b: int, rest: Seq<Component>)
    requires
        forall|j: int| 0 <= j < rest.len() ==> (#[trigger] rest[j]) is Normal,
    ensures
        spec_normalize_from(out, b, rest) == Some(out + rest),
    decreases rest.len(),
{
    if rest.len() == 0 {
        assert(out + rest =~= out);
    } else {
        lemma_from_all_named(out.push(rest[0]), b, rest.drop_first());
        assert(out.push(rest[0]) + rest.drop_first() =~= out + rest);
    }
}

/// A sequence in normal form is a fixed point of normalization.
pub proof fn lemma_fixed_point(t: Seq<Component>)
    requires
        is_normalized(t),
    ensures
        spec_normalize(t) == Some(t),
{
    if t.len() == 0 {
        assert(Seq::<Component>::empty() =~= t);
    } else {
        let rl = root_len(t);
        assert(!(t[0] is ParentDir));
        assert(forall|j: int|
            0 <= j < t.skip(rl).len() ==> (#[trigger] t.skip(rl)[j]) is Normal);
        lemma_from_all_named(t.take(rl), rl, t.skip(rl));
        assert(t.take(rl) + t.skip(rl) =~= t);
    }
}

/// **Idempotence**: normalizing the result of a successful normalization
/// yields that same result again.
pub proof fn lemma_normalize_idempotent(s: Seq<Component>)
    ensures
        spec_normalize(s) matches Some(t) ==> spec_normalize(t) == Some(t),
{
    lemma_normalized_output(s);
    match spec_normalize(s) {
        Some(t) => {
            lemma_fixed_point(t);
        },
        None => {},
    }
}

/// No output of a successful normalization holds a `..` anywhere: every
/// unresolved parent reference makes the call fail instead.
pub proof fn lemma_no_parent_in_output(s: Seq<Component>)
    ensures
        spec_normalize(s) matches Some(t) ==> forall|j: int|
            0 <= j < t.len() ==> !((#[trigger] t[j]) is ParentDir),
{
    lemma_normalized_output(s);
}

/// Resolution of a tail free of prefixes and root markers fails exactly when
/// some prefix of that tail needs more pops than the output can give: more
/// `..` segments than named ones, counted against the spare depth of `out`.
proof fn lemma_from_escape(out: Seq<Component>, b: int, rest: Seq<Component>)
    requires
        0 <= b <= out.len(),
        forall|j: int|
            0 <= j < rest.len() ==> !((#[trigger] rest[j]) is RootDir) && !(rest[j] is Prefix),
    ensures
        spec_normalize_from(out, b, rest) is None <==> exists|i: int|
            0 <= i <= rest.len() && parent_dirs(#[trigger] rest.take(i)) - named_segs(rest.take(i))
                > out.len() - b,
    decreases rest.len(),
{
    let d = out.len() - b;
    if rest.len() == 0 {
        assert(forall|i: int|
            0 <= i <= rest.len() ==> parent_dirs(#[trigger] rest.take(i)) == 0 && named_segs(
                rest.take(i),
            ) == 0) by {
            assert(rest.take(0) =~= rest);
        }
    } else {
        let tail = rest.drop_first();
        assert forall|i: int| 1 <= i <= rest.len() implies {
            &&& parent_dirs(#[trigger] rest.take(i)) == (if rest[0] is ParentDir {
                1int
            } else {
                0int
            }) + parent_dirs(tail.take(i - 1))
            &&& named_segs(rest.take(i)) == (if rest[0] is Normal {
                1int
            } else {
                0int
            }) + named_segs(tail.take(i - 1))
        } by {
            lemma_take_counts(rest, i);
        }
        assert(rest.take(0) =~= Seq::<Component>::empty());
        match rest[0] {
            Component::Prefix(_) => {
                assert(false);
            },
            Component::RootDir => {
                assert(false);
            },
            Component::CurDir => {
                lemma_from_escape(out, b, tail);
                if spec_normalize_from(out, b, rest) is None {
                    let i0 = choose|i: int|
                        0 <= i <= tail.len() && parent_dirs(#[trigger] tail.take(i)) - named_segs(
                            tail.take(i),
                        ) > d;
                    assert(parent_dirs(rest.take(i0 + 1)) - named_segs(rest.take(i0 + 1)) > d);
                }
            },
            Component::ParentDir => {
                if out.len() == b {
                    assert(parent_dirs(rest.take(1)) - named_segs(rest.take(1)) > d) by {
                        assert(tail.take(0) =~= Seq::<Component>::empty());
                    }
                } else {
                    lemma_from_escape(out.drop_last(), b, tail);
                    if spec_normalize_from(out, b, rest) is None {
                        let i0 = choose|i: int|
                            0 <= i <= tail.len() && parent_dirs(#[trigger] tail.take(i))
                                - named_segs(tail.take(i)) > d - 1;
                        assert(parent_dirs(rest.take(i0 + 1)) - named_segs(rest.take(i0 + 1)) > d);
                    } else {
                        if exists|i: int|
                            0 <= i <= rest.len() && parent_dirs(#[trigger] rest.take(i))
                                - named_segs(rest.take(i)) > d {
                            let i0 = choose|i: int|
                                0 <= i <= rest.len() && parent_dirs(#[trigger] rest.take(i))
                                    - named_segs(rest.take(i)) > d;
                            assert(i0 >= 1);
                            assert(parent_dirs(tail.take(i0 - 1)) - named_segs(tail.take(i0 - 1))
                                > d - 1);
                            assert(false);
                        }
                    }
                }
            },
            Component::Normal(_) => {
                lemma_from_escape(out.push(rest[0]), b, tail);
                if spec_normalize_from(out, b, rest) is None {
                    let i0 = choose|i: int|
                        0 <= i <= tail.len() && parent_dirs(#[trigger] tail.take(i)) - named_segs(
                            tail.take(i),
                        ) > d + 1;
                    assert(parent_dirs(rest.take(i0 + 1)) - named_segs(rest.take(i0 + 1)) > d);
                } else {
                    if exists|i: int|
                        0 <= i <= rest.len() && parent_dirs(#[trigger] rest.take(i)) - named_segs(
                            rest.take(i),
                        ) > d {
                        let i0 = choose|i: int|
                            0 <= i <= rest.len() && parent_dirs(#[trigger] rest.take(i))
                                - named_segs(rest.take(i)) > d;
                        assert(i0 >= 1);
                        assert(parent_dirs(tail.take(i0 - 1)) - named_segs(tail.take(i0 - 1)) > d
                            + 1);
                        assert(false);
                    }
                }
            },
        }
    }
}

/// **Pure relative escape**: a path holding no root marker and no prefix
/// fails exactly when some prefix of its components holds more `..` segments
/// than named ones — the net resolution would ascend above the starting
/// point.  Otherwise it succeeds, and no `..` remains in the output.
pub proof fn lemma_relative_escape(s: Seq<Component>)
    requires
        forall|j: int|
            0 <= j < s.len() ==> !((#[trigger] s[j]) is RootDir) && !(s[j] is Prefix),
    ensures
        spec_normalize(s) is None <==> exists|i: int|
            0 <= i <= s.len() && parent_dirs(#[trigger] s.take(i)) > named_segs(s.take(i)),
        spec_normalize(s) matches Some(t) ==> forall|j: int|
            0 <= j < t.len() ==> !((#[trigger] t[j]) is ParentDir),
{
    lemma_no_parent_in_output(s);
    if s.len() == 0 {
        assert(forall|i: int|
            0 <= i <= s.len() ==> parent_dirs(#[trigger] s.take(i)) == 0 && named_segs(s.take(i))
                == 0) by {
            assert(s.take(0) =~= s);
        }
    } else if s[0] is ParentDir {
        assert(parent_dirs(s.take(1)) > named_segs(s.take(1))) by {
            assert(s.take(1)[0] == s[0]);
            assert(s.take(1).drop_first() =~= Seq::<Component>::empty());
            assert(parent_dirs(s.take(1).drop_first()) == 0);
            assert(named_segs(s.take(1).drop_first()) == 0);
        }
    } else {
        let rl = root_len(s);
        let tail = s.skip(rl);
        lemma_from_escape(s.take(rl), rl, tail);
        assert forall|i: int| rl <= i <= s.len() implies {
            &&& parent_dirs(#[trigger] s.take(i)) == parent_dirs(tail.take(i - rl))
            &&& named_segs(s.take(i)) == named_segs(tail.take(i - rl))
        } by {
            lemma_root_take_counts(s, i);
        }
        if spec_normalize(s) is None {
            let i0 = choose|i: int|
                0 <= i <= tail.len() && parent_dirs(#[trigger] tail.take(i)) - named_segs(
                    tail.take(i),
                ) > 0;
            assert(s.take(i0 + rl).len() == i0 + rl);
            assert(parent_dirs(s.take(i0 + rl)) > named_segs(s.take(i0 + rl)));
        } else {
            if exists|i: int|
                0 <= i <= s.len() && parent_dirs(#[trigger] s.take(i)) > named_segs(s.take(i)) {
                let i0 = choose|i: int|
                    0 <= i <= s.len() && parent_dirs(#[trigger] s.take(i)) > named_segs(s.take(i));
                if i0 < rl {
                    lemma_root_counts_zero(s, i0);
                } else {
                    assert(parent_dirs(tail.take(i0 - rl)) - named_segs(tail.take(i0 - rl)) > 0);
                }
                assert(false);
            }
        }
    }
}

/// Prefixes of the root boundary hold no `..` and no named segment.
proof fn lemma_root_counts_zero(s: Seq<Component>, i: int)
    requires
        0 <= i <= root_len(s),
        root_len(s) <= s.len(),
    ensures
        parent_dirs(s.take(i)) == 0,
        named_segs(s.take(i)) == 0,
{
    if i == 0 {
        assert(s.take(0) =~= Seq::<Component>::empty());
    } else if i == 1 {
        assert(s.take(1)[0] == s[0]);
        assert(s.take(1).drop_first() =~= Seq::<Component>::empty());
        assert(parent_dirs(s.take(1).drop_first()) == 0);
        assert(named_segs(s.take(1).drop_first()) == 0);
    } else {
        assert(i == 2 && s[0] is Prefix && s[1] is RootDir);
        let x = s.take(2).drop_first();
        assert(s.take(2)[0] == s[0]);
        assert(x[0] == s[1]);
        assert(x.drop_first() =~= Seq::<Component>::empty());
        assert(parent_dirs(x.drop_first()) == 0);
        assert(named_segs(x.drop_first()) == 0);
        assert(parent_dirs(x) == 0);
        assert(named_segs(x) == 0);
    }
}

/// Counting past the root boundary ignores the boundary itself: the boundary
/// components are neither `..` nor named segments.
proof fn lemma_root_take_counts(s: Seq<Component>, i: int)
    requires
        root_len(s) <= i <= s.len(),
    ensures
        parent_dirs(s.take(i)) == parent_dirs(s.skip(root_len(s)).take(i - root_len(s))),
        named_segs(s.take(i)) == named_segs(s.skip(root_len(s)).take(i - root_len(s))),
{
    let rl = root_len(s);
    if rl == 0 {
        assert(s.skip(0).take(i) =~= s.take(i));
    } else if rl == 1 {
        lemma_take_counts(s, i);
        assert(s.drop_first() =~= s.skip(1));
    } else {
        lemma_take_counts(s, i);
        lemma_take_counts(s.drop_first(), i - 1);
        assert(s.drop_first()[0] == s[1]);
        assert(s.drop_first().drop_first() =~= s.skip(2));
    }
}

/// **Empty input**: a path with no components normalizes to the empty output,
/// not to a failure.
pub proof fn lemma_empty_input()
    ensures
        spec_normalize(Seq::<Component>::empty()) == Some(Seq::<Component>::empty()),
{
}

} // verus!
