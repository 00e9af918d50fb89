//! Patterns and paths: when a registered pattern matches a concrete path,
//! and what its parameters capture.

use crate::segment::{is_literal, is_parameter, is_wildcard, segment_matches};
use vstd::prelude::*;

verus! {

/// Whether `pattern` matches `path`: segment by segment the pattern accepts
/// the path, and the two end together, unless the pattern ends in a
/// wildcard, which then stands for its own segment and for any number of
/// further ones.
pub open spec fn pattern_matches(pattern: Seq<Seq<char>>, path: Seq<Seq<char>>) -> bool {
    &&& pattern.len() <= path.len()
    &&& forall|i: int| 0 <= i < pattern.len() ==> segment_matches(#[trigger] pattern[i], path[i])
    &&& (pattern.len() == path.len() || (pattern.len() > 0 && is_wildcard(pattern.last())))
}

/// `pattern_matches` told from the front, for a pattern that continues
/// an earlier segment: `after_wildcard` says whether that segment was a
/// wildcard, so that an exhausted pattern may still swallow what is left.
pub open spec fn matches_from(
    pattern: Seq<Seq<char>>,
    path: Seq<Seq<char>>,
    after_wildcard: bool,
) -> bool
    decreases pattern.len(),
{
    if pattern.len() == 0 {
        path.len() == 0 || after_wildcard
    } else {
        &&& path.len() > 0
        &&& segment_matches(pattern[0], path[0])
        &&& matches_from(pattern.drop_first(), path.drop_first(), is_wildcard(pattern[0]))
    }
}

/// What the parameters of `pattern` capture from `path`: each parameter
/// name is bound to the segment that stands at its place. Where a name
/// occurs more than once, its first place counts.
pub open spec fn captures(pattern: Seq<Seq<char>>, path: Seq<Seq<char>>) -> Map<
    Seq<char>,
    Seq<char>,
>
    decreases pattern.len(),
{
    if pattern.len() == 0 || path.len() == 0 {
        Map::empty()
    } else {
        let later = captures(pattern.drop_first(), path.drop_first());
        if is_parameter(pattern[0]) {
            later.insert(pattern[0], path[0])
        } else {
            later
        }
    }
}

/// Whether two patterns collide, so that only one of them can be
/// registered: one is the beginning of the other, or the two are the same,
/// or at the first place where they differ one of them has a wildcard or a
/// parameter.
pub open spec fn collides(first: Seq<Seq<char>>, second: Seq<Seq<char>>) -> bool
    decreases first.len(),
{
    if first.len() == 0 || second.len() == 0 {
        true
    } else if first[0] == second[0] {
        collides(first.drop_first(), second.drop_first())
    } else {
        !is_literal(first[0]) || !is_literal(second[0])
    }
}

/// Colliding is mutual.
pub proof fn lemma_collides_symmetric(first: Seq<Seq<char>>, second: Seq<Seq<char>>)
    ensures
        collides(first, second) == collides(second, first),
    decreases first.len(),
{
    if first.len() > 0 && second.len() > 0 && first[0] == second[0] {
        lemma_collides_symmetric(first.drop_first(), second.drop_first());
    }
}

/// Two patterns that match one path collide.
pub proof fn lemma_matching_patterns_collide(
    first: Seq<Seq<char>>,
    second: Seq<Seq<char>>,
    path: Seq<Seq<char>>,
)
    requires
        pattern_matches(first, path),
        pattern_matches(second, path),
    ensures
        collides(first, second),
    decreases first.len(),
{
    if first.len() > 0 && second.len() > 0 {
        if first[0] == second[0] {
            let f = first.drop_first();
            let s = second.drop_first();
            let q = path.drop_first();
            if f.len() > 0 && s.len() > 0 {
                assert forall|i: int| 0 <= i < f.len() implies segment_matches(
                    #[trigger] f[i],
                    q[i],
                ) by {}
                assert forall|i: int| 0 <= i < s.len() implies segment_matches(
                    #[trigger] s[i],
                    q[i],
                ) by {}
                lemma_matching_patterns_collide(f, s, q);
            }
        }
    }
}

/// Told from the front, matching is the same relation.
pub proof fn lemma_matches_from(pattern: Seq<Seq<char>>, path: Seq<Seq<char>>, after_wildcard: bool)
    ensures
        matches_from(pattern, path, after_wildcard) <==> {
            &&& pattern.len() <= path.len()
            &&& forall|i: int|
                0 <= i < pattern.len() ==> segment_matches(#[trigger] pattern[i], path[i])
            &&& (pattern.len() == path.len() || if pattern.len() > 0 {
                is_wildcard(pattern.last())
            } else {
                after_wildcard
            })
        },
    decreases pattern.len(),
{
    if pattern.len() > 0 && path.len() > 0 {
        let p = pattern.drop_first();
        let q = path.drop_first();
        lemma_matches_from(p, q, is_wildcard(pattern[0]));
        if matches_from(pattern, path, after_wildcard) {
            assert forall|i: int| 0 <= i < pattern.len() implies segment_matches(
                #[trigger] pattern[i],
                path[i],
            ) by {
                if i > 0 {
                    assert(p[i - 1] == pattern[i]);
                }
            }
        }
    }
}

/// The names that a pattern captures are its parameter segments.
pub proof fn lemma_captures_names(pattern: Seq<Seq<char>>, path: Seq<Seq<char>>, name: Seq<char>)
    requires
        pattern.len() <= path.len(),
    ensures
        captures(pattern, path).contains_key(name) <==> is_parameter(name) && exists|i: int|
            0 <= i < pattern.len() && #[trigger] pattern[i] == name,
    decreases pattern.len(),
{
    if pattern.len() > 0 {
        let p = pattern.drop_first();
        let q = path.drop_first();
        lemma_captures_names(p, q, name);
        if is_parameter(name) && exists|i: int| 0 <= i < pattern.len() && #[trigger] pattern[i] == name {
            let i = choose|i: int| 0 <= i < pattern.len() && #[trigger] pattern[i] == name;
            if i > 0 {
                assert(p[i - 1] == name);
            }
        }
    }
}

/// A parameter is bound to the path segment at the first place where it
/// stands in the pattern.
pub proof fn lemma_captures_at(pattern: Seq<Seq<char>>, path: Seq<Seq<char>>, i: int)
    requires
        pattern.len() <= path.len(),
        0 <= i < pattern.len(),
        is_parameter(pattern[i]),
        forall|j: int| 0 <= j < i ==> #[trigger] pattern[j] != pattern[i],
    ensures
        captures(pattern, path).contains_key(pattern[i]),
        captures(pattern, path)[pattern[i]] == path[i],
    decreases pattern.len(),
{
    if i > 0 {
        let p = pattern.drop_first();
        let q = path.drop_first();
        assert forall|j: int| 0 <= j < i - 1 implies #[trigger] p[j] != p[i - 1] by {}
        lemma_captures_at(p, q, i - 1);
    }
}

} // verus!
