//! What a trie has registered, and how lookups and registrations relate to
//! it: a lookup finds exactly the registered pattern that matches the path.

use crate::model::{
    first_accepting, first_refusing, forest_wf, holds_below, lemma_first_accepting,
    lemma_first_refusing, lookup_first, matched_first, with_found_first, Node,
};
use crate::pattern::{captures, collides, matches_from};
use crate::segment::{is_literal, is_parameter, is_wildcard};
use vstd::prelude::*;

verus! {

/// The first node that finds a path decides the search.
pub proof fn lemma_lookup_first<T>(children: Seq<Node<T>>, path: Seq<Seq<char>>, level: int) -> (at:
    int)
    ensures
        match lookup_first(children, path, level) {
            Some(found) => {
                &&& 0 <= at < children.len()
                &&& children[at].lookup(path, level) == Some(found)
                &&& matched_first(children, path, level) == children[at].matched(path, level)
                &&& forall|j: int| 0 <= j < at ==> (#[trigger] children[j]).lookup(path, level) is None
            },
            None => forall|j: int|
                0 <= j < children.len() ==> (#[trigger] children[j]).lookup(path, level) is None,
        },
    decreases children.len(),
{
    if children.len() == 0 {
        0
    } else if children[0].lookup(path, level) is Some {
        0
    } else {
        let rest = children.drop_first();
        let at = lemma_lookup_first(rest, path, level);
        assert forall|j: int| 0 <= j < children.len() && (lookup_first(rest, path, level) is Some
            ==> j < at + 1) implies (#[trigger] children[j]).lookup(path, level) is None by {
            if j > 0 {
                assert(rest[j - 1] == children[j]);
            }
        }
        at + 1
    }
}

/// A node that holds an item at the end of a matching pattern finds the
/// item, with what the pattern captures.
pub proof fn lemma_held_is_found<T>(
    node: Node<T>,
    catch_all: bool,
    path: Seq<Seq<char>>,
    level: int,
    pattern: Seq<Seq<char>>,
    item: T,
)
    requires
        node.wf(node is Wildcard),
        node matches Node::Leaf(_, flag) ==> flag == catch_all,
        0 <= level <= path.len(),
        node.holds(pattern, item),
        matches_from(pattern, path.skip(level), catch_all),
    ensures
        node.lookup(path, level) == Some((item, captures(pattern, path.skip(level)))),
    decreases node,
{
    let rest = path.skip(level);
    match node {
        Node::Leaf(_, _) => {},
        Node::Wildcard(children) => {
            assert(rest.drop_first() =~= path.skip(level + 1));
            lemma_held_below_is_found(children, true, path, level + 1, pattern.drop_first(), item);
        },
        Node::Specific(name, children) => {
            assert(rest.drop_first() =~= path.skip(level + 1));
            lemma_held_below_is_found(children, false, path, level + 1, pattern.drop_first(), item);
        },
        Node::Parameter(name, children) => {
            assert(rest.drop_first() =~= path.skip(level + 1));
            lemma_held_below_is_found(children, false, path, level + 1, pattern.drop_first(), item);
        },
    }
}

/// Well-formed siblings, one of which holds an item at the end of a
/// matching pattern, find the item: no sibling before it finds anything.
pub proof fn lemma_held_below_is_found<T>(
    children: Seq<Node<T>>,
    catch_all: bool,
    path: Seq<Seq<char>>,
    level: int,
    pattern: Seq<Seq<char>>,
    item: T,
)
    requires
        forest_wf(children, catch_all),
        0 <= level <= path.len(),
        holds_below(children, pattern, item),
        matches_from(pattern, path.skip(level), catch_all),
    ensures
        lookup_first(children, path, level) == Some((item, captures(pattern, path.skip(level)))),
    decreases children,
{
    let i = choose|i: int| 0 <= i < children.len() && (#[trigger] children[i]).holds(pattern, item);
    lemma_held_is_found(children[i], catch_all, path, level, pattern, item);
    let at = lemma_lookup_first(children, path, level);
}

/// What a node finds, it holds at the end of a pattern that matches the
/// path and captures what was found with the item.
pub proof fn lemma_found_is_held<T>(
    node: Node<T>,
    catch_all: bool,
    path: Seq<Seq<char>>,
    level: int,
) -> (pattern: Seq<Seq<char>>)
    requires
        node.wf(node is Wildcard),
        node matches Node::Leaf(_, flag) ==> flag == catch_all,
        0 <= level <= path.len(),
        node.lookup(path, level) is Some,
    ensures
        pattern == node.matched(path, level),
        match node.lookup(path, level) {
            Some((item, bound)) => {
                &&& node.holds(pattern, item)
                &&& matches_from(pattern, path.skip(level), catch_all)
                &&& bound == captures(pattern, path.skip(level))
            },
            None => false,
        },
    decreases node,
{
    let rest = path.skip(level);
    match node {
        Node::Leaf(_, _) => Seq::empty(),
        Node::Wildcard(children) => {
            assert(rest.drop_first() =~= path.skip(level + 1));
            let below = lemma_found_below_is_held(children, true, path, level + 1);
            let pattern = seq![node.label()] + below;
            assert(pattern.drop_first() =~= below);
            pattern
        },
        Node::Specific(name, children) => {
            assert(rest.drop_first() =~= path.skip(level + 1));
            let below = lemma_found_below_is_held(children, false, path, level + 1);
            let pattern = seq![node.label()] + below;
            assert(pattern.drop_first() =~= below);
            pattern
        },
        Node::Parameter(name, children) => {
            assert(rest.drop_first() =~= path.skip(level + 1));
            let below = lemma_found_below_is_held(children, false, path, level + 1);
            let pattern = seq![node.label()] + below;
            assert(pattern.drop_first() =~= below);
            pattern
        },
    }
}

/// What well-formed siblings find, one of them holds at the end of a
/// pattern that matches the path and captures what was found with the item.
pub proof fn lemma_found_below_is_held<T>(
    children: Seq<Node<T>>,
    catch_all: bool,
    path: Seq<Seq<char>>,
    level: int,
) -> (pattern: Seq<Seq<char>>)
    requires
        forest_wf(children, catch_all),
        0 <= level <= path.len(),
        lookup_first(children, path, level) is Some,
    ensures
        pattern == matched_first(children, path, level),
        match lookup_first(children, path, level) {
            Some((item, bound)) => {
                &&& holds_below(children, pattern, item)
                &&& matches_from(pattern, path.skip(level), catch_all)
                &&& bound == captures(pattern, path.skip(level))
            },
            None => false,
        },
    decreases children,
{
    let at = lemma_lookup_first(children, path, level);
    lemma_found_is_held(children[at], catch_all, path, level)
}


/// A new branch holds its item at the end of the path it spells, and
/// nothing else.
pub proof fn lemma_branch_holds<T>(
    path: Seq<Seq<char>>,
    level: int,
    item: T,
    pattern: Seq<Seq<char>>,
    value: T,
)
    requires
        0 <= level <= path.len(),
    ensures
        Node::branch(path, level, item).holds(pattern, value) <==> pattern == path.skip(level)
            && value == item,
    decreases path.len() - level,
{
    let rest = path.skip(level);
    if level < path.len() {
        let below = Node::branch(path, level + 1, item);
        lemma_branch_holds(path, level + 1, item, pattern.drop_first(), value);
        assert(rest.drop_first() =~= path.skip(level + 1));
        assert(seq![below][0] == below);
        if Node::branch(path, level, item).holds(pattern, value) {
            assert(pattern[0] =~= rest[0]);
            assert(pattern =~= seq![pattern[0]] + pattern.drop_first());
            assert(rest =~= seq![rest[0]] + rest.drop_first());
        }
    } else {
        assert(pattern.len() == 0 <==> pattern =~= rest);
    }
}

/// A registration adds one pattern with its item to what the nodes below
/// `node` hold, and takes nothing away.
pub proof fn lemma_insert_registers<T>(
    node: Node<T>,
    path: Seq<Seq<char>>,
    level: int,
    item: T,
    pattern: Seq<Seq<char>>,
    value: T,
)
    requires
        0 <= level <= path.len(),
        node.insert(path, level, item) is Ok,
    ensures
        holds_below(node.insert(path, level, item)->Ok_0.children(), pattern, value) <==> holds_below(
            node.children(),
            pattern,
            value,
        ) || (pattern == path.skip(level) && value == item),
    decreases path.len() - level,
{
    let children = node.children();
    let after = node.insert(path, level, item)->Ok_0.children();
    let rest = path.skip(level);
    lemma_branch_holds(path, level, item, pattern, value);
    if level >= path.len() {
        let leaf = Node::branch(path, level, item);
        assert(after[0] == leaf);
    } else {
        let seg = path[level];
        lemma_first_accepting(children, seg);
        match first_accepting(children, seg) {
            Some(i) => {
                let child = children[i];
                assert(rest.drop_first() =~= path.skip(level + 1));
                assert(rest =~= seq![seg] + rest.drop_first());
                if pattern.len() > 0 {
                    lemma_insert_registers(child, path, level + 1, item, pattern.drop_first(), value);
                    assert(pattern =~= seq![pattern[0]] + pattern.drop_first());
                    if child is Wildcard && is_wildcard(pattern[0]) {
                        assert(pattern[0] =~= seg);
                    }
                }
                if holds_below(children, pattern, value) {
                    let j = choose|j: int| 0 <= j < children.len() && (#[trigger] children[j]).holds(pattern, value);
                    assert(after[j].holds(pattern, value));
                }
                if pattern == rest && value == item {
                    assert(after[i].holds(pattern, value));
                }
            },
            None => {
                if holds_below(children, pattern, value) {
                    let j = choose|j: int| 0 <= j < children.len() && (#[trigger] children[j]).holds(pattern, value);
                    assert(after[j].holds(pattern, value));
                }
                if pattern == rest && value == item {
                    assert(after[children.len() as int].holds(pattern, value));
                }
            },
        }
    }
}

/// Putting back the item that a lookup found changes nothing.
pub proof fn lemma_with_found_same<T>(node: Node<T>, path: Seq<Seq<char>>, level: int)
    ensures
        match node.lookup(path, level) {
            Some((item, _)) => node.with_found(path, level, item) == node,
            None => true,
        },
    decreases node,
{
    match node {
        Node::Leaf(_, _) => {},
        Node::Wildcard(children) => {
            lemma_with_found_first_same(children, path, level + 1);
        },
        Node::Specific(_, children) => {
            lemma_with_found_first_same(children, path, level + 1);
        },
        Node::Parameter(_, children) => {
            lemma_with_found_first_same(children, path, level + 1);
        },
    }
}

/// Putting back the item that a lookup found among siblings changes nothing.
pub proof fn lemma_with_found_first_same<T>(children: Seq<Node<T>>, path: Seq<Seq<char>>, level: int)
    ensures
        match lookup_first(children, path, level) {
            Some((item, _)) => with_found_first(children, path, level, item) == children,
            None => true,
        },
    decreases children,
{
    if children.len() > 0 {
        let rest = children.drop_first();
        match lookup_first(children, path, level) {
            Some((item, _)) => {
                if children[0].lookup(path, level) is Some {
                    lemma_with_found_same(children[0], path, level);
                } else {
                    lemma_with_found_first_same(rest, path, level);
                }
            },
            None => {},
        }
    }
}

/// Replacing the item that a lookup finds keeps the node well-formed.
pub proof fn lemma_with_found_keeps_wf<T>(
    node: Node<T>,
    catch_all: bool,
    path: Seq<Seq<char>>,
    level: int,
    item: T,
)
    requires
        node.wf(catch_all),
    ensures
        node.with_found(path, level, item).wf(catch_all),
        node.with_found(path, level, item).full() == node.full(),
        node.with_found(path, level, item) is Wildcard == node is Wildcard,
        node.with_found(path, level, item) is Specific == node is Specific,
        node is Specific ==> node.with_found(path, level, item)->Specific_0 == node->Specific_0,
        node matches Node::Leaf(_, flag) ==> node.with_found(path, level, item) matches Node::Leaf(
            _,
            kept,
        ) && kept == flag,
        node.with_found(path, level, item) is Leaf == node is Leaf,
    decreases node, 0nat,
{
    match node {
        Node::Leaf(_, _) => {},
        Node::Wildcard(children) => {
            lemma_with_found_first_keeps_wf(children, catch_all, path, level + 1, item);
        },
        Node::Specific(_, children) => {
            lemma_with_found_first_keeps_wf(children, catch_all, path, level + 1, item);
        },
        Node::Parameter(_, children) => {
            lemma_with_found_first_keeps_wf(children, catch_all, path, level + 1, item);
        },
    }
}

/// Replacing the item that a lookup finds among siblings keeps them
/// well-formed.
pub proof fn lemma_with_found_first_keeps_wf<T>(
    children: Seq<Node<T>>,
    catch_all: bool,
    path: Seq<Seq<char>>,
    level: int,
    item: T,
)
    requires
        forest_wf(children, catch_all),
    ensures
        forest_wf(with_found_first(children, path, level, item), catch_all),
        with_found_first(children, path, level, item).len() == children.len(),
    decreases children, 1nat,
{
    let after = with_found_first(children, path, level, item);
    if children.len() > 0 {
        lemma_with_found_all(children, catch_all, path, level, item, 0);
        assert forall|i: int| 0 <= i < after.len() implies {
            &&& (#[trigger] after[i]).wf(after[i] is Wildcard)
            &&& after[i].full()
            &&& (after[i] matches Node::Leaf(_, flag) ==> flag == catch_all)
            &&& after[i] is Specific == children[i] is Specific
            &&& (children[i] is Specific ==> after[i]->Specific_0 == children[i]->Specific_0)
        } by {
            lemma_with_found_all(children, catch_all, path, level, item, i);
        }
    }
}

/// Replacing the item that a lookup finds among siblings touches at most
/// the item of one leaf: every sibling keeps its kind, its name and its shape.
pub proof fn lemma_with_found_all<T>(
    children: Seq<Node<T>>,
    catch_all: bool,
    path: Seq<Seq<char>>,
    level: int,
    item: T,
    i: int,
)
    requires
        forest_wf(children, catch_all),
        0 <= i < children.len(),
    ensures
        with_found_first(children, path, level, item).len() == children.len(),
        ({
            let after = with_found_first(children, path, level, item);
            &&& after[i].wf(after[i] is Wildcard)
            &&& after[i].full()
            &&& (after[i] matches Node::Leaf(_, flag) ==> flag == catch_all)
            &&& after[i] is Specific == children[i] is Specific
            &&& (children[i] is Specific ==> after[i]->Specific_0 == children[i]->Specific_0)
        }),
    decreases children, 0nat,
{
    let rest = children.drop_first();
    lemma_with_found_keeps_wf(children[0], children[0] is Wildcard, path, level, item);
    if children[0].lookup(path, level) is None {
        assert(forest_wf(rest, catch_all)) by {
            assert forall|k: int| 0 <= k < rest.len() implies (#[trigger] rest[k]) == children[k
                + 1] by {}
        }
        if i > 0 {
            lemma_with_found_all(rest, catch_all, path, level, item, i - 1);
        } else if rest.len() > 0 {
            lemma_with_found_all(rest, catch_all, path, level, item, 0);
        }
    }
}

/// A well-formed node that leads to a leaf holds something, at the end of
/// a pattern that begins with the node's own segment.
pub proof fn lemma_full_holds<T>(node: Node<T>, catch_all: bool) -> (held: (Seq<Seq<char>>, T))
    requires
        node.wf(catch_all),
        node.full(),
    ensures
        node.holds(held.0, held.1),
        !(node is Leaf) ==> held.0.len() > 0 && held.0.first() == node.label(),
    decreases node,
{
    match node {
        Node::Leaf(item, _) => (Seq::empty(), item),
        Node::Wildcard(children) => {
            let below = lemma_full_holds(children[0], children[0] is Wildcard);
            let pattern = seq![node.label()] + below.0;
            assert(pattern.drop_first() =~= below.0);
            (pattern, below.1)
        },
        Node::Specific(_, children) => {
            let below = lemma_full_holds(children[0], children[0] is Wildcard);
            let pattern = seq![node.label()] + below.0;
            assert(pattern.drop_first() =~= below.0);
            (pattern, below.1)
        },
        Node::Parameter(_, children) => {
            let below = lemma_full_holds(children[0], children[0] is Wildcard);
            let pattern = seq![node.label()] + below.0;
            assert(pattern.drop_first() =~= below.0);
            (pattern, below.1)
        },
    }
}

/// A registration is refused exactly when the path collides with a
/// pattern that the nodes below `node` hold.
pub proof fn lemma_insert_refused<T>(
    node: Node<T>,
    catch_all: bool,
    path: Seq<Seq<char>>,
    level: int,
    item: T,
)
    requires
        node.wf(catch_all),
        !(node is Leaf),
        0 <= level <= path.len(),
    ensures
        node.insert(path, level, item) is Err <==> exists|pattern: Seq<Seq<char>>, value: T|
            #[trigger] holds_below(node.children(), pattern, value) && collides(
                pattern,
                path.skip(level),
            ),
    decreases path.len() - level,
{
    let children = node.children();
    let rest = path.skip(level);
    if level >= path.len() {
        if children.len() > 0 {
            let held = lemma_full_holds(children[0], children[0] is Wildcard);
            assert(holds_below(children, held.0, held.1) && collides(held.0, rest));
        }
    } else {
        let seg = path[level];
        assert(rest.drop_first() =~= path.skip(level + 1));
        lemma_first_refusing(children, seg);
        lemma_first_accepting(children, seg);
        match first_refusing(children, seg) {
            Some(i) => {
                let held = lemma_full_holds(children[i], children[i] is Wildcard);
                assert(children[i].wf(children[i] is Wildcard));
                assert(holds_below(children, held.0, held.1) && collides(held.0, rest));
            },
            None => match first_accepting(children, seg) {
                Some(i) => {
                    let child = children[i];
                    lemma_insert_refused(child, child is Wildcard, path, level + 1, item);
                    if child.insert(path, level + 1, item) is Err {
                        let (below, value) = choose|below: Seq<Seq<char>>, value: T|
                            #[trigger] holds_below(child.children(), below, value) && collides(
                                below,
                                path.skip(level + 1),
                            );
                        let pattern = seq![seg] + below;
                        assert(pattern.drop_first() =~= below);
                        assert(holds_below(children, pattern, value) && collides(pattern, rest));
                    }
                    if exists|pattern: Seq<Seq<char>>, value: T| #[trigger]
                        holds_below(children, pattern, value) && collides(pattern, rest) {
                        let (pattern, value) = choose|pattern: Seq<Seq<char>>, value: T|
                            #[trigger] holds_below(children, pattern, value) && collides(
                                pattern,
                                rest,
                            );
                        let j = choose|j: int|
                            0 <= j < children.len() && (#[trigger] children[j]).holds(pattern, value);
                        if j != i {
                            assert(children[j].wf(false));
                            assert(children[i].wf(false));
                        } else {
                            if child is Wildcard {
                                assert(pattern[0] =~= seg);
                            }
                            assert(holds_below(child.children(), pattern.drop_first(), value)
                                && collides(pattern.drop_first(), path.skip(level + 1)));
                        }
                    }
                },
                None => {
                    if children.len() > 0 && !is_literal(seg) {
                        let held = lemma_full_holds(children[0], children[0] is Wildcard);
                        assert(holds_below(children, held.0, held.1) && collides(held.0, rest));
                    } else {
                        if exists|pattern: Seq<Seq<char>>, value: T| #[trigger]
                            holds_below(children, pattern, value) && collides(pattern, rest) {
                            let (pattern, value) = choose|pattern: Seq<Seq<char>>, value: T|
                                #[trigger] holds_below(children, pattern, value) && collides(
                                    pattern,
                                    rest,
                                );
                            let j = choose|j: int|
                                0 <= j < children.len() && (#[trigger] children[j]).holds(
                                    pattern,
                                    value,
                                );
                            assert(children[j].wf(false));
                        }
                    }
                },
            },
        }
    }
}

/// Replacing the item that a lookup finds rebinds the pattern that leads
/// to it, and no other.
pub proof fn lemma_with_found_holds<T>(
    node: Node<T>,
    catch_all: bool,
    path: Seq<Seq<char>>,
    level: int,
    item: T,
    pattern: Seq<Seq<char>>,
    value: T,
)
    requires
        node.wf(node is Wildcard),
        node matches Node::Leaf(_, flag) ==> flag == catch_all,
        0 <= level <= path.len(),
        node.lookup(path, level) is Some,
    ensures
        node.with_found(path, level, item).holds(pattern, value) <==> if pattern == node.matched(
            path,
            level,
        ) {
            value == item
        } else {
            node.holds(pattern, value)
        },
    decreases node,
{
    let found = node.matched(path, level);
    match node {
        Node::Leaf(_, _) => {
            assert(pattern.len() == 0 <==> pattern =~= found);
        },
        Node::Wildcard(children) => {
            let below = matched_first(children, path, level + 1);
            assert(found.drop_first() =~= below);
            if pattern.len() > 0 {
                lemma_with_found_first_holds(children, true, path, level + 1, item, pattern.drop_first(), value);
                assert(pattern =~= seq![pattern[0]] + pattern.drop_first());
                if is_wildcard(pattern[0]) {
                    assert(pattern[0] =~= seq!['*']);
                }
            }
        },
        Node::Specific(name, children) => {
            let below = matched_first(children, path, level + 1);
            assert(found.drop_first() =~= below);
            if pattern.len() > 0 {
                lemma_with_found_first_holds(children, false, path, level + 1, item, pattern.drop_first(), value);
                assert(pattern =~= seq![pattern[0]] + pattern.drop_first());
            }
        },
        Node::Parameter(name, children) => {
            let below = matched_first(children, path, level + 1);
            assert(found.drop_first() =~= below);
            if pattern.len() > 0 {
                lemma_with_found_first_holds(children, false, path, level + 1, item, pattern.drop_first(), value);
                assert(pattern =~= seq![pattern[0]] + pattern.drop_first());
            }
        },
    }
}

/// Replacing the item that a lookup finds among well-formed siblings
/// rebinds the pattern that leads to it, and no other.
pub proof fn lemma_with_found_first_holds<T>(
    children: Seq<Node<T>>,
    catch_all: bool,
    path: Seq<Seq<char>>,
    level: int,
    item: T,
    pattern: Seq<Seq<char>>,
    value: T,
)
    requires
        forest_wf(children, catch_all),
        0 <= level <= path.len(),
        lookup_first(children, path, level) is Some,
    ensures
        holds_below(with_found_first(children, path, level, item), pattern, value)
            <==> if pattern == matched_first(children, path, level) {
            value == item
        } else {
            holds_below(children, pattern, value)
        },
    decreases children,
{
    let after = with_found_first(children, path, level, item);
    let found = matched_first(children, path, level);
    let at = lemma_lookup_first(children, path, level);
    lemma_with_found_holds(children[at], catch_all, path, level, item, pattern, value);
    lemma_with_found_first_at(children, path, level, item, at);
    assert(after[at].holds(pattern, value) <==> if pattern == found {
        value == item
    } else {
        children[at].holds(pattern, value)
    });
    assert forall|j: int| 0 <= j < children.len() && j != at implies !(#[trigger] children[j]).holds(
        found,
        value,
    ) by {}
    if pattern != found && holds_below(children, pattern, value) {
        let j = choose|j: int| 0 <= j < children.len() && (#[trigger] children[j]).holds(pattern, value);
        assert(after[j].holds(pattern, value));
    }
}

/// Replacing the item that a lookup finds among siblings changes the
/// first sibling that finds the path, and leaves the others.
pub proof fn lemma_with_found_first_at<T>(
    children: Seq<Node<T>>,
    path: Seq<Seq<char>>,
    level: int,
    item: T,
    at: int,
)
    requires
        0 <= at < children.len(),
        children[at].lookup(path, level) is Some,
        forall|j: int| 0 <= j < at ==> (#[trigger] children[j]).lookup(path, level) is None,
    ensures
        with_found_first(children, path, level, item) == children.update(
            at,
            children[at].with_found(path, level, item),
        ),
    decreases children.len(),
{
    let rest = children.drop_first();
    if at > 0 {
        assert forall|j: int| 0 <= j < at - 1 implies (#[trigger] rest[j]).lookup(path, level) is None by {}
        lemma_with_found_first_at(rest, path, level, item, at - 1);
    }
}

/// What a well-formed node holds does not collide: two patterns that it
/// holds are the same pattern with the same item, or they do not collide.
pub proof fn lemma_held_do_not_collide<T>(
    node: Node<T>,
    catch_all: bool,
    first: Seq<Seq<char>>,
    item: T,
    second: Seq<Seq<char>>,
    value: T,
)
    requires
        node.wf(catch_all),
        node.holds(first, item),
        node.holds(second, value),
    ensures
        (first == second && item == value) || !collides(first, second),
    decreases node,
{
    match node {
        Node::Leaf(_, _) => {
        },
        Node::Wildcard(children) => {
            assert(first[0] =~= second[0]);
            lemma_held_below_do_not_collide(
                children,
                catch_all,
                first.drop_first(),
                item,
                second.drop_first(),
                value,
            );
            assert(second =~= seq![second[0]] + second.drop_first());
        },
        Node::Specific(_, children) => {
            lemma_held_below_do_not_collide(
                children,
                catch_all,
                first.drop_first(),
                item,
                second.drop_first(),
                value,
            );
            assert(second =~= seq![second[0]] + second.drop_first());
        },
        Node::Parameter(_, children) => {
            lemma_held_below_do_not_collide(
                children,
                catch_all,
                first.drop_first(),
                item,
                second.drop_first(),
                value,
            );
            assert(second =~= seq![second[0]] + second.drop_first());
        },
    }
}

/// What well-formed siblings hold does not collide.
pub proof fn lemma_held_below_do_not_collide<T>(
    children: Seq<Node<T>>,
    catch_all: bool,
    first: Seq<Seq<char>>,
    item: T,
    second: Seq<Seq<char>>,
    value: T,
)
    requires
        forest_wf(children, catch_all),
        holds_below(children, first, item),
        holds_below(children, second, value),
    ensures
        (first == second && item == value) || !collides(first, second),
    decreases children,
{
    let i = choose|i: int| 0 <= i < children.len() && (#[trigger] children[i]).holds(first, item);
    let j = choose|j: int| 0 <= j < children.len() && (#[trigger] children[j]).holds(second, value);
    if i == j {
        lemma_held_do_not_collide(children[i], children[i] is Wildcard, first, item, second, value);
    }
}

} // verus!
