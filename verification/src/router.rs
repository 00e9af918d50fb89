//! The routing trie: insertion with collision detection, and lookup with
//! parameter capture.

use crate::model::{
    first_accepting, first_refusing, forest_wf, holds_below, lemma_first_accepting, lemma_first_refusing,
    lemma_insert_keeps_wf, lemma_one_accepts, lookup_first, matched_first, with_found_first,
    Collision, Found, Node,
};
use crate::params::Params;
use crate::pattern::{captures, collides, lemma_matches_from, pattern_matches};
use crate::registry::{
    lemma_found_below_is_held, lemma_held_below_do_not_collide, lemma_held_below_is_found,
    lemma_insert_refused,
    lemma_insert_registers, lemma_with_found_first_holds, lemma_with_found_first_keeps_wf,
    lemma_with_found_first_same,
};
use crate::route::Route;
use crate::segment::{is_parameter_segment, is_wildcard, is_wildcard_segment, str_eq};
use vstd::prelude::*;

verus! {

/// A node of the trie.
pub enum Tree<T> {
    Wildcard(Vec<Tree<T>>),
    Specific(String, Vec<Tree<T>>),
    Parameter(String, Vec<Tree<T>>),
    Leaf(T, bool),
}

/// A router: the root of a trie. The root stands for no segment; the nodes
/// below it stand for the first segments of the registered paths.
pub struct Router<T> {
    pub tree: Tree<T>,
}

impl<T> View for Tree<T> {
    type V = Node<T>;

    open spec fn view(&self) -> Node<T>
        decreases self,
    {
        match self {
            Tree::Wildcard(children) => Node::Wildcard(view_all(children@)),
            Tree::Specific(name, children) => Node::Specific(name@, view_all(children@)),
            Tree::Parameter(name, children) => Node::Parameter(name@, view_all(children@)),
            Tree::Leaf(item, catch_all) => Node::Leaf(*item, *catch_all),
        }
    }
}

/// The models of a sequence of nodes, in order.
pub open spec fn view_all<T>(trees: Seq<Tree<T>>) -> Seq<Node<T>>
    decreases trees,
{
    Seq::new(trees.len(), |i: int| if 0 <= i < trees.len() { trees[i]@ } else { arbitrary() })
}

/// Why a path could not be registered.
#[derive(Debug, Clone)]
pub enum AddRouteError {
    AddToLeafLevel,
    MismatchTypes(String, String),
    MismatchParameter(String, String),
}

impl View for AddRouteError {
    type V = Collision;

    open spec fn view(&self) -> Collision {
        match self {
            AddRouteError::AddToLeafLevel => Collision::AddToLeafLevel,
            AddRouteError::MismatchTypes(first, second) => Collision::MismatchTypes(
                first@,
                second@,
            ),
            AddRouteError::MismatchParameter(first, second) => Collision::MismatchParameter(
                first@,
                second@,
            ),
        }
    }
}

impl AddRouteError {
    /// The text that reports this error.
    pub fn message(&self) -> (text: String)
        ensures
            text@ == self@.message(),
    {
        match self {
            AddRouteError::AddToLeafLevel => String::from_str(
                "tried to add a path so that a leaf would be on another longer path",
            ),
            AddRouteError::MismatchTypes(first, second) => {
                let mut text = String::from_str(
                    "tried to add path so that two different types of parts collide: ",
                );
                text.append(first.as_str());
                text.append(" and ");
                text.append(second.as_str());
                text
            },
            AddRouteError::MismatchParameter(first, second) => {
                let mut text = String::from_str(
                    "tried to add path so that a paramter and another part collide: ",
                );
                text.append(first.as_str());
                text.append(" and ");
                text.append(second.as_str());
                text
            },
        }
    }
}

/// Whether `tree` has the shape that registration keeps, its leaves below
/// carrying the flag `catch_all`.
fn node_is_well_formed<T>(tree: &Tree<T>, catch_all: bool) -> (ok: bool)
    ensures
        ok == tree@.wf(catch_all),
    decreases *tree,
{
    match tree {
        Tree::Leaf(_, _) => true,
        Tree::Wildcard(children) => children_are_well_formed(children, catch_all),
        Tree::Specific(name, children) => {
            !is_wildcard_segment(name.as_str()) && !is_parameter_segment(name.as_str())
                && children_are_well_formed(children, catch_all)
        },
        Tree::Parameter(name, children) => {
            is_parameter_segment(name.as_str()) && children_are_well_formed(children, catch_all)
        },
    }
}

/// Whether the name of the specific node at `at` differs from the names of
/// all specific nodes before it.
fn name_is_new<T>(children: &Vec<Tree<T>>, at: usize) -> (ok: bool)
    requires
        at < children@.len(),
        children@[at as int] is Specific,
    ensures
        ok == forall|j: int|
            0 <= j < at && (#[trigger] view_all(children@)[j]) is Specific ==> view_all(
                children@,
            )[j]->Specific_0 != view_all(children@)[at as int]->Specific_0,
{
    let ghost nodes = view_all(children@);
    let mut j: usize = 0;
    while j < at
        invariant
            j <= at < children@.len(),
            nodes == view_all(children@),
            children@[at as int] is Specific,
            forall|k: int|
                0 <= k < j && (#[trigger] nodes[k]) is Specific ==> nodes[k]->Specific_0
                    != nodes[at as int]->Specific_0,
        decreases at - j,
    {
        match (&children[j], &children[at]) {
            (Tree::Specific(earlier, _), Tree::Specific(name, _)) => {
                if str_eq(earlier.as_str(), name.as_str()) {
                    assert(nodes[j as int] is Specific);
                    return false;
                }
            },
            _ => {},
        }
        j += 1;
    }
    true
}

/// Whether `children` have the shape that registration keeps, a leaf among
/// them carrying the flag `catch_all`.
fn children_are_well_formed<T>(children: &Vec<Tree<T>>, catch_all: bool) -> (ok: bool)
    ensures
        ok == forest_wf(view_all(children@), catch_all),
    decreases children@,
{
    let ghost nodes = view_all(children@);
    let n = children.len();
    let mut i: usize = 0;
    while i < n
        invariant
            i <= n == children@.len(),
            nodes == view_all(children@),
            forall|k: int|
                0 <= k < i ==> {
                    &&& (#[trigger] nodes[k]).wf(nodes[k] is Wildcard)
                    &&& nodes[k].full()
                    &&& (nodes[k] matches Node::Leaf(_, flag) ==> flag == catch_all)
                    &&& (n > 1 ==> nodes[k] is Specific)
                },
            forall|k: int, j: int|
                0 <= j < k < i && (#[trigger] nodes[k]) is Specific && (#[trigger] nodes[j]) is Specific
                    ==> nodes[j]->Specific_0 != nodes[k]->Specific_0,
        decreases n - i,
    {
        let child = &children[i];
        assert(nodes[i as int] == child@);
        assert(forall|trees: Seq<Tree<T>>| #[trigger] view_all(trees).len() == trees.len());
        let ok = match child {
            Tree::Leaf(_, flag) => n == 1 && *flag == catch_all,
            Tree::Wildcard(below) => {
                assert(child@.children() == view_all(below@));
                n == 1 && below.len() > 0 && node_is_well_formed(child, true)
            },
            Tree::Parameter(_, below) => {
                assert(child@.children() == view_all(below@));
                n == 1 && below.len() > 0 && node_is_well_formed(child, false)
            },
            Tree::Specific(_, below) => {
                assert(child@.children() == view_all(below@));
                below.len() > 0 && node_is_well_formed(child, false) && name_is_new(children, i)
            },
        };
        if !ok {
            return false;
        }
        i += 1;
    }
    true
}

/// Looks among `children` for the node that the segment at `level`
/// continues in. A node that refuses the segment ends the search with its
/// collision.
fn find_matching_child<T>(children: &Vec<Tree<T>>, route: &Route, level: usize) -> (res: Result<
    Option<usize>,
    AddRouteError,
>)
    requires
        level < route@.len(),
        forall|i: int, j: int|
            0 <= i < children@.len() && 0 <= j < children@.len() && (#[trigger] children@[i])@.accepts(
                route@[level as int],
            ) && (#[trigger] children@[j])@.accepts(route@[level as int]) ==> i == j,
    ensures
        match res {
            Err(e) => match first_refusing(view_all(children@), route@[level as int]) {
                Some(i) => e@ == view_all(children@)[i].refusal(route@[level as int]),
                None => false,
            },
            Ok(at) => {
                &&& first_refusing(view_all(children@), route@[level as int]) is None
                &&& match at {
                    Some(i) => first_accepting(view_all(children@), route@[level as int]) == Some(
                        i as int,
                    ),
                    None => first_accepting(view_all(children@), route@[level as int]) is None,
                }
            },
        },
{
    let seg = route.path[level];
    let ghost nodes = view_all(children@);
    proof {
        lemma_first_refusing(nodes, seg@);
        lemma_first_accepting(nodes, seg@);
    }
    let mut matching: Option<usize> = None;
    let mut idx: usize = 0;
    while idx < children.len()
        invariant
            idx <= children@.len(),
            level < route@.len(),
            nodes == view_all(children@),
            seg@ == route@[level as int],
            forall|j: int| 0 <= j < idx ==> !(#[trigger] nodes[j]).refuses(seg@),
            match matching {
                Some(i) => i < idx && nodes[i as int].accepts(seg@),
                None => forall|j: int| 0 <= j < idx ==> !(#[trigger] nodes[j]).accepts(seg@),
            },
        decreases children@.len() - idx,
    {
        proof {
            lemma_first_refusing(nodes, seg@);
            assert(nodes[idx as int] == children@[idx as int]@);
        }
        match &children[idx] {
            Tree::Leaf(_, _) => {
                return Err(AddRouteError::AddToLeafLevel);
            },
            Tree::Wildcard(_) => {
                if !is_wildcard_segment(seg) {
                    return Err(
                        AddRouteError::MismatchTypes("Wildcard".to_owned(), "Specific".to_owned()),
                    );
                } else {
                    matching = Some(idx);
                }
            },
            Tree::Specific(name, _) => {
                if str_eq(seg, name.as_str()) {
                    matching = Some(idx);
                }
            },
            Tree::Parameter(name, _) => {
                if str_eq(seg, name.as_str()) {
                    matching = Some(idx);
                } else {
                    return Err(AddRouteError::MismatchParameter(name.clone(), seg.to_owned()));
                }
            },
        }
        idx += 1;
    }
    Ok(matching)
}

/// Registers `route` with `item` below `tree`, whose nodes below stand at
/// depth `level`. On a collision the tree is left as it was.
fn add_route<T>(tree: &mut Tree<T>, route: &Route, level: usize, item: T) -> (res: Result<
    (),
    AddRouteError,
>)
    requires
        0 < route@.len(),
        level <= route@.len(),
        old(tree)@.wf(level > 0 && is_wildcard(route@[level - 1])),
    ensures
        match res {
            Ok(()) => old(tree)@.insert(route@, level as int, item) == Ok::<Node<T>, Collision>(
                final(tree)@,
            ),
            Err(e) => {
                &&& old(tree)@.insert(route@, level as int, item) == Err::<Node<T>, Collision>(e@)
                &&& final(tree)@ == old(tree)@
            },
        },
    decreases route@.len() - level,
{
    let ghost before = tree@;
    let children = match tree {
        Tree::Leaf(_, _) => {
            return Err(AddRouteError::AddToLeafLevel);
        },
        Tree::Specific(_, children) => children,
        Tree::Parameter(_, children) => children,
        Tree::Wildcard(children) => children,
    };
    let ghost nodes = view_all(children@);
    let ghost catch = level > 0 && is_wildcard(route@[level - 1]);
    assert(forall|i: int| 0 <= i < nodes.len() ==> (#[trigger] children@[i])@ == nodes[i]);
    assert(view_all(Seq::<Tree<T>>::empty()) =~= Seq::<Node<T>>::empty());
    if level == route.path.len() {
        if children.len() > 0 {
            return Err(AddRouteError::AddToLeafLevel);
        }
        let catch_all = is_wildcard_segment(route.path[level - 1]);
        children.push(Tree::Leaf(item, catch_all));
        assert(view_all(children@) =~= seq![Node::branch(route@, level as int, item)]);
        Ok(())
    } else {
        let ghost seg = route@[level as int];
        proof {
            lemma_one_accepts(nodes, catch, seg);
        }
        match find_matching_child(children, route, level) {
            Err(e) => Err(e),
            Ok(Some(idx)) => {
                proof {
                    lemma_first_accepting(nodes, seg);
                    let child = nodes[idx as int];
                    assert(child.wf(child is Wildcard));
                }
                let res = add_route(&mut children[idx], route, level + 1, item);
                assert(view_all(children@) =~= nodes.update(idx as int, children@[idx as int]@));
                proof {
                    if res is Err {
                        assert(view_all(children@) =~= nodes);
                    }
                }
                res
            },
            Ok(None) => {
                let name: &str = route.path[level];
                if is_wildcard_segment(name) {
                    if children.len() > 0 {
                        return Err(
                            AddRouteError::MismatchTypes(
                                "Specific/Parameter".to_owned(),
                                "Wildcard".to_owned(),
                            ),
                        );
                    }
                    children.push(Tree::Wildcard(Vec::new()));
                } else {
                    if is_parameter_segment(name) {
                        if children.len() > 0 {
                            return Err(
                                AddRouteError::MismatchParameter(
                                    name.to_owned(),
                                    "other".to_owned(),
                                ),
                            );
                        }
                        children.push(Tree::Parameter(name.to_owned(), Vec::new()));
                    } else {
                        children.push(Tree::Specific(name.to_owned(), Vec::new()));
                    }
                }
                let last = children.len() - 1;
                let res = add_route(&mut children[last], route, level + 1, item);
                assert(view_all(children@) =~= nodes.push(children@[last as int]@));
                res
            },
        }
    }
}

/// Searches `tree`, which stands at depth `level`, for `route`, and hands
/// out the value that the search ends in. The parameters met on the way
/// down are bound in `params` on the way back, so that a search that finds
/// nothing binds nothing.
fn find_route<'a, T>(
    tree: &'a mut Tree<T>,
    route: &Route,
    level: usize,
    params: &mut Params,
) -> (found: Option<&'a mut T>)
    requires
        level <= route@.len(),
    ensures
        match found {
            Some(item) => match old(tree)@.lookup(route@, level as int) {
                Some((stored, bound)) => {
                    &&& *item == stored
                    &&& final(params)@ == old(params)@.union_prefer_right(bound)
                    &&& final(tree)@ == old(tree)@.with_found(route@, level as int, *final(item))
                },
                None => false,
            },
            None => {
                &&& old(tree)@.lookup(route@, level as int) is None
                &&& final(params)@ == old(params)@
                &&& final(tree)@ == old(tree)@
            },
        },
    decreases *old(tree),
{
    if level == route.path.len() {
        match tree {
            Tree::Leaf(item, _) => {
                Some(item)
            },
            _ => None,
        }
    } else {
        match tree {
            Tree::Leaf(item, catch_all) => if *catch_all {
                Some(item)
            } else {
                None
            },
            Tree::Specific(name, children) => {
                if str_eq(name.as_str(), route.path[level]) {
                    find_first(children.as_mut_slice(), route, level + 1, params)
                } else {
                    None
                }
            },
            Tree::Parameter(name, children) => {
                match find_first(children.as_mut_slice(), route, level + 1, params) {
                    Some(item) => {
                        params.insert(name.clone(), route.path[level].to_owned());
                        Some(item)
                    },
                    None => None,
                }
            },
            Tree::Wildcard(children) => find_first(
                children.as_mut_slice(),
                route,
                level + 1,
                params,
            ),
        }
    }
}

/// Searches `children` in order, each with `find_route`, and stops at the
/// first that finds `route`.
fn find_first<'a, T>(
    children: &'a mut [Tree<T>],
    route: &Route,
    level: usize,
    params: &mut Params,
) -> (found: Option<&'a mut T>)
    requires
        level <= route@.len(),
    ensures
        match found {
            Some(item) => match lookup_first(view_all(old(children)@), route@, level as int) {
                Some((stored, bound)) => {
                    &&& *item == stored
                    &&& final(params)@ == old(params)@.union_prefer_right(bound)
                    &&& view_all(final(children)@) == with_found_first(
                        view_all(old(children)@),
                        route@,
                        level as int,
                        *final(item),
                    )
                },
                None => false,
            },
            None => {
                &&& lookup_first(view_all(old(children)@), route@, level as int) is None
                &&& final(params)@ == old(params)@
                &&& view_all(final(children)@) == view_all(old(children)@)
            },
        },
    decreases old(children)@,
{
    if children.len() == 0 {
        return None;
    }
    let (head, rest) = children.split_at_mut(1);
    assert(view_all(rest@) =~= view_all(old(children)@).drop_first());
    assert forall|a: Seq<Tree<T>>, b: Seq<Tree<T>>| #[trigger]
        view_all(a + b) == view_all(a) + view_all(b) by {}
    assert forall|a: Seq<Tree<T>>, x: Tree<T>| a.len() == 1 implies #[trigger] view_all(
        a.update(0, x),
    ) == seq![x@] by {}
    match find_route(&mut head[0], route, level, params) {
        Some(item) => Some(item),
        None => find_first(rest, route, level, params),
    }
}

impl<T> View for Router<T> {
    type V = Node<T>;

    open spec fn view(&self) -> Node<T> {
        self.tree@
    }
}

/// A router with no path registered: its root is a wildcard node with
/// nothing below it.
pub fn new_router<T>() -> (router: Router<T>)
    ensures
        router@ == Node::<T>::Wildcard(Seq::empty()),
        router.wf(),
        forall|pattern: Seq<Seq<char>>, item: T| !router.registered(pattern, item),
{
    let router = Router { tree: Tree::Wildcard(Vec::new()) };
    assert(router@.children() =~= Seq::empty());
    router
}

impl<T> Router<T> {
    /// The root is a wildcard node, and the trie below it has the shape
    /// that registration keeps.
    pub open spec fn wf(&self) -> bool {
        self@ is Wildcard && self@.wf(false)
    }

    /// Whether `pattern` is registered with `item`.
    pub open spec fn registered(&self, pattern: Seq<Seq<char>>, item: T) -> bool {
        holds_below(self@.children(), pattern, item)
    }

    /// The pattern that the search for `path` follows to what it finds.
    pub open spec fn matched(&self, path: Seq<Seq<char>>) -> Seq<Seq<char>> {
        matched_first(self@.children(), path, 0)
    }

    /// What a lookup of `path` finds: the nodes below the root are searched
    /// in order, each with its subtree, and the first leaf that the path
    /// reaches decides.
    pub open spec fn lookup(&self, path: Seq<Seq<char>>) -> Found<T> {
        lookup_first(self@.children(), path, 0)
    }

    /// A registered pattern answers for every path that it matches: the
    /// lookup finds the item registered with it, and the bindings are what
    /// the pattern captures from the path.
    pub proof fn lemma_registered_is_found(
        &self,
        pattern: Seq<Seq<char>>,
        item: T,
        path: Seq<Seq<char>>,
    )
        requires
            self.wf(),
            self.registered(pattern, item),
            pattern_matches(pattern, path),
        ensures
            self.lookup(path) == Some((item, captures(pattern, path))),
    {
        lemma_matches_from(pattern, path, false);
        assert(path.skip(0) =~= path);
        lemma_held_below_is_found(self@.children(), false, path, 0, pattern, item);
    }

    /// Whatever a lookup finds is registered, with the pattern that the
    /// search followed; that pattern matches the path, and the bindings are
    /// what it captures.
    pub proof fn lemma_found_is_registered(&self, path: Seq<Seq<char>>)
        requires
            self.wf(),
            self.lookup(path) is Some,
        ensures
            match self.lookup(path) {
                Some((item, bound)) => {
                    &&& self.registered(self.matched(path), item)
                    &&& pattern_matches(self.matched(path), path)
                    &&& bound == captures(self.matched(path), path)
                },
                None => false,
            },
    {
        let pattern = lemma_found_below_is_held(self@.children(), false, path, 0);
        lemma_matches_from(pattern, path, false);
        assert(path.skip(0) =~= path);
    }

    /// A path that no registered pattern matches is not found.
    pub proof fn lemma_unmatched_is_not_found(&self, path: Seq<Seq<char>>)
        requires
            self.wf(),
            forall|pattern: Seq<Seq<char>>, item: T|
                self.registered(pattern, item) ==> !pattern_matches(pattern, path),
        ensures
            self.lookup(path) is None,
    {
        if self.lookup(path) is Some {
            self.lemma_found_is_registered(path);
        }
    }

    /// No two registered patterns collide: a pattern is registered with one
    /// item only, and two different registered patterns do not collide.
    pub proof fn lemma_registered_do_not_collide(
        &self,
        first: Seq<Seq<char>>,
        item: T,
        second: Seq<Seq<char>>,
        value: T,
    )
        requires
            self.wf(),
            self.registered(first, item),
            self.registered(second, value),
        ensures
            (first == second && item == value) || !collides(first, second),
    {
        lemma_held_below_do_not_collide(self@.children(), false, first, item, second, value);
    }

    /// A path is refused exactly when it collides with a registered
    /// pattern; which item it comes with plays no part.
    pub proof fn lemma_refused_iff_collides(&self, path: Seq<Seq<char>>, item: T)
        requires
            self.wf(),
        ensures
            self@.insert(path, 0, item) is Err <==> exists|pattern: Seq<Seq<char>>, value: T|
                #[trigger] self.registered(pattern, value) && collides(pattern, path),
    {
        lemma_insert_refused(self@, false, path, 0, item);
        assert(path.skip(0) =~= path);
        let children = self@.children();
        if self@.insert(path, 0, item) is Err {
            let (pattern, value) = choose|pattern: Seq<Seq<char>>, value: T| #[trigger]
                holds_below(children, pattern, value) && collides(pattern, path.skip(0));
            assert(self.registered(pattern, value) && collides(pattern, path));
        }
    }

    /// Looking a path up twice finds the same twice. `after` is the router
    /// that a first lookup leaves when what it found is not written to: it
    /// has the model of the router before, and a lookup in it finds the same.
    pub proof fn lemma_lookup_twice(&self, after: &Router<T>, path: Seq<Seq<char>>)
        requires
            self@ is Wildcard,
            match self.lookup(path) {
                Some((item, _)) => after@ == Node::Wildcard(
                    with_found_first(self@.children(), path, 0, item),
                ),
                None => after@ == self@,
            },
        ensures
            after@ == self@,
            after.lookup(path) == self.lookup(path),
    {
        lemma_with_found_first_same(self@.children(), path, 0);
    }

    /// Whether the router has the shape that registration keeps. A router
    /// that was made by `new_router` and changed by `add_route` and through
    /// what `route` hands out has it; one whose tree was put together by
    /// hand may not.
    pub fn is_well_formed(&self) -> (ok: bool)
        ensures
            ok == self.wf(),
    {
        match &self.tree {
            Tree::Wildcard(children) => children_are_well_formed(children, false),
            _ => false,
        }
    }

    /// Registers `route` with `item`. A path that collides with a
    /// registered one is refused, and the router stays as it was.
    pub fn add_route(&mut self, route: &Route, item: T) -> (res: Result<(), AddRouteError>)
        requires
            old(self).wf(),
            route@.len() > 0,
        ensures
            res is Err <==> exists|pattern: Seq<Seq<char>>, value: T| #[trigger]
                old(self).registered(pattern, value) && collides(pattern, route@),
            match res {
                Ok(()) => {
                    &&& old(self)@.insert(route@, 0, item) == Ok::<Node<T>, Collision>(final(self)@)
                    &&& final(self).wf()
                    &&& forall|pattern: Seq<Seq<char>>, value: T| #[trigger]
                        final(self).registered(pattern, value) <==> old(self).registered(
                            pattern,
                            value,
                        ) || (pattern == route@ && value == item)
                },
                Err(e) => {
                    &&& old(self)@.insert(route@, 0, item) == Err::<Node<T>, Collision>(e@)
                    &&& final(self)@ == old(self)@
                },
            },
    {
        proof {
            let outcome = old(self)@.insert(route@, 0, item);
            old(self).lemma_refused_iff_collides(route@, item);
            if outcome is Ok {
                lemma_insert_keeps_wf(old(self)@, route@, 0, item);
                assert(route@.skip(0) =~= route@);
                assert forall|pattern: Seq<Seq<char>>, value: T| #[trigger]
                    holds_below(outcome->Ok_0.children(), pattern, value) <==> holds_below(
                        old(self)@.children(),
                        pattern,
                        value,
                    ) || (pattern == route@ && value == item) by {
                    lemma_insert_registers(old(self)@, route@, 0, item, pattern, value);
                }
            }
        }
        add_route(&mut self.tree, route, 0, item)
    }

    /// Looks `route` up: the value registered for the pattern that matches
    /// it, and the segments that the pattern's parameters captured. The
    /// value is handed out for writing; the router that remains is the old
    /// one with the value as the caller leaves it.
    pub fn route<'a>(&'a mut self, route: &Route) -> (found: Option<(&'a mut T, Params)>)
        requires
            old(self)@ is Wildcard,
        ensures
            match found {
                Some((item, params)) => {
                    &&& old(self).lookup(route@) == Some((*item, params@))
                    &&& final(self)@ == Node::Wildcard(
                        with_found_first(old(self)@.children(), route@, 0, *final(item)),
                    )
                },
                None => {
                    &&& old(self).lookup(route@) is None
                    &&& final(self)@ == old(self)@
                },
            },
            old(self).wf() ==> final(self).wf(),
            old(self).wf() ==> match found {
                Some((item, params)) => {
                    &&& old(self).registered(old(self).matched(route@), *item)
                    &&& pattern_matches(old(self).matched(route@), route@)
                    &&& params@ == captures(old(self).matched(route@), route@)
                    &&& forall|pattern: Seq<Seq<char>>, value: T| #[trigger]
                        final(self).registered(pattern, value) <==> if pattern == old(
                            self,
                        ).matched(route@) {
                            value == *final(item)
                        } else {
                            old(self).registered(pattern, value)
                        }
                },
                None => forall|pattern: Seq<Seq<char>>, value: T| #[trigger]
                    old(self).registered(pattern, value) ==> !pattern_matches(pattern, route@),
            },
    {
        proof {
            let children = old(self)@.children();
            if old(self).wf() {
                if old(self).lookup(route@) is Some {
                    old(self).lemma_found_is_registered(route@);
                } else {
                    assert forall|pattern: Seq<Seq<char>>, value: T| #[trigger]
                        old(self).registered(pattern, value) implies !pattern_matches(
                        pattern,
                        route@,
                    ) by {
                        if pattern_matches(pattern, route@) {
                            old(self).lemma_registered_is_found(pattern, value, route@);
                        }
                    }
                }
                assert forall|item: T|
                    forest_wf(#[trigger] with_found_first(children, route@, 0, item), false) by {
                    lemma_with_found_first_keeps_wf(children, false, route@, 0, item);
                }
                if old(self).lookup(route@) is Some {
                    assert forall|item: T, pattern: Seq<Seq<char>>, value: T| #[trigger]
                        holds_below(with_found_first(children, route@, 0, item), pattern, value)
                            <==> if pattern == matched_first(children, route@, 0) {
                            value == item
                        } else {
                            holds_below(children, pattern, value)
                        } by {
                        lemma_with_found_first_holds(
                            children,
                            false,
                            route@,
                            0,
                            item,
                            pattern,
                            value,
                        );
                    }
                }
            }
        }
        match &mut self.tree {
            Tree::Wildcard(root_children) => {
                let mut params = Params::new();
                match find_first(root_children.as_mut_slice(), route, 0, &mut params) {
                    Some(item) => {
                        Some((item, params))
                    },
                    None => None,
                }
            },
            _ => None,
        }
    }
}

} // verus!
