//! The mathematical model of the trie: nodes over sequences, the search
//! that a lookup performs on them, and the effect of registering a path.

use crate::segment::{is_literal, is_parameter, is_wildcard};
use vstd::prelude::*;

verus! {

/// A trie node as a mathematical value.
pub ghost enum Node<T> {
    Wildcard(Seq<Node<T>>),
    Specific(Seq<char>, Seq<Node<T>>),
    Parameter(Seq<char>, Seq<Node<T>>),
    Leaf(T, bool),
}

/// What a lookup finds: the stored value and the bindings captured on the way.
pub type Found<T> = Option<(T, Map<Seq<char>, Seq<char>>)>;

/// Why a path cannot be registered.
pub ghost enum Collision {
    /// The path runs through a registered path's end, or ends inside one.
    AddToLeafLevel,
    /// A wildcard and another kind of segment meet at one place.
    MismatchTypes(Seq<char>, Seq<char>),
    /// A parameter meets another name, or another kind of segment.
    MismatchParameter(Seq<char>, Seq<char>),
}

impl Collision {
    /// The text that reports this collision.
    pub open spec fn message(self) -> Seq<char> {
        match self {
            Collision::AddToLeafLevel =>
                "tried to add a path so that a leaf would be on another longer path"@,
            Collision::MismatchTypes(first, second) =>
                "tried to add path so that two different types of parts collide: "@ + first
                    + " and "@ + second,
            Collision::MismatchParameter(first, second) =>
                "tried to add path so that a paramter and another part collide: "@ + first
                    + " and "@ + second,
        }
    }
}

impl<T> Node<T> {
    /// The nodes below this one; a leaf has none.
    pub open spec fn children(self) -> Seq<Node<T>> {
        match self {
            Node::Wildcard(children) => children,
            Node::Specific(_, children) => children,
            Node::Parameter(_, children) => children,
            Node::Leaf(_, _) => Seq::empty(),
        }
    }

    /// This node with other nodes below it; a leaf stays as it is.
    pub open spec fn with_children(self, children: Seq<Node<T>>) -> Node<T> {
        match self {
            Node::Wildcard(_) => Node::Wildcard(children),
            Node::Specific(name, _) => Node::Specific(name, children),
            Node::Parameter(name, _) => Node::Parameter(name, children),
            Node::Leaf(_, _) => self,
        }
    }

    /// The pattern segment that an inner node stands for.
    pub open spec fn label(self) -> Seq<char> {
        match self {
            Node::Wildcard(_) => seq!['*'],
            Node::Specific(name, _) => name,
            Node::Parameter(name, _) => name,
            Node::Leaf(_, _) => Seq::empty(),
        }
    }

    /// Whether the branch that spells `pattern`, from this node down, ends
    /// in a leaf with `item`.
    pub open spec fn holds(self, pattern: Seq<Seq<char>>, item: T) -> bool
        decreases self,
    {
        match self {
            Node::Leaf(stored, _) => pattern.len() == 0 && stored == item,
            Node::Wildcard(children) => pattern.len() > 0 && is_wildcard(pattern[0]) && holds_below(
                children,
                pattern.drop_first(),
                item,
            ),
            Node::Specific(name, children) => pattern.len() > 0 && pattern[0] == name
                && holds_below(children, pattern.drop_first(), item),
            Node::Parameter(name, children) => pattern.len() > 0 && pattern[0] == name
                && holds_below(children, pattern.drop_first(), item),
        }
    }

    /// Whether this node is a leaf or has something below it.
    pub open spec fn full(self) -> bool {
        self is Leaf || self.children().len() > 0
    }

    /// Whether this node stands for the pattern segment `seg`, so that a
    /// path with `seg` at this place continues below it.
    pub open spec fn accepts(self, seg: Seq<char>) -> bool {
        match self {
            Node::Wildcard(_) => is_wildcard(seg),
            Node::Specific(name, _) => name == seg,
            Node::Parameter(name, _) => name == seg,
            Node::Leaf(_, _) => false,
        }
    }

    /// Whether this node forbids `seg` beside it: a leaf forbids everything,
    /// a wildcard everything but the wildcard, a parameter every other
    /// segment than its own name.
    pub open spec fn refuses(self, seg: Seq<char>) -> bool {
        match self {
            Node::Wildcard(_) => !is_wildcard(seg),
            Node::Specific(_, _) => false,
            Node::Parameter(name, _) => name != seg,
            Node::Leaf(_, _) => true,
        }
    }

    /// The collision that a refusing node reports for `seg`.
    pub open spec fn refusal(self, seg: Seq<char>) -> Collision {
        match self {
            Node::Wildcard(_) => Collision::MismatchTypes("Wildcard"@, "Specific"@),
            Node::Parameter(name, _) => Collision::MismatchParameter(name, seg),
            _ => Collision::AddToLeafLevel,
        }
    }

    /// A node for the pattern segment `seg` with nothing below it.
    pub open spec fn fresh(seg: Seq<char>) -> Node<T> {
        if is_wildcard(seg) {
            Node::Wildcard(Seq::empty())
        } else if is_parameter(seg) {
            Node::Parameter(seg, Seq::empty())
        } else {
            Node::Specific(seg, Seq::empty())
        }
    }

    /// The branch that spells `path` from `level` on and ends in a leaf
    /// with `item`; the leaf is a catch-all when the last segment is the
    /// wildcard.
    pub open spec fn branch(path: Seq<Seq<char>>, level: int, item: T) -> Node<T>
        decreases path.len() - level,
    {
        if level >= path.len() {
            Node::Leaf(item, level > 0 && is_wildcard(path[level - 1]))
        } else {
            Self::fresh(path[level]).with_children(seq![Self::branch(path, level + 1, item)])
        }
    }

    /// The outcome of registering `path` with `item` below this node, the
    /// nodes below it standing at depth `level`: the node after the
    /// registration, or the collision that forbids it.
    ///
    /// The path is followed down through the nodes that accept its
    /// segments. Where it ends, nothing may stand yet, and a leaf is put.
    /// Where no node accepts the next segment, a new branch is put for the
    /// rest of the path, unless a node there refuses the segment or the
    /// segment is a wildcard or a parameter and would get siblings.
    pub open spec fn insert(self, path: Seq<Seq<char>>, level: int, item: T) -> Result<
        Node<T>,
        Collision,
    >
        decreases path.len() - level,
    {
        let children = self.children();
        if self is Leaf {
            Err(Collision::AddToLeafLevel)
        } else if level >= path.len() {
            if children.len() > 0 {
                Err(Collision::AddToLeafLevel)
            } else {
                Ok(self.with_children(seq![Self::branch(path, level, item)]))
            }
        } else {
            let seg = path[level];
            match first_refusing(children, seg) {
                Some(i) => Err(children[i].refusal(seg)),
                None => match first_accepting(children, seg) {
                    Some(i) => match children[i].insert(path, level + 1, item) {
                        Ok(child) => Ok(self.with_children(children.update(i, child))),
                        Err(collision) => Err(collision),
                    },
                    None => if children.len() > 0 && is_wildcard(seg) {
                        Err(Collision::MismatchTypes("Specific/Parameter"@, "Wildcard"@))
                    } else if children.len() > 0 && is_parameter(seg) {
                        Err(Collision::MismatchParameter(seg, "other"@))
                    } else {
                        Ok(self.with_children(children.push(Self::branch(path, level, item))))
                    },
                },
            }
        }
    }

    /// The shape that registration keeps, of a node whose leaves below
    /// carry the flag `catch_all`: every parameter node is named by a
    /// parameter segment, every specific node by a literal, the nodes below
    /// any node are uniform, every node but this one leads to a leaf, and a
    /// leaf is a catch-all exactly below a wildcard.
    pub open spec fn wf(self, catch_all: bool) -> bool
        decreases self,
    {
        match self {
            Node::Leaf(_, _) => true,
            Node::Wildcard(children) => forest_wf(children, catch_all),
            Node::Specific(name, children) => is_literal(name) && forest_wf(children, catch_all),
            Node::Parameter(name, children) => is_parameter(name) && forest_wf(
                children,
                catch_all,
            ),
        }
    }

    /// The result of searching this node for `path`, the node standing at
    /// depth `level`: a leaf ends the search, at the end of the path or, for
    /// a catch-all leaf, anywhere; an inner node consumes the segment at
    /// `level` and hands the search on to the nodes below it.
    pub open spec fn lookup(self, path: Seq<Seq<char>>, level: int) -> Found<T>
        decreases self,
    {
        match self {
            Node::Leaf(item, catch_all) => if level == path.len() || catch_all {
                Some((item, Map::empty()))
            } else {
                None
            },
            Node::Wildcard(children) => if level < path.len() {
                lookup_first(children, path, level + 1)
            } else {
                None
            },
            Node::Specific(name, children) => if level < path.len() && name == path[level] {
                lookup_first(children, path, level + 1)
            } else {
                None
            },
            Node::Parameter(name, children) => if level < path.len() {
                match lookup_first(children, path, level + 1) {
                    Some((item, bound)) => Some((item, bound.insert(name, path[level]))),
                    None => None,
                }
            } else {
                None
            },
        }
    }

    /// The pattern, from this node down, that leads to what a search for
    /// `path` finds.
    pub open spec fn matched(self, path: Seq<Seq<char>>, level: int) -> Seq<Seq<char>>
        decreases self,
    {
        match self {
            Node::Leaf(_, _) => Seq::empty(),
            Node::Wildcard(children) => seq![seq!['*']] + matched_first(children, path, level + 1),
            Node::Specific(name, children) => seq![name] + matched_first(
                children,
                path,
                level + 1,
            ),
            Node::Parameter(name, children) => seq![name] + matched_first(
                children,
                path,
                level + 1,
            ),
        }
    }

    /// This node after the value that `path` leads to has been replaced by
    /// `item`; the node itself where `path` leads nowhere.
    pub open spec fn with_found(self, path: Seq<Seq<char>>, level: int, item: T) -> Node<T>
        decreases self,
    {
        match self {
            Node::Leaf(_, catch_all) => if level == path.len() || catch_all {
                Node::Leaf(item, catch_all)
            } else {
                self
            },
            Node::Wildcard(children) => if level < path.len() {
                Node::Wildcard(with_found_first(children, path, level + 1, item))
            } else {
                self
            },
            Node::Specific(name, children) => if level < path.len() && name == path[level] {
                Node::Specific(name, with_found_first(children, path, level + 1, item))
            } else {
                self
            },
            Node::Parameter(name, children) => if level < path.len() {
                Node::Parameter(name, with_found_first(children, path, level + 1, item))
            } else {
                self
            },
        }
    }
}

/// The place of the first node among `children` that refuses `seg`.
pub open spec fn first_refusing<T>(children: Seq<Node<T>>, seg: Seq<char>) -> Option<int>
    decreases children.len(),
{
    if children.len() == 0 {
        None
    } else if children[0].refuses(seg) {
        Some(0)
    } else {
        match first_refusing(children.drop_first(), seg) {
            Some(i) => Some(i + 1),
            None => None,
        }
    }
}

/// The place of the first node among `children` that accepts `seg`.
pub open spec fn first_accepting<T>(children: Seq<Node<T>>, seg: Seq<char>) -> Option<int>
    decreases children.len(),
{
    if children.len() == 0 {
        None
    } else if children[0].accepts(seg) {
        Some(0)
    } else {
        match first_accepting(children.drop_first(), seg) {
            Some(i) => Some(i + 1),
            None => None,
        }
    }
}

/// `first_refusing` gives the least place where a node refuses `seg`.
pub proof fn lemma_first_refusing<T>(children: Seq<Node<T>>, seg: Seq<char>)
    ensures
        match first_refusing(children, seg) {
            Some(i) => {
                &&& 0 <= i < children.len()
                &&& children[i].refuses(seg)
                &&& forall|j: int| 0 <= j < i ==> !(#[trigger] children[j]).refuses(seg)
            },
            None => forall|j: int| 0 <= j < children.len() ==> !(#[trigger] children[j]).refuses(seg),
        },
    decreases children.len(),
{
    if children.len() > 0 && !children[0].refuses(seg) {
        let rest = children.drop_first();
        lemma_first_refusing(rest, seg);
        match first_refusing(rest, seg) {
            Some(i) => {
                assert forall|j: int| 0 <= j < i + 1 implies !(#[trigger] children[j]).refuses(
                    seg,
                ) by {
                    if j > 0 {
                        assert(rest[j - 1] == children[j]);
                    }
                }
            },
            None => {
                assert forall|j: int| 0 <= j < children.len() implies !(
                #[trigger] children[j]).refuses(seg) by {
                    if j > 0 {
                        assert(rest[j - 1] == children[j]);
                    }
                }
            },
        }
    }
}

/// `first_accepting` gives the least place where a node accepts `seg`.
pub proof fn lemma_first_accepting<T>(children: Seq<Node<T>>, seg: Seq<char>)
    ensures
        match first_accepting(children, seg) {
            Some(i) => {
                &&& 0 <= i < children.len()
                &&& children[i].accepts(seg)
                &&& forall|j: int| 0 <= j < i ==> !(#[trigger] children[j]).accepts(seg)
            },
            None => forall|j: int| 0 <= j < children.len() ==> !(#[trigger] children[j]).accepts(seg),
        },
    decreases children.len(),
{
    if children.len() > 0 && !children[0].accepts(seg) {
        let rest = children.drop_first();
        lemma_first_accepting(rest, seg);
        match first_accepting(rest, seg) {
            Some(i) => {
                assert forall|j: int| 0 <= j < i + 1 implies !(#[trigger] children[j]).accepts(
                    seg,
                ) by {
                    if j > 0 {
                        assert(rest[j - 1] == children[j]);
                    }
                }
            },
            None => {
                assert forall|j: int| 0 <= j < children.len() implies !(
                #[trigger] children[j]).accepts(seg) by {
                    if j > 0 {
                        assert(rest[j - 1] == children[j]);
                    }
                }
            },
        }
    }
}

/// Among well-formed siblings that do not refuse `seg`, at most one
/// accepts it.
pub proof fn lemma_one_accepts<T>(children: Seq<Node<T>>, catch_all: bool, seg: Seq<char>)
    requires
        forest_wf(children, catch_all),
    ensures
        forall|i: int, j: int|
            0 <= i < children.len() && 0 <= j < children.len() && (#[trigger] children[i]).accepts(
                seg,
            ) && (#[trigger] children[j]).accepts(seg) ==> i == j,
{
}

/// A new branch is well-formed.
pub proof fn lemma_branch_wf<T>(path: Seq<Seq<char>>, level: int, item: T)
    requires
        0 <= level < path.len(),
    ensures
        Node::branch(path, level, item).wf(is_wildcard(path[level])),
        Node::branch(path, level, item).accepts(path[level]),
        !(Node::branch(path, level, item) is Leaf),
        Node::branch(path, level, item).full(),
    decreases path.len() - level,
{
    let below = Node::branch(path, level + 1, item);
    if level + 1 < path.len() {
        lemma_branch_wf(path, level + 1, item);
    }
    assert(forest_wf(seq![below], is_wildcard(path[level])));
}

/// Registration keeps the trie well-formed.
pub proof fn lemma_insert_keeps_wf<T>(node: Node<T>, path: Seq<Seq<char>>, level: int, item: T)
    requires
        0 <= level <= path.len(),
        node.wf(level > 0 && is_wildcard(path[level - 1])),
        node.insert(path, level, item) is Ok,
    ensures
        node.insert(path, level, item)->Ok_0.wf(level > 0 && is_wildcard(path[level - 1])),
        node.insert(path, level, item)->Ok_0.full(),
        node.insert(path, level, item)->Ok_0.label() == node.label(),
        node.insert(path, level, item)->Ok_0 is Wildcard <==> node is Wildcard,
        !(node is Leaf),
    decreases path.len() - level,
{
    let catch_all = level > 0 && is_wildcard(path[level - 1]);
    let children = node.children();
    let after = node.insert(path, level, item)->Ok_0;
    if level >= path.len() {
        assert(forest_wf(after.children(), catch_all));
    } else {
        let seg = path[level];
        lemma_first_accepting(children, seg);
        match first_accepting(children, seg) {
            Some(i) => {
                let child = children[i];
                assert(child.wf(child is Wildcard));
                lemma_insert_keeps_wf(child, path, level + 1, item);
            },
            None => {
                lemma_branch_wf(path, level, item);
            },
        }
    }
}

/// Siblings are uniform: a single leaf, a single wildcard, a single
/// parameter, or any number of specific nodes with different names.
pub open spec fn uniform<T>(children: Seq<Node<T>>) -> bool {
    ||| children.len() == 0
    ||| children.len() == 1 && !(children[0] is Specific)
    ||| {
        &&& forall|i: int| 0 <= i < children.len() ==> (#[trigger] children[i]) is Specific
        &&& forall|i: int, j: int|
            0 <= i < children.len() && 0 <= j < children.len() && i != j ==> (
            #[trigger] children[i])->Specific_0 != (#[trigger] children[j])->Specific_0
    }
}

/// The shape that registration keeps, of the nodes below one node: they
/// are uniform, each is well-formed and leads to a leaf, and a leaf among
/// them carries the flag `catch_all`.
pub open spec fn forest_wf<T>(children: Seq<Node<T>>, catch_all: bool) -> bool
    decreases children,
{
    &&& uniform(children)
    &&& forall|i: int|
        0 <= i < children.len() ==> {
            &&& (#[trigger] children[i]).wf(children[i] is Wildcard)
            &&& children[i].full()
            &&& (children[i] matches Node::Leaf(_, flag) ==> flag == catch_all)
        }
}

/// Whether some node among `children` holds `item` at the end of the
/// branch that spells `pattern`.
pub open spec fn holds_below<T>(children: Seq<Node<T>>, pattern: Seq<Seq<char>>, item: T) -> bool
    decreases children,
{
    exists|i: int| 0 <= i < children.len() && (#[trigger] children[i]).holds(pattern, item)
}

/// The result of the first node among `children`, in order, that finds `path`.
pub open spec fn lookup_first<T>(children: Seq<Node<T>>, path: Seq<Seq<char>>, level: int) -> Found<
    T,
>
    decreases children,
{
    if children.len() == 0 {
        None
    } else {
        match children[0].lookup(path, level) {
            Some(found) => Some(found),
            None => lookup_first(children.drop_first(), path, level),
        }
    }
}

/// The pattern that leads to what the first node among `children` that
/// finds `path` finds.
pub open spec fn matched_first<T>(children: Seq<Node<T>>, path: Seq<Seq<char>>, level: int) -> Seq<
    Seq<char>,
>
    decreases children,
{
    if children.len() == 0 {
        Seq::empty()
    } else if children[0].lookup(path, level) is Some {
        children[0].matched(path, level)
    } else {
        matched_first(children.drop_first(), path, level)
    }
}

/// `children` after the value that `path` leads to, in the first node that
/// finds it, has been replaced by `item`.
pub open spec fn with_found_first<T>(
    children: Seq<Node<T>>,
    path: Seq<Seq<char>>,
    level: int,
    item: T,
) -> Seq<Node<T>>
    decreases children,
{
    if children.len() == 0 {
        children
    } else if children[0].lookup(path, level) is Some {
        seq![children[0].with_found(path, level, item)] + children.drop_first()
    } else {
        seq![children[0]] + with_found_first(children.drop_first(), path, level, item)
    }
}

} // verus!
