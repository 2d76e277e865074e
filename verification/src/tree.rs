//! What the walk yields on a directory tree.
//!
//! The walk itself never sees a tree: it sees one path at a time and is told
//! what a look at that path found. This module states what that adds up to.
//! A [`Tree`] describes what is on disk; [`walk`] drives the walk with looks
//! that agree with a tree; the lemmas say that the items yielded are the
//! tree's entries in pre-order, each once, symbolic links left out. An entry
//! whose metadata cannot be read is an entry like any other: it is yielded,
//! and the walk goes on.

use vstd::prelude::*;

use crate::walk::{pending_head, pending_rest, stack_after, trim, verdict_for, ProbeView, Verdict};

verus! {

/// A directory tree, as far as the walk can tell: every node has a path, a
/// directory that can be listed has children, in listing order.
pub enum Tree<P, E> {
    /// A symbolic link.
    Link(P),
    /// Anything that is neither a directory nor a symbolic link.
    File(P),
    /// An entry whose metadata cannot be read, so that its kind is unknown.
    Unread(P),
    /// A directory whose listing fails with this error.
    Sealed(P, E),
    /// A directory and what it holds.
    Dir(P, Seq<Tree<P, E>>),
}

impl<P, E> Tree<P, E> {
    /// The path of the node itself.
    pub open spec fn path(self) -> P {
        match self {
            Tree::Link(path) => path,
            Tree::File(path) => path,
            Tree::Unread(path) => path,
            Tree::Sealed(path, _) => path,
            Tree::Dir(path, _) => path,
        }
    }

    /// What a look at the node finds.
    pub open spec fn found(self) -> ProbeView<P, E> {
        match self {
            Tree::Link(_) => ProbeView::Symlink,
            Tree::File(_) => ProbeView::File,
            Tree::Unread(_) => ProbeView::Unreadable,
            Tree::Sealed(_, error) => ProbeView::Unlistable(error),
            Tree::Dir(_, children) => ProbeView::Dir(paths(children)),
        }
    }

    /// The number of nodes, of whatever kind.
    pub open spec fn size(self) -> nat
        decreases self,
    {
        match self {
            Tree::Dir(_, children) => 1 + size_all(children),
            _ => 1,
        }
    }

    /// The number of entries that are not known to be symbolic links.
    pub open spec fn entries(self) -> nat
        decreases self,
    {
        match self {
            Tree::Link(_) => 0,
            Tree::Dir(_, children) => 1 + entries_all(children),
            _ => 1,
        }
    }

    /// The entries in pre-order: a directory, then what its children give,
    /// one child after the other. A symbolic link gives nothing; a directory
    /// that cannot be listed gives the failure in its own place; an entry
    /// whose metadata cannot be read gives its path.
    pub open spec fn preorder(self) -> Seq<Result<P, E>>
        decreases self,
    {
        match self {
            Tree::Link(_) => Seq::empty(),
            Tree::File(path) => seq![Ok(path)],
            Tree::Unread(path) => seq![Ok(path)],
            Tree::Sealed(_, error) => seq![Err(error)],
            Tree::Dir(path, children) => seq![Ok(path)] + preorder_all(children),
        }
    }

    /// Whether `path` is the path of the node or of a node below it.
    pub open spec fn has_path(self, path: P) -> bool
        decreases self,
    {
        self.path() == path || match self {
            Tree::Dir(_, children) => exists|i: int|
                0 <= i < children.len() && (#[trigger] children[i]).has_path(path),
            _ => false,
        }
    }

    /// Whether `path` is the path of a node below this one.
    pub open spec fn has_below(self, path: P) -> bool {
        match self {
            Tree::Dir(_, children) => exists|i: int|
                0 <= i < children.len() && (#[trigger] children[i]).has_path(path),
            _ => false,
        }
    }

    /// Whether `node` is this node or a node below it.
    pub open spec fn holds(self, node: Tree<P, E>) -> bool
        decreases self,
    {
        self == node || match self {
            Tree::Dir(_, children) => exists|i: int|
                0 <= i < children.len() && (#[trigger] children[i]).holds(node),
            _ => false,
        }
    }

    /// The paths of all nodes, in pre-order, symbolic links included.
    pub open spec fn all_paths(self) -> Seq<P>
        decreases self,
    {
        match self {
            Tree::Dir(path, children) => seq![path] + all_paths_of(children),
            _ => seq![self.path()],
        }
    }

    /// Whether no two nodes have the same path.
    pub open spec fn distinct(self) -> bool {
        self.all_paths().no_duplicates()
    }

    /// Whether no two nodes have the same path, said node by node: below a
    /// directory its own path does not occur again, two children share no
    /// path, and the same holds inside every child.
    spec fn apart(self) -> bool
        decreases self,
    {
        match self {
            Tree::Dir(path, children) => {
                &&& !self.has_below(path)
                &&& forall|i: int, j: int, shared: P|
                    #![trigger children[i].has_path(shared), children[j].has_path(shared)]
                    0 <= i < j < children.len() ==> !(children[i].has_path(shared)
                        && children[j].has_path(shared))
                &&& forall|i: int| 0 <= i < children.len() ==> (#[trigger] children[i]).apart()
            },
            _ => true,
        }
    }

    /// Whether looks that go by `look` find what this tree holds, at the
    /// node and at every node below it.
    pub open spec fn agrees(self, look: spec_fn(P) -> ProbeView<P, E>) -> bool
        decreases self,
    {
        &&& look(self.path()) == self.found()
        &&& match self {
            Tree::Dir(_, children) => forall|i: int|
                0 <= i < children.len() ==> (#[trigger] children[i]).agrees(look),
            _ => true,
        }
    }
}

/// The paths of some nodes, in their order.
pub open spec fn paths<P, E>(nodes: Seq<Tree<P, E>>) -> Seq<P> {
    Seq::new(nodes.len(), |i: int| nodes[i].path())
}

/// The paths of all nodes of some trees, one tree after the other.
pub open spec fn all_paths_of<P, E>(nodes: Seq<Tree<P, E>>) -> Seq<P>
    decreases nodes,
{
    if nodes.len() == 0 {
        Seq::empty()
    } else {
        nodes.first().all_paths() + all_paths_of(nodes.drop_first())
    }
}

/// The number of nodes in some trees together.
pub open spec fn size_all<P, E>(nodes: Seq<Tree<P, E>>) -> nat
    decreases nodes,
{
    if nodes.len() == 0 {
        0
    } else {
        nodes.first().size() + size_all(nodes.drop_first())
    }
}

/// The number of entries that are not known to be symbolic links, in some
/// trees together.
pub open spec fn entries_all<P, E>(nodes: Seq<Tree<P, E>>) -> nat
    decreases nodes,
{
    if nodes.len() == 0 {
        0
    } else {
        nodes.first().entries() + entries_all(nodes.drop_first())
    }
}

/// The entries of some trees in pre-order, one tree after the other.
pub open spec fn preorder_all<P, E>(nodes: Seq<Tree<P, E>>) -> Seq<Result<P, E>>
    decreases nodes,
{
    if nodes.len() == 0 {
        Seq::empty()
    } else {
        nodes.first().preorder() + preorder_all(nodes.drop_first())
    }
}

/// The items that a consumer gets who drives the walk from `stack` with at
/// most `pulls` pulls, settling each path with what `look` finds at it. The
/// items end where a pull finds nothing pending, and nowhere else.
pub open spec fn walk<P, E>(
    look: spec_fn(P) -> ProbeView<P, E>,
    stack: Seq<Seq<P>>,
    pulls: nat,
) -> Seq<Result<P, E>>
    decreases pulls,
{
    if pulls == 0 {
        Seq::empty()
    } else {
        match pending_head(stack) {
            None => Seq::empty(),
            Some(path) => {
                let next = stack_after(pending_rest(stack), look(path));
                match verdict_for(path, look(path)) {
                    Verdict::Skip => walk(look, next, (pulls - 1) as nat),
                    Verdict::Yield(item) => seq![item] + walk(look, next, (pulls - 1) as nat),
                }
            },
        }
    }
}

/// The items that a consumer gets from a walk that starts at `root`.
pub open spec fn walk_from<P, E>(
    look: spec_fn(P) -> ProbeView<P, E>,
    root: P,
    pulls: nat,
) -> Seq<Result<P, E>> {
    walk(look, seq![seq![root]], pulls)
}

/// The paths that are pending while the trees of `forest` are: one batch of
/// paths for each batch of trees.
spec fn stack_of<P, E>(forest: Seq<Seq<Tree<P, E>>>) -> Seq<Seq<P>> {
    Seq::new(forest.len(), |b: int| paths(forest[b]))
}

/// What the trees of `forest` give in the order in which the walk gets to
/// them: the innermost batch first.
spec fn pending<P, E>(forest: Seq<Seq<Tree<P, E>>>) -> Seq<Result<P, E>>
    decreases forest.len(),
{
    if forest.len() == 0 {
        Seq::empty()
    } else {
        preorder_all(forest.last()) + pending(forest.drop_last())
    }
}

/// The number of nodes in all trees of `forest`.
spec fn weight<P, E>(forest: Seq<Seq<Tree<P, E>>>) -> nat
    decreases forest.len(),
{
    if forest.len() == 0 {
        0
    } else {
        size_all(forest.last()) + weight(forest.drop_last())
    }
}

/// Whether looks that go by `look` find what the trees of `forest` hold.
spec fn forest_agrees<P, E>(forest: Seq<Seq<Tree<P, E>>>, look: spec_fn(P) -> ProbeView<P, E>) -> bool {
    forall|b: int, i: int|
        0 <= b < forest.len() && 0 <= i < forest[b].len() ==> (#[trigger] forest[b][i]).agrees(look)
}

/// Dropping the exhausted batches changes nothing that is still to come.
proof fn lemma_trim_forest<P, E>(forest: Seq<Seq<Tree<P, E>>>)
    ensures
        trim(stack_of(forest)) == stack_of(trim(forest)),
        pending(trim(forest)) == pending(forest),
        weight(trim(forest)) == weight(forest),
        trim(forest).len() <= forest.len(),
        forall|b: int| 0 <= b < trim(forest).len() ==> (#[trigger] trim(forest)[b]) == forest[b],
        trim(forest).len() > 0 ==> trim(forest).last().len() > 0,
    decreases forest.len(),
{
    if forest.len() > 0 && forest.last().len() == 0 {
        lemma_trim_forest(forest.drop_last());
        assert(stack_of(forest).drop_last() =~= stack_of(forest.drop_last()));
    }
}

/// Driven from the paths of a forest with looks that agree with it, the walk
/// yields what the forest gives, the innermost batch first.
proof fn lemma_walk_forest<P, E>(
    look: spec_fn(P) -> ProbeView<P, E>,
    forest: Seq<Seq<Tree<P, E>>>,
    pulls: nat,
)
    requires
        forest_agrees(forest, look),
        pulls >= weight(forest),
    ensures
        walk(look, stack_of(forest), pulls) == pending(forest),
    decreases weight(forest),
{
    let open = trim(forest);
    lemma_trim_forest(forest);
    let stack = stack_of(forest);
    if open.len() > 0 {
        // The walk pulls the first node of the innermost batch that is left.
        let top = open.last();
        let node = top.first();
        let below = open.drop_last();
        let rest = below.push(top.drop_first());
        assert(size_all(top) == node.size() + size_all(top.drop_first()));
        assert(rest.drop_last() =~= below);
        assert(preorder_all(top) == node.preorder() + preorder_all(top.drop_first()));
        assert(pending_rest(stack) =~= stack_of(rest)) by {
            assert(paths(top).drop_first() =~= paths(top.drop_first()));
        }
        assert(forest_agrees(rest, look));
        match node {
            Tree::Dir(_, children) => {
                // Its children become the innermost batch.
                let next = rest.push(children);
                assert(next.drop_last() =~= rest);
                assert(weight(next) == size_all(children) + weight(rest));
                assert(stack_after(stack_of(rest), look(node.path())) =~= stack_of(next));
                assert(forest_agrees(next, look));
                lemma_walk_forest(look, next, (pulls - 1) as nat);
            },
            Tree::Sealed(_, error) => {
                lemma_walk_forest(look, rest, (pulls - 1) as nat);
                assert(pending(forest) =~= seq![Err::<P, E>(error)] + pending(rest));
            },
            _ => {
                lemma_walk_forest(look, rest, (pulls - 1) as nat);
            },
        }
    }
}

/// Where the entries of the tree at `index` start among the entries of all
/// of `nodes`.
spec fn offset<P, E>(nodes: Seq<Tree<P, E>>, index: int) -> int
    decreases nodes.len(),
{
    if index <= 0 || nodes.len() == 0 {
        0
    } else {
        nodes.first().preorder().len() + offset(nodes.drop_first(), index - 1)
    }
}

/// A tree gives as many items as it has entries that are not known to be
/// symbolic links.
proof fn lemma_preorder_len<P, E>(tree: Tree<P, E>)
    ensures
        tree.preorder().len() == tree.entries(),
    decreases tree,
{
    match tree {
        Tree::Dir(_, children) => {
            lemma_preorder_all_len(children);
        },
        _ => {},
    }
}

/// Some trees together give as many items as they have entries that are not
/// known to be symbolic links.
proof fn lemma_preorder_all_len<P, E>(nodes: Seq<Tree<P, E>>)
    ensures
        preorder_all(nodes).len() == entries_all(nodes),
    decreases nodes,
{
    if nodes.len() > 0 {
        lemma_preorder_len(nodes.first());
        lemma_preorder_all_len(nodes.drop_first());
    }
}

/// Finds the tree that an item of several trees comes from, and the place of
/// the item among the items of that tree.
proof fn lemma_locate<P, E>(nodes: Seq<Tree<P, E>>, k: int) -> (at: (int, int))
    requires
        0 <= k < preorder_all(nodes).len(),
    ensures
        0 <= at.0 < nodes.len(),
        0 <= at.1 < nodes[at.0].preorder().len(),
        k == offset(nodes, at.0) + at.1,
        preorder_all(nodes)[k] == nodes[at.0].preorder()[at.1],
    decreases nodes.len(),
{
    let first = nodes.first().preorder();
    if k < first.len() {
        (0, k)
    } else {
        let rest = nodes.drop_first();
        let (index, place) = lemma_locate(rest, k - first.len());
        (index + 1, place)
    }
}

/// A path that a tree yields is the path of one of its nodes.
proof fn lemma_yield_has_path<P, E>(tree: Tree<P, E>, k: int, path: P)
    requires
        0 <= k < tree.preorder().len(),
        tree.preorder()[k] == Ok::<P, E>(path),
    ensures
        tree.has_path(path),
    decreases tree,
{
    match tree {
        Tree::Dir(_, children) => {
            if k > 0 {
                let (index, place) = lemma_locate(children, k - 1);
                lemma_yield_has_path(children[index], place, path);
            }
        },
        _ => {},
    }
}

/// A path that one of the children of a directory yields is a path below
/// the directory.
proof fn lemma_yield_is_below<P, E>(tree: Tree<P, E>, k: int, path: P) -> (index: int)
    requires
        tree is Dir,
        1 <= k < tree.preorder().len(),
        tree.preorder()[k] == Ok::<P, E>(path),
    ensures
        tree.has_below(path),
        0 <= index < tree->Dir_1.len(),
        tree->Dir_1[index].has_path(path),
        0 <= k - 1 - offset(tree->Dir_1, index) < tree->Dir_1[index].preorder().len(),
        tree->Dir_1[index].preorder()[k - 1 - offset(tree->Dir_1, index)] == Ok::<P, E>(path),
{
    let children = tree->Dir_1;
    let (index, place) = lemma_locate(children, k - 1);
    lemma_yield_has_path(children[index], place, path);
    index
}

/// The path of a node of a tree is a path of the tree.
proof fn lemma_held_has_path<P, E>(tree: Tree<P, E>, node: Tree<P, E>, path: P)
    requires
        tree.holds(node),
        node.has_path(path),
    ensures
        tree.has_path(path),
    decreases tree,
{
    if tree != node {
        match tree {
            Tree::Dir(_, children) => {
                let index = choose|i: int|
                    0 <= i < children.len() && (#[trigger] children[i]).holds(node);
                lemma_held_has_path(children[index], node, path);
            },
            _ => {},
        }
    }
}

/// Two children of a directory with distinct paths share no path.
proof fn lemma_one_child<P, E>(tree: Tree<P, E>, first: int, second: int, path: P)
    requires
        tree is Dir,
        tree.apart(),
        0 <= first < tree->Dir_1.len(),
        0 <= second < tree->Dir_1.len(),
        tree->Dir_1[first].has_path(path),
        tree->Dir_1[second].has_path(path),
    ensures
        first == second,
{
}

/// Where paths are distinct, no path is yielded twice.
proof fn lemma_preorder_yields_once<P, E>(tree: Tree<P, E>, i: int, j: int)
    requires
        tree.apart(),
        0 <= i < j < tree.preorder().len(),
        tree.preorder()[i] is Ok,
    ensures
        tree.preorder()[i] != tree.preorder()[j],
    decreases tree,
{
    match tree {
        Tree::Dir(own, children) => {
            let path = tree.preorder()[i]->Ok_0;
            if tree.preorder()[j] == Ok::<P, E>(path) {
                // The second place lies below the directory, so the first is
                // not that of the directory itself: both lie in one child.
                let second = lemma_yield_is_below(tree, j, path);
                if i > 0 {
                    let first = lemma_yield_is_below(tree, i, path);
                    lemma_one_child(tree, first, second, path);
                    lemma_preorder_yields_once(
                        children[first],
                        i - 1 - offset(children, first),
                        j - 1 - offset(children, first),
                    );
                }
            }
        },
        _ => {},
    }
}

/// Where paths are distinct, the path of a symbolic link is never yielded.
proof fn lemma_preorder_skips_links<P, E>(tree: Tree<P, E>, link: P, k: int)
    requires
        tree.apart(),
        tree.holds(Tree::Link(link)),
        0 <= k < tree.preorder().len(),
    ensures
        tree.preorder()[k] != Ok::<P, E>(link),
    decreases tree,
{
    match tree {
        Tree::Dir(own, children) => {
            let node = Tree::<P, E>::Link(link);
            let held = choose|i: int| 0 <= i < children.len() && (#[trigger] children[i]).holds(node);
            lemma_held_has_path(children[held], node, link);
            if tree.preorder()[k] == Ok::<P, E>(link) && k > 0 {
                // The item comes from the child that holds the link.
                let index = lemma_yield_is_below(tree, k, link);
                lemma_one_child(tree, index, held, link);
                lemma_preorder_skips_links(children[held], link, k - 1 - offset(children, held));
            }
        },
        _ => {},
    }
}

/// Where paths are distinct, a directory is yielded before anything that
/// lies below it.
proof fn lemma_preorder_directory_first<P, E>(
    tree: Tree<P, E>,
    dir: Tree<P, E>,
    below: P,
    i: int,
    j: int,
)
    requires
        tree.apart(),
        tree.holds(dir),
        dir.has_below(below),
        0 <= i < tree.preorder().len(),
        0 <= j < tree.preorder().len(),
        tree.preorder()[i] == Ok::<P, E>(dir.path()),
        tree.preorder()[j] == Ok::<P, E>(below),
    ensures
        i < j,
    decreases tree,
{
    match tree {
        Tree::Dir(own, children) => {
            if tree == dir {
                // The directory is the first item, and nowhere else.
                if i > 0 {
                    lemma_yield_is_below(tree, i, own);
                }
            } else {
                // Both items come from the child that holds the directory.
                let held = choose|m: int| 0 <= m < children.len() && (#[trigger] children[m]).holds(dir);
                lemma_held_has_path(children[held], dir, dir.path());
                lemma_held_has_path(children[held], dir, below);
                let first = lemma_yield_is_below(tree, i, dir.path());
                let second = lemma_yield_is_below(tree, j, below);
                lemma_one_child(tree, first, held, dir.path());
                lemma_one_child(tree, second, held, below);
                lemma_preorder_directory_first(
                    children[held],
                    dir,
                    below,
                    i - 1 - offset(children, held),
                    j - 1 - offset(children, held),
                );
            }
        },
        _ => {},
    }
}

/// Where the paths of the tree at `index` start among the paths of all of
/// `nodes`.
spec fn paths_start<P, E>(nodes: Seq<Tree<P, E>>, index: int) -> int
    decreases nodes.len(),
{
    if index <= 0 || nodes.len() == 0 {
        0
    } else {
        nodes.first().all_paths().len() + paths_start(nodes.drop_first(), index - 1)
    }
}

/// The paths of each tree stand together among the paths of all trees, in
/// the order of the trees and without overlap.
proof fn lemma_paths_block<P, E>(nodes: Seq<Tree<P, E>>, index: int, k: int)
    requires
        0 <= index < nodes.len(),
        0 <= k < nodes[index].all_paths().len(),
    ensures
        0 <= paths_start(nodes, index),
        paths_start(nodes, index) + nodes[index].all_paths().len() <= all_paths_of(nodes).len(),
        all_paths_of(nodes)[paths_start(nodes, index) + k] == nodes[index].all_paths()[k],
        forall|later: int|
            index < later < nodes.len() ==> paths_start(nodes, index) + nodes[index].all_paths().len()
                <= #[trigger] paths_start(nodes, later),
    decreases nodes.len(),
{
    let rest = nodes.drop_first();
    if index > 0 {
        assert(rest[index - 1] == nodes[index]);
        lemma_paths_block(rest, index - 1, k);
        assert forall|later: int| index < later < nodes.len() implies paths_start(nodes, index)
            + nodes[index].all_paths().len() <= #[trigger] paths_start(nodes, later) by {
            assert(paths_start(rest, index - 1) + rest[index - 1].all_paths().len() <= paths_start(
                rest,
                later - 1,
            ));
        }
    } else {
        assert forall|later: int| 0 < later < nodes.len() implies nodes[0].all_paths().len()
            <= #[trigger] paths_start(nodes, later) by {
            lemma_paths_start_bounds(rest, later - 1);
        }
    }
}

/// The paths of a tree start at or after the paths of the trees before it.
proof fn lemma_paths_start_bounds<P, E>(nodes: Seq<Tree<P, E>>, index: int)
    ensures
        0 <= paths_start(nodes, index),
    decreases nodes.len(),
{
    if index > 0 && nodes.len() > 0 {
        lemma_paths_start_bounds(nodes.drop_first(), index - 1);
    }
}

/// A path of a node of the tree is listed among the paths of the tree.
proof fn lemma_path_listed<P, E>(tree: Tree<P, E>, path: P) -> (place: int)
    requires
        tree.has_path(path),
    ensures
        0 <= place < tree.all_paths().len(),
        tree.all_paths()[place] == path,
    decreases tree,
{
    if tree.path() == path {
        0
    } else {
        let children = tree->Dir_1;
        let index = choose|i: int| 0 <= i < children.len() && (#[trigger] children[i]).has_path(path);
        let inner = lemma_path_listed(children[index], path);
        lemma_paths_block(children, index, inner);
        1 + paths_start(children, index) + inner
    }
}

/// A tree whose listed paths show no duplicates has no two nodes with the
/// same path, said node by node.
proof fn lemma_distinct_is_apart<P, E>(tree: Tree<P, E>)
    requires
        tree.distinct(),
    ensures
        tree.apart(),
    decreases tree,
{
    match tree {
        Tree::Dir(own, children) => {
            let all = tree.all_paths();
            let below = all_paths_of(children);
            assert forall|a: int, b: int| 0 <= a < below.len() && 0 <= b < below.len() && a
                != b implies below[a] != below[b] by {
                assert(all[a + 1] == below[a] && all[b + 1] == below[b]);
            }
            if tree.has_below(own) {
                let index = choose|i: int|
                    0 <= i < children.len() && (#[trigger] children[i]).has_path(own);
                let inner = lemma_path_listed(children[index], own);
                lemma_paths_block(children, index, inner);
                assert(all[1 + paths_start(children, index) + inner] == all[0]);
            }
            assert forall|i: int, j: int, shared: P|
                #![trigger children[i].has_path(shared), children[j].has_path(shared)]
                0 <= i < j < children.len() implies !(children[i].has_path(shared)
                && children[j].has_path(shared)) by {
                if children[i].has_path(shared) && children[j].has_path(shared) {
                    let first = lemma_path_listed(children[i], shared);
                    let second = lemma_path_listed(children[j], shared);
                    lemma_paths_block(children, i, first);
                    lemma_paths_block(children, j, second);
                    assert(below[paths_start(children, i) + first] == below[paths_start(
                        children,
                        j,
                    ) + second]);
                }
            }
            assert forall|i: int| 0 <= i < children.len() implies (#[trigger] children[i]).apart() by {
                let inner = children[i].all_paths();
                assert forall|a: int, b: int|
                    0 <= a < inner.len() && 0 <= b < inner.len() && a != b implies inner[a]
                    != inner[b] by {
                    lemma_paths_block(children, i, a);
                    lemma_paths_block(children, i, b);
                    assert(below[paths_start(children, i) + a] == inner[a]);
                    assert(below[paths_start(children, i) + b] == inner[b]);
                }
                lemma_distinct_is_apart(children[i]);
            }
        },
        _ => {},
    }
}

/// Started at the root of a tree and driven with looks that agree with the
/// tree, the walk yields the entries of the tree in pre-order. As many pulls
/// as the tree has nodes are enough, and further pulls add nothing.
pub proof fn lemma_walk_yields_preorder<P, E>(
    look: spec_fn(P) -> ProbeView<P, E>,
    tree: Tree<P, E>,
    pulls: nat,
)
    requires
        tree.agrees(look),
        pulls >= tree.size(),
    ensures
        walk_from(look, tree.path(), pulls) == tree.preorder(),
{
    let forest = seq![seq![tree]];
    assert(size_all(seq![tree]) == tree.size() + size_all(seq![tree].drop_first()));
    assert(weight(forest) == size_all(forest.last()) + weight(forest.drop_last()));
    assert(preorder_all(seq![tree]) =~= tree.preorder()) by {
        assert(preorder_all(seq![tree]) == tree.preorder() + preorder_all(
            seq![tree].drop_first(),
        ));
    }
    assert(pending(forest) =~= tree.preorder()) by {
        assert(pending(forest.drop_last()) =~= Seq::<Result<P, E>>::empty());
    }
    assert(stack_of(forest) =~~= seq![seq![tree.path()]]);
    lemma_walk_forest(look, forest, pulls);
}

/// The walk yields as many items as the tree has entries that are not known
/// to be symbolic links, those with unreadable metadata among them. Where no two nodes of the tree have the same path, no
/// path is yielded twice, and the path of a symbolic link is never yielded.
pub proof fn lemma_walk_yields_each_entry_once<P, E>(
    look: spec_fn(P) -> ProbeView<P, E>,
    tree: Tree<P, E>,
    pulls: nat,
)
    requires
        tree.agrees(look),
        pulls >= tree.size(),
    ensures
        walk_from(look, tree.path(), pulls).len() == tree.entries(),
        tree.distinct() ==> forall|i: int, j: int|
            #![trigger walk_from(look, tree.path(), pulls)[i], walk_from(look, tree.path(), pulls)[j]]
            0 <= i < j < walk_from(look, tree.path(), pulls).len() && walk_from(
                look,
                tree.path(),
                pulls,
            )[i] is Ok ==> walk_from(look, tree.path(), pulls)[i] != walk_from(
                look,
                tree.path(),
                pulls,
            )[j],
        tree.distinct() ==> forall|link: P, k: int|
            #![trigger tree.holds(Tree::Link(link)), walk_from(look, tree.path(), pulls)[k]]
            tree.holds(Tree::Link(link)) && 0 <= k < walk_from(look, tree.path(), pulls).len()
                ==> walk_from(look, tree.path(), pulls)[k] != Ok::<P, E>(link),
{
    lemma_walk_yields_preorder(look, tree, pulls);
    lemma_preorder_len(tree);
    let items = tree.preorder();
    if tree.distinct() {
        lemma_distinct_is_apart(tree);
        assert forall|i: int, j: int| 0 <= i < j < items.len() && items[i] is Ok implies items[i]
            != items[j] by {
            lemma_preorder_yields_once(tree, i, j);
        }
        assert forall|link: P, k: int|
            tree.holds(Tree::Link(link)) && 0 <= k < items.len() implies items[k] != Ok::<P, E>(
            link,
        ) by {
            lemma_preorder_skips_links(tree, link, k);
        }
    }
}

/// Where no two nodes of the tree have the same path, the walk yields every
/// directory before anything that lies below it, whatever the order of the
/// children in their listings.
pub proof fn lemma_walk_yields_directory_first<P, E>(
    look: spec_fn(P) -> ProbeView<P, E>,
    tree: Tree<P, E>,
    pulls: nat,
)
    requires
        tree.agrees(look),
        tree.distinct(),
        pulls >= tree.size(),
    ensures
        forall|dir: Tree<P, E>, below: P, i: int, j: int|
            #![trigger tree.holds(dir), dir.has_below(below), walk_from(look, tree.path(), pulls)[i], walk_from(look, tree.path(), pulls)[j]]
            ({
                let items = walk_from(look, tree.path(), pulls);
                &&& tree.holds(dir)
                &&& dir.has_below(below)
                &&& 0 <= i < items.len()
                &&& 0 <= j < items.len()
                &&& items[i] == Ok::<P, E>(dir.path())
                &&& items[j] == Ok::<P, E>(below)
            }) ==> i < j,
{
    lemma_walk_yields_preorder(look, tree, pulls);
    lemma_distinct_is_apart(tree);
    let items = tree.preorder();
    assert forall|dir: Tree<P, E>, below: P, i: int, j: int|
        tree.holds(dir) && dir.has_below(below) && 0 <= i < items.len() && 0 <= j < items.len()
            && items[i] == Ok::<P, E>(dir.path()) && items[j] == Ok::<P, E>(below) implies i
        < j by {
        lemma_preorder_directory_first(tree, dir, below, i, j);
    }
}

} // verus!
