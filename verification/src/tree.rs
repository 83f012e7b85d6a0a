//! Directory trees as mathematical values: their pre-order, and the place
//! of each entry in it.

use vstd::prelude::*;

verus! {

/// A directory tree in which every entry can be read and every directory can
/// be listed.
pub enum Tree<E> {
    /// An entry that is not a directory.
    File(E),
    /// A directory and its children in listing order.
    Directory(E, Seq<Tree<E>>),
}

impl<E> Tree<E> {
    /// The handle of the tree's root.
    pub open spec fn entry(self) -> E {
        match self {
            Tree::File(e) => e,
            Tree::Directory(e, _) => e,
        }
    }

    /// The children of the root in listing order; none for a file.
    pub open spec fn children(self) -> Seq<Tree<E>> {
        match self {
            Tree::File(_) => Seq::empty(),
            Tree::Directory(_, children) => children,
        }
    }

    /// The number of entries in the tree, its root included.
    pub open spec fn size(self) -> nat
        decreases self,
    {
        match self {
            Tree::File(_) => 1,
            Tree::Directory(_, children) => 1 + forest_size(children),
        }
    }

    /// The entries of the tree in pre-order: the root, then each child's
    /// subtree in full, in listing order.
    pub open spec fn preorder(self) -> Seq<E>
        decreases self,
    {
        match self {
            Tree::File(e) => seq![e],
            Tree::Directory(e, children) => seq![e] + forest_preorder(children),
        }
    }

    /// Whether `path` leads from the root to an entry of the tree: each
    /// number of the path picks a child, by its place in the listing, of the
    /// entry reached so far. The empty path leads to the root.
    pub open spec fn has_path(self, path: Seq<int>) -> bool
        decreases path.len(),
    {
        path.len() > 0 ==> {
            &&& 0 <= path[0] < self.children().len()
            &&& self.children()[path[0]].has_path(path.drop_first())
        }
    }

    /// The subtree whose root `path` leads to.
    pub open spec fn at(self, path: Seq<int>) -> Tree<E>
        decreases path.len(),
    {
        if path.len() == 0 {
            self
        } else {
            self.children()[path[0]].at(path.drop_first())
        }
    }

    /// The place in the pre-order of the entry that `path` leads to: one for
    /// the root, the sizes of the children listed before the chosen one, and
    /// the place within the chosen child.
    pub open spec fn position(self, path: Seq<int>) -> nat
        decreases path.len(),
    {
        if path.len() == 0 {
            0
        } else {
            1 + forest_size(self.children().take(path[0])) + self.children()[path[0]].position(
                path.drop_first(),
            )
        }
    }
}

/// The number of entries in a row of trees.
pub open spec fn forest_size<E>(forest: Seq<Tree<E>>) -> nat
    decreases forest,
{
    if forest.len() == 0 {
        0
    } else {
        forest[0].size() + forest_size(forest.drop_first())
    }
}

/// The pre-orders of a row of trees, one after the other.
pub open spec fn forest_preorder<E>(forest: Seq<Tree<E>>) -> Seq<E>
    decreases forest,
{
    if forest.len() == 0 {
        Seq::empty()
    } else {
        forest[0].preorder() + forest_preorder(forest.drop_first())
    }
}

/// The size of two rows of trees put together is the sum of their sizes.
pub proof fn lemma_forest_size_concat<E>(front: Seq<Tree<E>>, back: Seq<Tree<E>>)
    ensures
        forest_size(front + back) == forest_size(front) + forest_size(back),
    decreases front.len(),
{
    if front.len() == 0 {
        assert(front + back == back);
    } else {
        assert((front + back).drop_first() == front.drop_first() + back);
        lemma_forest_size_concat(front.drop_first(), back);
    }
}

/// The pre-order of two rows of trees put together is the first row's
/// pre-order followed by the second's.
pub proof fn lemma_forest_preorder_concat<E>(front: Seq<Tree<E>>, back: Seq<Tree<E>>)
    ensures
        forest_preorder(front + back) == forest_preorder(front) + forest_preorder(back),
    decreases front.len(),
{
    if front.len() == 0 {
        assert(front + back == back);
    } else {
        assert((front + back).drop_first() == front.drop_first() + back);
        lemma_forest_preorder_concat(front.drop_first(), back);
    }
}

/// The pre-order of a tree holds as many entries as the tree has.
pub proof fn lemma_preorder_len<E>(tree: Tree<E>)
    ensures
        tree.preorder().len() == tree.size(),
    decreases tree,
{
    match tree {
        Tree::File(_) => {},
        Tree::Directory(_, children) => {
            lemma_forest_preorder_len(children);
        },
    }
}

/// The pre-order of a row of trees holds as many entries as the trees have.
pub proof fn lemma_forest_preorder_len<E>(forest: Seq<Tree<E>>)
    ensures
        forest_preorder(forest).len() == forest_size(forest),
    decreases forest,
{
    if forest.len() > 0 {
        lemma_preorder_len(forest[0]);
        lemma_forest_preorder_len(forest.drop_first());
    }
}

/// A row of trees splits at any of its trees: the pre-order is that of the
/// trees before it, then the tree's own, then that of the trees after it, and
/// the sizes add up in the same way.
pub proof fn lemma_forest_split<E>(forest: Seq<Tree<E>>, i: int)
    requires
        0 <= i < forest.len(),
    ensures
        forest_preorder(forest) == forest_preorder(forest.take(i)) + forest[i].preorder()
            + forest_preorder(forest.skip(i + 1)),
        forest_size(forest) == forest_size(forest.take(i)) + forest[i].size() + forest_size(
            forest.skip(i + 1),
        ),
        forest_size(forest.take(i + 1)) == forest_size(forest.take(i)) + forest[i].size(),
{
    let before = forest.take(i);
    let from = forest.skip(i);
    assert(forest =~= before + from);
    assert(from.drop_first() =~= forest.skip(i + 1));
    assert(from[0] == forest[i]);
    lemma_forest_preorder_concat(before, from);
    lemma_forest_size_concat(before, from);
    assert(forest_preorder(from) == forest[i].preorder() + forest_preorder(forest.skip(i + 1)));
    assert(forest_size(from) == forest[i].size() + forest_size(forest.skip(i + 1)));
    let single = seq![forest[i]];
    assert(forest.take(i + 1) =~= before + single);
    lemma_forest_size_concat(before, single);
    assert(forest_size(single.drop_first()) == 0);
    assert(forest_size(single) == forest[i].size());
}

/// The trees listed before a later tree hold at least the entries of the
/// trees listed before an earlier one and of that earlier one.
pub proof fn lemma_forest_prefix_grows<E>(forest: Seq<Tree<E>>, i: int, j: int)
    requires
        0 <= i < j <= forest.len(),
    ensures
        forest_size(forest.take(i)) + forest[i].size() <= forest_size(forest.take(j)),
{
    lemma_forest_split(forest, i);
    let upto = forest.take(i + 1);
    let between = forest.subrange(i + 1, j);
    assert(forest.take(j) =~= upto + between);
    lemma_forest_size_concat(upto, between);
}

/// The subtree of an entry fills one block of the pre-order, which starts at
/// the entry's own place: the entry comes first, and its descendants follow
/// with nothing else in between.
pub proof fn lemma_subtree_is_block<E>(tree: Tree<E>, path: Seq<int>)
    requires
        tree.has_path(path),
    ensures
        tree.position(path) + tree.at(path).size() <= tree.size(),
        tree.preorder().subrange(
            tree.position(path) as int,
            (tree.position(path) + tree.at(path).size()) as int,
        ) == tree.at(path).preorder(),
        tree.preorder()[tree.position(path) as int] == tree.at(path).entry(),
    decreases path.len(),
{
    lemma_preorder_len(tree);
    lemma_preorder_len(tree.at(path));
    if path.len() == 0 {
        assert(tree.preorder().subrange(0, tree.size() as int) =~= tree.preorder());
    } else {
        let i = path[0];
        let children = tree.children();
        let child = children[i];
        let rest = path.drop_first();
        lemma_subtree_is_block(child, rest);
        lemma_forest_split(children, i);
        lemma_forest_preorder_len(children.take(i));
        lemma_preorder_len(child);
        let offset = 1 + forest_size(children.take(i));
        let inner = child.position(rest) as int;
        let size = child.at(rest).size() as int;
        assert(tree.preorder() =~= seq![tree.entry()] + forest_preorder(children));
        assert(tree.size() == 1 + forest_size(children));
        assert forall|k: int| 0 <= k < child.size() implies tree.preorder()[offset + k]
            == child.preorder()[k] by {}
        assert(tree.preorder().subrange(offset + inner, offset + inner + size)
            =~= child.preorder().subrange(inner, inner + size));
    }
    assert(tree.at(path).preorder()[0] == tree.at(path).entry());
}

/// Paths compose: following `path` and then `rest` leads to the entry that
/// `rest` leads to inside the subtree at `path`, and its place is the place of
/// that subtree plus its place inside it.
pub proof fn lemma_path_concat<E>(tree: Tree<E>, path: Seq<int>, rest: Seq<int>)
    requires
        tree.has_path(path),
        tree.at(path).has_path(rest),
    ensures
        tree.has_path(path + rest),
        tree.at(path + rest) == tree.at(path).at(rest),
        tree.position(path + rest) == tree.position(path) + tree.at(path).position(rest),
    decreases path.len(),
{
    if path.len() == 0 {
        assert(path + rest =~= rest);
    } else {
        assert((path + rest).drop_first() =~= path.drop_first() + rest);
        lemma_path_concat(tree.children()[path[0]], path.drop_first(), rest);
    }
}

/// Pre-order: every entry below a directory is yielded after the directory
/// and inside the block of the pre-order that the directory's subtree fills.
pub proof fn lemma_descendants_follow<E>(tree: Tree<E>, path: Seq<int>, rest: Seq<int>)
    requires
        tree.has_path(path),
        tree.at(path).has_path(rest),
        rest.len() > 0,
    ensures
        tree.has_path(path + rest),
        tree.position(path) < tree.position(path + rest),
        tree.position(path + rest) + tree.at(path + rest).size() <= tree.position(path)
            + tree.at(path).size(),
{
    lemma_path_concat(tree, path, rest);
    lemma_subtree_is_block(tree.at(path), rest);
}

/// Sibling order: the children of a directory are yielded in listing order,
/// and the whole subtree of a child is yielded before any child listed after
/// it.
pub proof fn lemma_siblings_in_listing_order<E>(tree: Tree<E>, path: Seq<int>, i: int, j: int)
    requires
        tree.has_path(path),
        0 <= i < j < tree.at(path).children().len(),
    ensures
        tree.has_path(path.push(i)),
        tree.has_path(path.push(j)),
        tree.at(path.push(i)) == tree.at(path).children()[i],
        tree.at(path.push(j)) == tree.at(path).children()[j],
        tree.position(path.push(i)) + tree.at(path.push(i)).size() <= tree.position(
            path.push(j),
        ),
{
    let parent = tree.at(path);
    let children = parent.children();
    let to_i = seq![i];
    let to_j = seq![j];
    assert(to_i.drop_first().len() == 0);
    assert(to_j.drop_first().len() == 0);
    assert(children[i].has_path(to_i.drop_first()));
    assert(children[j].has_path(to_j.drop_first()));
    assert(children[i].at(to_i.drop_first()) == children[i]);
    assert(children[j].at(to_j.drop_first()) == children[j]);
    assert(children[i].position(to_i.drop_first()) == 0);
    assert(children[j].position(to_j.drop_first()) == 0);
    assert(path.push(i) =~= path + to_i);
    assert(path.push(j) =~= path + to_j);
    lemma_path_concat(tree, path, to_i);
    lemma_path_concat(tree, path, to_j);
    lemma_forest_prefix_grows(children, i, j);
}

/// No duplicates: two different entries of a tree have different places in
/// its pre-order.
pub proof fn lemma_places_differ<E>(tree: Tree<E>, one: Seq<int>, other: Seq<int>)
    requires
        tree.has_path(one),
        tree.has_path(other),
        one != other,
    ensures
        tree.position(one) != tree.position(other),
    decreases one.len(),
{
    if one.len() == 0 {
        assert(other.len() > 0) by {
            if other.len() == 0 {
                assert(one =~= other);
            }
        }
    } else if other.len() == 0 {
    } else {
        let children = tree.children();
        let i = one[0];
        let j = other[0];
        lemma_subtree_is_block(children[i], one.drop_first());
        lemma_subtree_is_block(children[j], other.drop_first());
        if i == j {
            assert(one.drop_first() != other.drop_first()) by {
                if one.drop_first() == other.drop_first() {
                    assert(one =~= seq![i] + one.drop_first());
                    assert(other =~= seq![j] + other.drop_first());
                }
            }
            lemma_places_differ(children[i], one.drop_first(), other.drop_first());
        } else if i < j {
            lemma_forest_prefix_grows(children, i, j);
        } else {
            lemma_forest_prefix_grows(children, j, i);
        }
    }
}

/// Among a row of trees that holds more than `k` entries, finds the tree that
/// holds the entry with `k` entries before it.
pub proof fn lemma_forest_locate<E>(forest: Seq<Tree<E>>, k: int) -> (i: int)
    requires
        0 <= k < forest_size(forest),
    ensures
        0 <= i < forest.len(),
        forest_size(forest.take(i)) <= k < forest_size(forest.take(i)) + forest[i].size(),
    decreases forest.len(),
{
    let last = forest.len() - 1;
    lemma_forest_split(forest, last);
    assert(forest.skip(last + 1).len() == 0);
    if k >= forest_size(forest.take(last)) {
        last
    } else {
        let i = lemma_forest_locate(forest.take(last), k);
        assert(forest.take(last).take(i) =~= forest.take(i));
        i
    }
}

/// Nothing but entries: every place in the pre-order of a tree is the place
/// of one of its entries.
pub proof fn lemma_every_place_is_taken<E>(tree: Tree<E>, k: int) -> (path: Seq<int>)
    requires
        0 <= k < tree.size(),
    ensures
        tree.has_path(path),
        tree.position(path) == k,
    decreases tree.size(),
{
    if k == 0 {
        Seq::empty()
    } else {
        let children = tree.children();
        assert(tree.size() == 1 + forest_size(children));
        let i = lemma_forest_locate(children, k - 1);
        lemma_forest_split(children, i);
        let inner = lemma_every_place_is_taken(children[i], k - 1 - forest_size(children.take(i)));
        let path = seq![i] + inner;
        assert(path.drop_first() =~= inner);
        path
    }
}

} // verus!
