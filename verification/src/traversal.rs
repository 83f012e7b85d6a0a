//! What a walk yields: nothing once it has halted, and the pre-order of the
//! tree when every entry can be read.

use crate::tree::{
    forest_preorder, forest_size, lemma_forest_preorder_concat, lemma_forest_preorder_len,
    lemma_forest_size_concat, lemma_subtree_is_block, Tree,
};
use crate::walker::{first_failure, handles, lemma_no_failure, InspectionView, WalkerState};
use vstd::prelude::*;

verus! {

impl<E, X> InspectionView<E, X> {
    /// Whether the finding is a fatal error: the entry's metadata could not be
    /// read, or one of its children could not be enumerated. A directory that
    /// could not be listed at all is an error, but not a fatal one.
    pub open spec fn is_fatal(self) -> bool {
        match self {
            InspectionView::Unreadable(_) => true,
            InspectionView::Directory(children) => first_failure(children) is Some,
            _ => false,
        }
    }
}

/// `count` calls that yield nothing.
pub open spec fn nothing<E, X>(count: nat) -> Seq<Option<Result<E, X>>> {
    Seq::new(count, |i: int| None)
}

impl<E> WalkerState<E> {
    /// A series of steps, one for each finding: the values yielded, in order,
    /// and the state at the end.
    pub open spec fn run<X>(self, findings: Seq<InspectionView<E, X>>) -> (
        Seq<Option<Result<E, X>>>,
        Self,
    )
        decreases findings.len(),
    {
        if findings.len() == 0 {
            (Seq::empty(), self)
        } else {
            let (after, value) = self.step(findings[0]);
            let (values, end) = after.run(findings.drop_first());
            (seq![value] + values, end)
        }
    }
}

/// A halted walk stays halted: whatever it is told, and however often, it
/// yields nothing and keeps its state, stack included.
pub proof fn lemma_halted_walk_yields_nothing<E, X>(
    state: WalkerState<E>,
    findings: Seq<InspectionView<E, X>>,
)
    requires
        state.halted,
    ensures
        state.run(findings) == (nothing::<E, X>(findings.len()), state),
    decreases findings.len(),
{
    if findings.len() > 0 {
        lemma_halted_walk_yields_nothing(state, findings.drop_first());
    }
    assert(state.run(findings).0 =~= nothing::<E, X>(findings.len()));
}

/// A fatal error ends the walk: the step that meets it yields the error and
/// takes the entry off the stack, and every later step yields nothing, even
/// though entries may still be waiting on the stack.
pub proof fn lemma_fatal_error_ends_walk<E, X>(
    state: WalkerState<E>,
    fatal: InspectionView<E, X>,
    later: Seq<InspectionView<E, X>>,
)
    requires
        state.pending() is Some,
        fatal.is_fatal(),
    ensures
        state.step(fatal).1 matches Some(Err(_)),
        state.step(fatal).0 == state.popped(true),
        state.step(fatal).0.run(later) == (nothing::<E, X>(later.len()), state.popped(true)),
{
    lemma_halted_walk_yields_nothing(state.popped(true), later);
}

/// Any other finding lets the walk go on: the step yields a value and leaves
/// the walk unhalted. This holds for a directory that could not be listed,
/// whose error is yielded in place of the directory.
pub proof fn lemma_walk_goes_on<E, X>(state: WalkerState<E>, found: InspectionView<E, X>)
    requires
        state.pending() is Some,
        !found.is_fatal(),
    ensures
        state.step(found).1 is Some,
        !state.step(found).0.halted,
        found matches InspectionView::Unlistable(x) ==> state.step(found) == (
            state.popped(false),
            Some(Err::<E, X>(x)),
        ),
{
}

/// The top of the stack is the next entry to be yielded: where the pending
/// entry turns out to be readable, and, if it is a directory, all its
/// children can be enumerated, the step yields that entry.
pub proof fn lemma_pending_entry_is_yielded<E, X>(
    state: WalkerState<E>,
    found: InspectionView<E, X>,
)
    requires
        state.pending() is Some,
        found is File || (found is Directory && !found.is_fatal()),
    ensures
        state.step(found).1 == Some(Ok::<E, X>(state.pending()->0)),
{
}

/// A step never touches the entries below the pending one: it takes the
/// pending entry off and, for a directory whose children were all enumerated,
/// puts one entry on for each child.
pub proof fn lemma_step_keeps_waiting_entries<E, X>(
    state: WalkerState<E>,
    found: InspectionView<E, X>,
)
    requires
        state.pending() is Some,
    ensures
        state.stack.drop_last().is_prefix_of(state.step(found).0.stack),
        state.step(found).0.stack.len() == state.stack.len() - 1 + match found {
            InspectionView::Directory(children) => if first_failure(children) is None {
                children.len()
            } else {
                0
            },
            _ => 0,
        },
{
}

impl<E> Tree<E> {
    /// What inspecting the root finds.
    pub open spec fn inspection<X>(self) -> InspectionView<E, X> {
        match self {
            Tree::File(_) => InspectionView::File,
            Tree::Directory(_, children) => InspectionView::Directory(listing(children)),
        }
    }
}

/// The root handles of a row of trees.
pub open spec fn roots<E>(forest: Seq<Tree<E>>) -> Seq<E> {
    Seq::new(forest.len(), |i: int| forest[i].entry())
}

/// The listing of a directory whose children are `forest`: every child is
/// enumerated without error.
pub open spec fn listing<E, X>(forest: Seq<Tree<E>>) -> Seq<Result<E, X>> {
    Seq::new(forest.len(), |i: int| Ok(forest[i].entry()))
}

/// A row of entries as the values that a walk yields for them.
pub open spec fn yielded<E, X>(entries: Seq<E>) -> Seq<Option<Result<E, X>>> {
    Seq::new(entries.len(), |i: int| Some(Ok(entries[i])))
}

/// A listing in which every child was enumerated has no failure, and its
/// handles are the children's roots.
pub proof fn lemma_listing_is_clean<E, X>(forest: Seq<Tree<E>>)
    ensures
        first_failure(listing::<E, X>(forest)) is None,
        handles(listing::<E, X>(forest)) == roots(forest),
{
    lemma_no_failure(listing::<E, X>(forest));
}

/// The trees that are left to walk once the first tree of `agenda` was
/// visited: its children, then the trees that were waiting behind it.
pub open spec fn agenda_after_visit<E>(agenda: Seq<Tree<E>>) -> Seq<Tree<E>>
    recommends
        agenda.len() > 0,
{
    agenda[0].children() + agenda.drop_first()
}

/// Visiting the first tree of an agenda leaves one entry fewer to walk.
pub proof fn lemma_visit_shrinks_agenda<E>(agenda: Seq<Tree<E>>)
    requires
        agenda.len() > 0,
    ensures
        forest_size(agenda_after_visit(agenda)) + 1 == forest_size(agenda),
{
    lemma_forest_size_concat(agenda[0].children(), agenda.drop_first());
    assert(agenda[0].size() == 1 + forest_size(agenda[0].children()));
}

/// Whether a walker is about to walk `agenda`: it has not halted, and its
/// stack holds the roots of `agenda`, the first tree's root on top.
pub open spec fn awaits<E>(state: WalkerState<E>, agenda: Seq<Tree<E>>) -> bool {
    &&& !state.halted
    &&& state.stack =~= roots(agenda).reverse()
}

/// The walk of `agenda` from `state`, each entry inspected as its tree says:
/// the values yielded, in order, and the state at the end.
pub open spec fn walk<E, X>(state: WalkerState<E>, agenda: Seq<Tree<E>>) -> (
    Seq<Option<Result<E, X>>>,
    WalkerState<E>,
)
    decreases forest_size(agenda),
{
    if agenda.len() == 0 {
        (Seq::empty(), state)
    } else {
        proof {
            lemma_visit_shrinks_agenda(agenda);
        }
        let (after, value) = state.step::<X>(agenda[0].inspection());
        let (values, end) = walk::<E, X>(after, agenda_after_visit(agenda));
        (seq![value] + values, end)
    }
}

/// One step in pre-order: a walker that awaits `agenda` yields the root of
/// the first tree, then awaits that tree's children followed by the trees
/// that were behind it; and the pre-order of `agenda` is that root followed
/// by the pre-order of what is then awaited.
pub proof fn lemma_step_visits_first<E, X>(state: WalkerState<E>, agenda: Seq<Tree<E>>)
    requires
        awaits(state, agenda),
        agenda.len() > 0,
    ensures
        state.pending() == Some(agenda[0].entry()),
        state.step::<X>(agenda[0].inspection()).1 == Some(Ok::<E, X>(agenda[0].entry())),
        awaits(state.step::<X>(agenda[0].inspection()).0, agenda_after_visit(agenda)),
        forest_preorder(agenda) == seq![agenda[0].entry()] + forest_preorder(
            agenda_after_visit(agenda),
        ),
{
    let first = agenda[0];
    let behind = agenda.drop_first();
    let top = roots(agenda).reverse();
    assert(top.last() == first.entry());
    assert(state.stack.drop_last() =~= roots(behind).reverse());
    lemma_forest_preorder_concat(first.children(), behind);
    match first {
        Tree::File(_) => {
            assert(agenda_after_visit(agenda) =~= behind);
            assert(forest_preorder(first.children()) =~= Seq::<E>::empty());
        },
        Tree::Directory(_, children) => {
            lemma_listing_is_clean::<E, X>(children);
            assert(roots(behind).reverse() + roots(children).reverse() =~= roots(
                children + behind,
            ).reverse());
        },
    }
    assert(first.preorder() =~= seq![first.entry()] + forest_preorder(first.children()));
    assert(forest_preorder(agenda) =~= seq![first.entry()] + forest_preorder(
        agenda_after_visit(agenda),
    ));
}

/// A walker that awaits nothing yields nothing, whatever it is told, and
/// stays as it is.
pub proof fn lemma_walk_is_over<E, X>(state: WalkerState<E>, found: InspectionView<E, X>)
    requires
        awaits(state, Seq::<Tree<E>>::empty()),
    ensures
        state == WalkerState::<E>::finished(),
        state.step(found) == (state, None::<Result<E, X>>),
{
    assert(state.stack =~= Seq::<E>::empty());
}

/// The walker yields the pre-order: walking `agenda` from a state that awaits
/// it yields each entry of its pre-order once, in that order, as a success,
/// and ends with nothing left to visit.
pub proof fn lemma_walk_yields_preorder<E, X>(state: WalkerState<E>, agenda: Seq<Tree<E>>)
    requires
        awaits(state, agenda),
    ensures
        walk::<E, X>(state, agenda).0 == yielded::<E, X>(forest_preorder(agenda)),
        walk::<E, X>(state, agenda).0.len() == forest_size(agenda),
        walk::<E, X>(state, agenda).1 == WalkerState::<E>::finished(),
    decreases forest_size(agenda),
{
    lemma_forest_preorder_len(agenda);
    if agenda.len() == 0 {
        lemma_walk_is_over::<E, X>(state, InspectionView::File);
        assert(walk::<E, X>(state, agenda).0 =~= yielded::<E, X>(forest_preorder(agenda)));
    } else {
        lemma_visit_shrinks_agenda(agenda);
        lemma_step_visits_first::<E, X>(state, agenda);
        let (after, value) = state.step::<X>(agenda[0].inspection());
        lemma_walk_yields_preorder::<E, X>(after, agenda_after_visit(agenda));
        assert(walk::<E, X>(state, agenda).0 =~= yielded::<E, X>(forest_preorder(agenda)));
    }
}

/// A walk seeded with the root of `tree` yields the tree's entries in
/// pre-order, one value for each entry of the tree, and then nothing more.
pub proof fn lemma_walk_of_tree<E, X>(tree: Tree<E>, found: InspectionView<E, X>)
    ensures
        walk::<E, X>(WalkerState::seeded(tree.entry()), seq![tree]).0 == yielded::<E, X>(
            tree.preorder(),
        ),
        walk::<E, X>(WalkerState::seeded(tree.entry()), seq![tree]).0.len() == tree.size(),
        walk::<E, X>(WalkerState::seeded(tree.entry()), seq![tree]).1.step(found) == (
            WalkerState::<E>::finished(),
            None::<Result<E, X>>,
        ),
{
    let state = WalkerState::seeded(tree.entry());
    let agenda = seq![tree];
    assert(forest_preorder(agenda.drop_first()) =~= Seq::<E>::empty());
    assert(forest_preorder(agenda) =~= tree.preorder());
    assert(forest_size(agenda.drop_first()) == 0);
    lemma_walk_yields_preorder::<E, X>(state, agenda);
}

/// No omissions: a walk seeded with the root of `tree` yields every entry of
/// the tree, each at its place in the pre-order.
pub proof fn lemma_walk_visits_entry<E, X>(tree: Tree<E>, path: Seq<int>)
    requires
        tree.has_path(path),
    ensures
        tree.position(path) < walk::<E, X>(WalkerState::seeded(tree.entry()), seq![tree]).0.len(),
        walk::<E, X>(WalkerState::seeded(tree.entry()), seq![tree]).0[tree.position(
            path,
        ) as int] == Some(Ok::<E, X>(tree.at(path).entry())),
{
    lemma_walk_of_tree::<E, X>(tree, InspectionView::File);
    lemma_subtree_is_block(tree, path);
    assert(tree.at(path).size() >= 1);
}

/// A walk that starts on a plain file yields the file and then ends.
pub proof fn lemma_walk_of_file<E, X>(file: E, found: InspectionView<E, X>)
    ensures
        WalkerState::seeded(file).step::<X>(InspectionView::File) == (
            WalkerState::<E>::finished(),
            Some(Ok::<E, X>(file)),
        ),
        WalkerState::<E>::finished().step(found) == (
            WalkerState::<E>::finished(),
            None::<Result<E, X>>,
        ),
{
    assert(WalkerState::seeded(file).stack.drop_last() =~= Seq::<E>::empty());
}

} // verus!
