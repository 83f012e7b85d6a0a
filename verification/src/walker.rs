//! The traversal engine: a stack of entries still to visit and a latch that
//! stops the walk for good after a fatal error.

use crate::seed::{seed_search, Identity, SeedError, Sibling};
use vstd::prelude::*;

verus! {

/// The walker as a mathematical value.
pub struct WalkerState<E> {
    /// Entries still to visit; the last one is visited next.
    pub stack: Seq<E>,
    /// Set once a fatal error was yielded; nothing is yielded afterwards.
    pub halted: bool,
}

/// What inspecting one entry on the filesystem found, as a mathematical value.
pub enum InspectionView<E, X> {
    /// The entry's metadata could not be read.
    Unreadable(X),
    /// The entry is not a directory.
    File,
    /// The entry is a directory that could not be listed. The error is
    /// yielded in place of the directory, and the walk goes on with the
    /// entries that are still waiting.
    Unlistable(X),
    /// The entry is a directory; its children in listing order, each one
    /// either a handle or the error met while enumerating it.
    Directory(Seq<Result<E, X>>),
}

/// What inspecting one entry on the filesystem found.
#[derive(Debug)]
pub enum Inspection<E, X> {
    /// The entry's metadata could not be read.
    Unreadable(X),
    /// The entry is not a directory.
    File,
    /// The entry is a directory that could not be listed. The error is
    /// yielded in place of the directory, and the walk goes on with the
    /// entries that are still waiting.
    Unlistable(X),
    /// The entry is a directory; its children in listing order, each one
    /// either a handle or the error met while enumerating it.
    Directory(Vec<Result<E, X>>),
}

impl<E, X> View for Inspection<E, X> {
    type V = InspectionView<E, X>;

    open spec fn view(&self) -> InspectionView<E, X> {
        match *self {
            Inspection::Unreadable(x) => InspectionView::Unreadable(x),
            Inspection::File => InspectionView::File,
            Inspection::Unlistable(x) => InspectionView::Unlistable(x),
            Inspection::Directory(children) => InspectionView::Directory(children@),
        }
    }
}

impl<E, X> Inspection<E, X> {
    /// What reading an entry's metadata settles. `is_directory` is the outcome
    /// of the read. Unreadable metadata and an entry that is not a directory
    /// are findings; for a directory the result is `None`, which asks the
    /// caller to list it and to take the finding from `from_listing`.
    pub fn from_metadata(is_directory: Result<bool, X>) -> (r: Option<Self>)
        ensures
            match is_directory {
                Err(x) => r matches Some(found) && found@ == InspectionView::<E, X>::Unreadable(x),
                Ok(false) => r matches Some(found) && found@ == InspectionView::<E, X>::File,
                Ok(true) => r is None,
            },
    {
        match is_directory {
            Err(e) => Some(Inspection::Unreadable(e)),
            Ok(false) => Some(Inspection::File),
            Ok(true) => None,
        }
    }

    /// The finding for a directory, given the outcome of listing it.
    pub fn from_listing(listing: Result<Vec<Result<E, X>>, X>) -> (found: Self)
        ensures
            match listing {
                Err(x) => found@ == InspectionView::<E, X>::Unlistable(x),
                Ok(children) => found@ == InspectionView::Directory(children@),
            },
    {
        match listing {
            Err(e) => Inspection::Unlistable(e),
            Ok(children) => Inspection::Directory(children),
        }
    }
}

/// The error of the first child that could not be enumerated, if there is one.
pub open spec fn first_failure<E, X>(children: Seq<Result<E, X>>) -> Option<X>
    decreases children.len(),
{
    if children.len() == 0 {
        None
    } else {
        match children[0] {
            Err(x) => Some(x),
            Ok(_) => first_failure(children.drop_first()),
        }
    }
}

/// The earliest child that could not be enumerated gives the failure.
pub proof fn lemma_first_failure_is_earliest<E, X>(children: Seq<Result<E, X>>, i: int)
    requires
        0 <= i < children.len(),
        children[i] is Err,
        forall|j: int| 0 <= j < i ==> (#[trigger] children[j]) is Ok,
    ensures
        first_failure(children) == Some(children[i]->Err_0),
    decreases i,
{
    if i > 0 {
        let tail = children.drop_first();
        assert(children[0] is Ok);
        assert(tail[i - 1] == children[i]);
        assert forall|j: int| 0 <= j < i - 1 implies (#[trigger] tail[j]) is Ok by {
            assert(tail[j] == children[j + 1]);
        }
        lemma_first_failure_is_earliest(tail, i - 1);
    }
}

/// A listing has no failure exactly when every child was enumerated.
pub proof fn lemma_no_failure<E, X>(children: Seq<Result<E, X>>)
    ensures
        first_failure(children) is None <==> forall|j: int|
            0 <= j < children.len() ==> (#[trigger] children[j]) is Ok,
    decreases children.len(),
{
    if children.len() > 0 {
        let tail = children.drop_first();
        lemma_no_failure(tail);
        if children[0] is Err {
        } else if forall|j: int| 0 <= j < tail.len() ==> (#[trigger] tail[j]) is Ok {
            assert forall|j: int| 0 <= j < children.len() implies (#[trigger] children[j]) is Ok by {
                if j > 0 {
                    assert(tail[j - 1] == children[j]);
                }
            }
        } else {
            let j = choose|j: int| 0 <= j < tail.len() && (#[trigger] tail[j]) is Err;
            assert(tail[j] == children[j + 1]);
        }
    }
}

/// The handles of a listing in which every child was enumerated.
pub open spec fn handles<E, X>(children: Seq<Result<E, X>>) -> Seq<E> {
    Seq::new(children.len(), |i: int| children[i]->Ok_0)
}

impl<E> WalkerState<E> {
    /// A walk about to start at `entry`.
    pub open spec fn seeded(entry: E) -> Self {
        WalkerState { stack: seq![entry], halted: false }
    }

    /// A walk with nothing to visit.
    pub open spec fn finished() -> Self {
        WalkerState { stack: Seq::empty(), halted: false }
    }

    /// The entry that the next step visits, if the walk goes on.
    pub open spec fn pending(self) -> Option<E> {
        if self.halted || self.stack.len() == 0 {
            None
        } else {
            Some(self.stack.last())
        }
    }

    /// The state with the pending entry taken off.
    pub open spec fn popped(self, halted: bool) -> Self {
        WalkerState { stack: self.stack.drop_last(), halted }
    }

    /// One step of the walk: the state afterwards and the value yielded.
    ///
    /// A walk that is halted or has nothing left yields nothing and stays as it
    /// is. Otherwise the pending entry is taken off the stack. Unreadable
    /// metadata and a child that cannot be enumerated halt the walk; a
    /// directory that cannot be listed yields its error and lets the walk go
    /// on with what is left. A directory's children go onto the stack in
    /// reverse, so that they come off in listing order.
    pub open spec fn step<X>(self, found: InspectionView<E, X>) -> (Self, Option<Result<E, X>>) {
        if self.pending() is None {
            (self, None)
        } else {
            let entry = self.stack.last();
            match found {
                InspectionView::Unreadable(x) => (self.popped(true), Some(Err(x))),
                InspectionView::File => (self.popped(false), Some(Ok(entry))),
                InspectionView::Unlistable(x) => (self.popped(false), Some(Err(x))),
                InspectionView::Directory(children) => match first_failure(children) {
                    Some(x) => (self.popped(true), Some(Err(x))),
                    None => (
                        WalkerState {
                            stack: self.stack.drop_last() + handles(children).reverse(),
                            halted: false,
                        },
                        Some(Ok(entry)),
                    ),
                },
            }
        }
    }
}

/// A pre-order walker over opaque directory-entry handles of type `E`.
#[derive(Debug)]
pub struct TreeWalker<E> {
    stack: Vec<E>,
    fatal_error: bool,
}

impl<E> View for TreeWalker<E> {
    type V = WalkerState<E>;

    closed spec fn view(&self) -> WalkerState<E> {
        WalkerState { stack: self.stack@, halted: self.fatal_error }
    }
}

impl<E> Default for TreeWalker<E> {
    /// A walker with nothing to visit.
    fn default() -> (walker: Self)
        ensures
            walker@ == WalkerState::<E>::finished(),
    {
        TreeWalker { stack: Vec::new(), fatal_error: false }
    }
}

impl<E> TreeWalker<E> {
    /// Seeds a walker with the start entry, found among the children of the
    /// directory that holds it by its identity.
    ///
    /// The listing is searched front to back. The search ends at the first
    /// child that has the identity `start`, which becomes the only entry on
    /// the stack, or at the first child that could not be read, whose error is
    /// returned. Children after that one are not looked at.
    pub fn new<X>(start: Identity, siblings: Vec<Result<Sibling<E>, X>>) -> (r: Result<
        Self,
        SeedError<X>,
    >)
        ensures
            match seed_search(start, siblings@) {
                Ok(entry) => r matches Ok(walker) && walker@ == WalkerState::seeded(entry),
                Err(error) => r matches Err(e) && e == error,
            },
    {
        let ghost all = siblings@;
        assert(all.skip(0) == all);
        for item in iter: siblings
            invariant
                iter.seq() == all,
                seed_search(start, all) == seed_search(start, all.skip(iter.index() as int)),
        {
            let ghost at = iter.index() as int;
            assert(all.skip(at)[0] == all[at]);
            assert(all.skip(at).drop_first() == all.skip(at + 1));
            match item {
                Err(e) => {
                    return Err(SeedError::Io(e));
                },
                Ok(sibling) => {
                    if sibling.identity.same_object(&start) {
                        let mut walker = TreeWalker::default();
                        walker.stack.push(sibling.entry);
                        assert(walker.stack@ == seq![sibling.entry]);
                        return Ok(walker);
                    }
                },
            }
        }
        assert(all.skip(all.len() as int).len() == 0);
        Err(SeedError::NotFound)
    }

    /// The entry that the next call of `next` visits: the caller inspects it
    /// and hands the finding to `next`. `None` when the walk is over.
    pub fn pending(&self) -> (r: Option<&E>)
        ensures
            match r {
                Some(entry) => self@.pending() == Some(*entry),
                None => self@.pending() is None,
            },
    {
        if self.fatal_error || self.stack.len() == 0 {
            None
        } else {
            Some(&self.stack[self.stack.len() - 1])
        }
    }

    /// Advances the walk by one entry, given what inspecting the pending entry
    /// found, and returns the value to yield: the entry, or the error met on
    /// it. Returns `None`, and ignores `found`, once the walk has halted or
    /// nothing is left to visit.
    #[verifier::loop_isolation(false)]
    pub fn next<X>(&mut self, found: Inspection<E, X>) -> (r: Option<Result<E, X>>)
        ensures
            (final(self)@, r) == old(self)@.step(found@),
    {
        // To avoid dead loop
        if self.fatal_error {
            return None;
        }
        match self.stack.pop() {
            None => None,
            Some(entry) => match found {
                Inspection::Unreadable(e) => {
                    self.fatal_error = true;
                    Some(Err(e))
                },
                Inspection::File => Some(Ok(entry)),
                Inspection::Unlistable(e) => Some(Err(e)),
                Inspection::Directory(children) => {
                    let ghost listing = children@;
                    let ghost rest = self.stack@;
                    // To do a pre-order traversal, a temporary stack reverses
                    // the order of the children.
                    let mut temp_stack: Vec<E> = Vec::new();
                    assert(listing.skip(0) == listing);
                    for res_entry in iter: children
                        invariant
                            iter.seq() == listing,
                            self.stack@ == rest,
                            !self.fatal_error,
                            temp_stack@ == handles(listing.take(iter.index() as int)),
                            first_failure(listing) == first_failure(
                                listing.skip(iter.index() as int),
                            ),
                    {
                        let ghost at = iter.index() as int;
                        assert(listing.skip(at).drop_first() == listing.skip(at + 1));
                        match res_entry {
                            Ok(e) => {
                                temp_stack.push(e);
                                assert(temp_stack@ == handles(listing.take(at + 1)));
                            },
                            Err(e) => {
                                assert(listing.skip(at)[0] == listing[at]);
                                assert(first_failure(listing) == Some(e));
                                self.fatal_error = true;
                                return Some(Err(e));
                            },
                        }
                    }
                    assert(listing.take(listing.len() as int) == listing);
                    assert(listing.skip(listing.len() as int).len() == 0);
                    let ghost all = handles(listing);
                    assert(all.skip(all.len() as int).reverse() == Seq::<E>::empty());
                    while temp_stack.len() > 0
                        invariant
                            !self.fatal_error,
                            temp_stack@ == all.take(temp_stack.len() as int),
                            temp_stack.len() <= all.len(),
                            self.stack@ == rest + all.skip(temp_stack.len() as int).reverse(),
                        decreases temp_stack.len(),
                    {
                        let ghost k = temp_stack.len() as int;
                        let e = temp_stack.pop().unwrap();
                        self.stack.push(e);
                        assert(temp_stack@ == all.take(k - 1));
                        assert(all.skip(k - 1).reverse() == all.skip(k).reverse().push(all[k - 1]));
                    }
                    assert(all.skip(0) == all);
                    Some(Ok(entry))
                },
            },
        }
    }
}

} // verus!
