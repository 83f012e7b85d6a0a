//! Finding the start entry: it is the child of its parent directory that has
//! the start path's filesystem identity.

use vstd::prelude::*;

verus! {

/// What tells one filesystem object from another: two entries are the same
/// object exactly when both numbers agree.
#[derive(Clone, Copy, Debug, PartialEq, Eq, Structural)]
pub struct Identity {
    /// Identifier of the device that holds the object.
    pub device: u64,
    /// Inode number of the object on that device.
    pub inode: u64,
}

impl Identity {
    /// Whether `self` and `other` name the same filesystem object.
    pub fn same_object(&self, other: &Identity) -> (same: bool)
        ensures
            same == (*self == *other),
    {
        self.device == other.device && self.inode == other.inode
    }
}

/// One child of the directory that holds the start entry, with its identity.
#[derive(Debug)]
pub struct Sibling<E> {
    /// The handle that the listing produced.
    pub entry: E,
    /// The identity read from the handle's metadata.
    pub identity: Identity,
}

/// Why no walker could be seeded.
#[derive(Debug, PartialEq, Eq)]
pub enum SeedError<X> {
    /// A child could not be enumerated, or its metadata could not be read,
    /// before the start entry was found.
    Io(X),
    /// No child has the identity of the start entry.
    NotFound,
}

/// Whether a child ends the search for the start entry: either it could not
/// be read, or it is the start entry.
pub open spec fn decides<E, X>(start: Identity, item: Result<Sibling<E>, X>) -> bool {
    match item {
        Err(_) => true,
        Ok(sibling) => sibling.identity == start,
    }
}

/// The outcome of searching a listing, front to back, for the start entry.
pub open spec fn seed_search<E, X>(start: Identity, siblings: Seq<Result<Sibling<E>, X>>) -> Result<
    E,
    SeedError<X>,
>
    decreases siblings.len(),
{
    if siblings.len() == 0 {
        Err(SeedError::NotFound)
    } else {
        match siblings[0] {
            Err(x) => Err(SeedError::Io(x)),
            Ok(sibling) => if sibling.identity == start {
                Ok(sibling.entry)
            } else {
                seed_search(start, siblings.drop_first())
            },
        }
    }
}

/// The first child that ends the search decides its outcome, whatever comes
/// after it.
pub proof fn lemma_seed_search_first<E, X>(
    start: Identity,
    siblings: Seq<Result<Sibling<E>, X>>,
    i: int,
)
    requires
        0 <= i < siblings.len(),
        decides(start, siblings[i]),
        forall|j: int| 0 <= j < i ==> !decides(start, #[trigger] siblings[j]),
    ensures
        seed_search(start, siblings) == match siblings[i] {
            Err(x) => Err::<E, SeedError<X>>(SeedError::Io(x)),
            Ok(sibling) => Ok(sibling.entry),
        },
    decreases i,
{
    if i > 0 {
        let tail = siblings.drop_first();
        assert(!decides(start, siblings[0]));
        assert(tail[i - 1] == siblings[i]);
        assert forall|j: int| 0 <= j < i - 1 implies !decides(start, #[trigger] tail[j]) by {
            assert(tail[j] == siblings[j + 1]);
        }
        lemma_seed_search_first(start, tail, i - 1);
    }
}

/// The search fails with `NotFound` exactly when no child ends it.
pub proof fn lemma_seed_search_not_found<E, X>(
    start: Identity,
    siblings: Seq<Result<Sibling<E>, X>>,
)
    ensures
        seed_search(start, siblings) == Err::<E, SeedError<X>>(SeedError::NotFound) <==> forall|
            j: int,
        |
            0 <= j < siblings.len() ==> !decides(start, #[trigger] siblings[j]),
    decreases siblings.len(),
{
    if siblings.len() > 0 {
        let tail = siblings.drop_first();
        lemma_seed_search_not_found(start, tail);
        if decides(start, siblings[0]) {
        } else if forall|j: int| 0 <= j < tail.len() ==> !decides(start, #[trigger] tail[j]) {
            assert forall|j: int| 0 <= j < siblings.len() implies !decides(
                start,
                #[trigger] siblings[j],
            ) by {
                if j > 0 {
                    assert(tail[j - 1] == siblings[j]);
                }
            }
        } else {
            let j = choose|j: int| 0 <= j < tail.len() && decides(start, #[trigger] tail[j]);
            assert(tail[j] == siblings[j + 1]);
        }
    }
}

} // verus!
