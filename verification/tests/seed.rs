//! Seeding a walker: the start entry is found among its siblings by its
//! filesystem identity.

use tree_walker::{Identity, Inspection, SeedError, Sibling, TreeWalker};

type Listed = Result<Sibling<&'static str>, &'static str>;

fn child(entry: &'static str, device: u64, inode: u64) -> Listed {
    Ok(Sibling { entry, identity: Identity { device, inode } })
}

fn seeded_with(result: Result<TreeWalker<&'static str>, SeedError<&'static str>>) -> &'static str {
    match result {
        Ok(walker) => {
            let entry = *walker.pending().unwrap();
            let mut walker = walker;
            // exactly one entry is on the stack
            assert_eq!(walker.next(Inspection::<&'static str, &'static str>::File), Some(Ok(entry)));
            assert_eq!(walker.pending(), None);
            entry
        }
        Err(error) => panic!("no walker: {:?}", error),
    }
}

fn failure(result: Result<TreeWalker<&'static str>, SeedError<&'static str>>) -> SeedError<&'static str> {
    match result {
        Ok(_) => panic!("a walker was seeded"),
        Err(error) => error,
    }
}

#[test]
fn same_object_needs_both_numbers_equal() {
    let start = Identity { device: 3, inode: 42 };
    assert!(start.same_object(&Identity { device: 3, inode: 42 }));
    assert!(!start.same_object(&Identity { device: 3, inode: 43 }));
    assert!(!start.same_object(&Identity { device: 4, inode: 42 }));
    assert!(!start.same_object(&Identity { device: 42, inode: 3 }));
    assert!(!start.same_object(&Identity { device: u64::MAX, inode: u64::MAX }));
}

#[test]
fn seed_is_the_sibling_with_the_start_identity() {
    let start = Identity { device: 3, inode: 42 };
    let siblings = vec![child("bin", 3, 40), child("etc", 3, 41), child("home", 3, 42), child("var", 3, 43)];
    assert_eq!(seeded_with(TreeWalker::new(start, siblings)), "home");
}

#[test]
fn seed_may_be_the_first_or_the_last_sibling() {
    let start = Identity { device: 1, inode: 5 };
    assert_eq!(seeded_with(TreeWalker::new(start, vec![child("a", 1, 5), child("b", 1, 6)])), "a");
    assert_eq!(seeded_with(TreeWalker::new(start, vec![child("a", 1, 6), child("b", 1, 5)])), "b");
}

#[test]
fn same_inode_on_another_device_is_not_the_seed() {
    let start = Identity { device: 2, inode: 7 };
    let siblings = vec![child("mounted", 9, 7), child("local", 2, 7)];
    assert_eq!(seeded_with(TreeWalker::new(start, siblings)), "local");
}

#[test]
fn first_of_two_matches_is_the_seed() {
    let start = Identity { device: 1, inode: 5 };
    let siblings = vec![child("x", 1, 4), child("link-a", 1, 5), child("link-b", 1, 5)];
    assert_eq!(seeded_with(TreeWalker::new(start, siblings)), "link-a");
}

#[test]
fn unreadable_sibling_before_the_seed_aborts() {
    let start = Identity { device: 1, inode: 5 };
    let siblings = vec![child("x", 1, 4), Err("io error"), child("seed", 1, 5)];
    assert_eq!(failure(TreeWalker::new(start, siblings)), SeedError::Io("io error"));
}

#[test]
fn first_unreadable_sibling_is_the_one_reported() {
    let start = Identity { device: 1, inode: 5 };
    let siblings = vec![Err("first"), Err("second"), child("seed", 1, 5)];
    assert_eq!(failure(TreeWalker::new(start, siblings)), SeedError::Io("first"));
}

#[test]
fn unreadable_sibling_after_the_seed_is_not_looked_at() {
    let start = Identity { device: 1, inode: 5 };
    let siblings = vec![child("x", 1, 4), child("seed", 1, 5), Err("io error")];
    assert_eq!(seeded_with(TreeWalker::new(start, siblings)), "seed");
}

#[test]
fn missing_seed_is_reported() {
    let start = Identity { device: 1, inode: 5 };
    let siblings = vec![child("x", 1, 4), child("y", 1, 6), child("z", 2, 5)];
    assert_eq!(failure(TreeWalker::new(start, siblings)), SeedError::NotFound);
}

#[test]
fn empty_listing_has_no_seed() {
    let start = Identity { device: 1, inode: 5 };
    let siblings: Vec<Listed> = Vec::new();
    assert_eq!(failure(TreeWalker::new(start, siblings)), SeedError::NotFound);
}
