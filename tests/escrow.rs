use secret_whitelist::{Address, Contract, QuorumPolicy, SecretError};

fn addr(n: u64) -> Address {
    Address::new(0, 0, 0, n)
}

fn id(s: &str) -> String {
    String::from(s)
}

fn store_with_secret(owner: Address, sid: &str) -> Contract {
    let mut c = Contract::new();
    c.add_secret_with_id(owner, id("will"), id("X"), id(sid)).unwrap();
    c
}

#[test]
fn release_after_majority_then_frozen() {
    let t = addr(1);
    let b1 = addr(2);
    let b2 = addr(3);
    let mut c = Contract::new();
    let s1 = c.add_secret_for_testator(t, id("will"), id("X")).unwrap();
    c.add_beneficiary(t, s1.clone(), b1).unwrap();
    c.add_beneficiary(t, s1.clone(), b2).unwrap();
    c.cast_release_vote(b1, s1.clone(), true).unwrap();
    assert_eq!(c.can_release(&s1), Ok(false));
    assert!(!c.get(&s1).unwrap().released);
    c.cast_release_vote(b2, s1.clone(), true).unwrap();
    assert!(c.get(&s1).unwrap().released);
    assert_eq!(c.can_release(&s1), Ok(true));
    assert_eq!(c.remove_beneficiary(t, s1.clone(), b1), Err(SecretError::AlreadyReleased));
    assert_eq!(c.add_beneficiary(t, s1.clone(), addr(9)), Err(SecretError::AlreadyReleased));
    assert_eq!(c.get(&s1).unwrap().whitelist, vec![b1, b2]);
}

#[test]
fn non_owner_cannot_remove_secret() {
    let t = addr(1);
    let mut c = store_with_secret(t, "s1");
    assert_eq!(c.remove_secret_for_testator(addr(7), id("s1")), Err(SecretError::NotOwner));
    assert!(c.get(&id("s1")).is_ok());
    assert_eq!(c.get_current_secret_ids_for_testator(t), vec![id("s1")]);
    assert!(c.get_current_secret_ids_for_testator(addr(7)).is_empty());
}

#[test]
fn vote_from_outside_whitelist_is_refused() {
    let t = addr(1);
    let mut c = store_with_secret(t, "s1");
    c.add_beneficiary(t, id("s1"), addr(2)).unwrap();
    assert_eq!(
        c.cast_release_vote(addr(3), id("s1"), true),
        Err(SecretError::NotWhitelisted)
    );
    assert!(c.get(&id("s1")).unwrap().release_votes.is_empty());
}

#[test]
fn add_then_get_round_trip() {
    let t = addr(4);
    let mut c = Contract::new();
    let sid = c.add_secret_for_testator(t, id("deed"), id("the house")).unwrap();
    let rec = c.get(&sid).unwrap();
    assert_eq!(rec.id, sid);
    assert_eq!(rec.owner, t);
    assert_eq!(rec.name, "deed");
    assert_eq!(rec.content, "the house");
    assert!(rec.whitelist.is_empty());
    assert!(rec.release_votes.is_empty());
    assert!(!rec.released);
}

#[test]
fn fresh_ids_are_distinct_and_hyphenated() {
    let t = addr(1);
    let mut c = Contract::new();
    let a = c.add_secret_for_testator(t, id("a"), id("1")).unwrap();
    let b = c.add_secret_for_testator(t, id("b"), id("2")).unwrap();
    assert_eq!(a.len(), 36);
    assert_eq!(a.matches('-').count(), 4);
    assert_ne!(a, b);
    let mut listed = c.get_current_secret_ids_for_testator(t);
    listed.sort();
    let mut expected = vec![a, b];
    expected.sort();
    assert_eq!(listed, expected);
}

#[test]
fn duplicate_id_is_refused() {
    let t = addr(1);
    let mut c = store_with_secret(t, "s1");
    assert_eq!(
        c.add_secret_with_id(addr(2), id("other"), id("Y"), id("s1")),
        Err(SecretError::DuplicateId)
    );
    assert_eq!(c.get(&id("s1")).unwrap().owner, t);
    assert!(c.get_current_secret_ids_for_testator(addr(2)).is_empty());
}

#[test]
fn add_beneficiary_twice_is_idempotent() {
    let t = addr(1);
    let b = addr(2);
    let mut c = store_with_secret(t, "s1");
    c.add_beneficiary(t, id("s1"), b).unwrap();
    let once = c.get(&id("s1")).unwrap().whitelist.clone();
    c.add_beneficiary(t, id("s1"), b).unwrap();
    assert_eq!(c.get(&id("s1")).unwrap().whitelist, once);
    assert_eq!(once, vec![b]);
    assert_eq!(c.list_secrets_for_beneficiary(b), vec![id("s1")]);
}

#[test]
fn indices_follow_every_change() {
    let t = addr(1);
    let u = addr(5);
    let b = addr(2);
    let mut c = Contract::new();
    c.add_secret_with_id(t, id("n1"), id("c1"), id("s1")).unwrap();
    c.add_secret_with_id(t, id("n2"), id("c2"), id("s2")).unwrap();
    c.add_secret_with_id(u, id("n3"), id("c3"), id("s3")).unwrap();
    c.add_beneficiary(t, id("s1"), b).unwrap();
    c.add_beneficiary(t, id("s2"), b).unwrap();
    c.add_beneficiary(u, id("s3"), b).unwrap();
    assert_eq!(c.get_current_secret_ids_for_testator(t), vec![id("s1"), id("s2")]);
    assert_eq!(c.get_current_secret_ids_for_testator(u), vec![id("s3")]);
    assert_eq!(c.list_secrets_for_beneficiary(b), vec![id("s1"), id("s2"), id("s3")]);

    c.remove_beneficiary(t, id("s2"), b).unwrap();
    assert_eq!(c.list_secrets_for_beneficiary(b), vec![id("s1"), id("s3")]);

    c.remove_secret_for_testator(t, id("s1")).unwrap();
    assert_eq!(c.get_current_secret_ids_for_testator(t), vec![id("s2")]);
    assert_eq!(c.list_secrets_for_beneficiary(b), vec![id("s3")]);
    assert_eq!(c.get(&id("s1")).err(), Some(SecretError::NotFound));
}

#[test]
fn removing_a_beneficiary_drops_its_vote() {
    let t = addr(1);
    let mut c = store_with_secret(t, "s1");
    for n in 2..5 {
        c.add_beneficiary(t, id("s1"), addr(n)).unwrap();
    }
    c.cast_release_vote(addr(2), id("s1"), true).unwrap();
    assert_eq!(c.get(&id("s1")).unwrap().release_votes, vec![addr(2)]);
    c.remove_beneficiary(t, id("s1"), addr(2)).unwrap();
    let rec = c.get(&id("s1")).unwrap();
    assert!(rec.release_votes.is_empty());
    assert_eq!(rec.whitelist, vec![addr(3), addr(4)]);
    assert!(c.list_secrets_for_beneficiary(addr(2)).is_empty());
}

#[test]
fn vote_can_be_withdrawn() {
    let t = addr(1);
    let mut c = store_with_secret(t, "s1");
    for n in 2..5 {
        c.add_beneficiary(t, id("s1"), addr(n)).unwrap();
    }
    c.cast_release_vote(addr(2), id("s1"), true).unwrap();
    c.cast_release_vote(addr(2), id("s1"), true).unwrap();
    assert_eq!(c.get(&id("s1")).unwrap().release_votes, vec![addr(2)]);
    c.cast_release_vote(addr(2), id("s1"), false).unwrap();
    assert!(c.get(&id("s1")).unwrap().release_votes.is_empty());
    // two of three is a strict majority
    c.cast_release_vote(addr(3), id("s1"), true).unwrap();
    assert!(!c.get(&id("s1")).unwrap().released);
    c.cast_release_vote(addr(4), id("s1"), true).unwrap();
    assert!(c.get(&id("s1")).unwrap().released);
    assert_eq!(
        c.cast_release_vote(addr(2), id("s1"), true),
        Err(SecretError::AlreadyReleased)
    );
}

#[test]
fn released_secret_cannot_be_removed_or_edited() {
    let t = addr(1);
    let mut c = store_with_secret(t, "s1");
    c.add_beneficiary(t, id("s1"), addr(2)).unwrap();
    c.cast_release_vote(addr(2), id("s1"), true).unwrap();
    assert!(c.get(&id("s1")).unwrap().released);
    assert_eq!(
        c.remove_secret_for_testator(t, id("s1")),
        Err(SecretError::AlreadyReleased)
    );
    assert_eq!(
        c.update_content(t, id("s1"), id("changed")),
        Err(SecretError::AlreadyReleased)
    );
    assert_eq!(c.get(&id("s1")).unwrap().content, "X");
    assert!(c.get(&id("s1")).unwrap().released);
}

#[test]
fn owner_checks_on_every_owner_operation() {
    let t = addr(1);
    let other = addr(6);
    let mut c = store_with_secret(t, "s1");
    assert_eq!(c.add_beneficiary(other, id("s1"), addr(2)), Err(SecretError::NotOwner));
    assert_eq!(c.remove_beneficiary(other, id("s1"), addr(2)), Err(SecretError::NotOwner));
    assert_eq!(c.update_content(other, id("s1"), id("Z")), Err(SecretError::NotOwner));
    assert_eq!(c.add_beneficiary(t, id("nope"), addr(2)), Err(SecretError::NotFound));
    assert_eq!(c.remove_beneficiary(t, id("nope"), addr(2)), Err(SecretError::NotFound));
    assert_eq!(c.update_content(t, id("nope"), id("Z")), Err(SecretError::NotFound));
    assert_eq!(c.remove_secret_for_testator(t, id("nope")), Err(SecretError::NotFound));
    assert_eq!(c.cast_release_vote(addr(2), id("nope"), true), Err(SecretError::NotFound));
    assert_eq!(c.can_release(&id("nope")), Err(SecretError::NotFound));
    c.update_content(t, id("s1"), id("Z")).unwrap();
    assert_eq!(c.get(&id("s1")).unwrap().content, "Z");
}

#[test]
fn reading_content_needs_owner_or_release() {
    let t = addr(1);
    let b = addr(2);
    let mut c = store_with_secret(t, "s1");
    c.add_beneficiary(t, id("s1"), b).unwrap();
    assert_eq!(c.read_secret_content(t, &id("s1")), Ok(id("X")));
    assert_eq!(c.read_secret_content(b, &id("s1")), Err(SecretError::Unauthorized));
    assert_eq!(c.read_secret_content(addr(8), &id("s1")), Err(SecretError::Unauthorized));
    assert_eq!(c.read_secret_content(b, &id("nope")), Err(SecretError::NotFound));
    c.cast_release_vote(b, id("s1"), true).unwrap();
    assert_eq!(c.read_secret_content(b, &id("s1")), Ok(id("X")));
    assert_eq!(c.read_secret_content(addr(8), &id("s1")), Err(SecretError::Unauthorized));
}

#[test]
fn quorum_threshold_values() {
    let majority = QuorumPolicy::strict_majority();
    assert!(!majority.is_reached(1, 2));
    assert!(majority.is_reached(2, 2));
    assert!(!majority.is_reached(2, 4));
    assert!(majority.is_reached(3, 4));
    assert!(!majority.is_reached(0, 0));
    let two_thirds = QuorumPolicy { numerator: 2, denominator: 3 };
    assert!(!two_thirds.is_reached(2, 3));
    assert!(two_thirds.is_reached(3, 4));
    let big = QuorumPolicy { numerator: u64::MAX, denominator: u64::MAX };
    assert!(big.is_reached(usize::MAX, usize::MAX - 1));
    assert!(!big.is_reached(usize::MAX, usize::MAX));
}

#[test]
fn custom_policy_releases_on_first_vote() {
    let t = addr(1);
    let mut c = Contract::with_policy(QuorumPolicy { numerator: 0, denominator: 1 });
    c.add_secret_with_id(t, id("n"), id("X"), id("s1")).unwrap();
    c.add_beneficiary(t, id("s1"), addr(2)).unwrap();
    c.add_beneficiary(t, id("s1"), addr(3)).unwrap();
    assert_eq!(c.can_release(&id("s1")), Ok(false));
    c.cast_release_vote(addr(2), id("s1"), true).unwrap();
    assert!(c.get(&id("s1")).unwrap().released);
}

#[test]
fn shrinking_whitelist_can_meet_quorum_without_release() {
    let t = addr(1);
    let mut c = store_with_secret(t, "s1");
    for n in 2..5 {
        c.add_beneficiary(t, id("s1"), addr(n)).unwrap();
    }
    c.cast_release_vote(addr(2), id("s1"), true).unwrap();
    c.remove_beneficiary(t, id("s1"), addr(3)).unwrap();
    c.remove_beneficiary(t, id("s1"), addr(4)).unwrap();
    assert!(!c.get(&id("s1")).unwrap().released);
    assert_eq!(c.can_release(&id("s1")), Ok(true));
}

#[test]
fn listings_follow_creation_and_whitelist_order() {
    let t = addr(1);
    let b = addr(2);
    let mut c = Contract::new();
    for sid in ["s3", "s1", "s2"] {
        c.add_secret_with_id(t, id("n"), id("c"), id(sid)).unwrap();
    }
    assert_eq!(c.get_current_secret_ids_for_testator(t), vec![id("s3"), id("s1"), id("s2")]);
    c.add_beneficiary(t, id("s2"), b).unwrap();
    c.add_beneficiary(t, id("s3"), b).unwrap();
    c.cast_release_vote(b, id("s2"), false).unwrap();
    c.update_content(t, id("s1"), id("d")).unwrap();
    assert_eq!(c.list_secrets_for_beneficiary(b), vec![id("s2"), id("s3")]);
    assert_eq!(c.get_current_secret_ids_for_testator(t), vec![id("s3"), id("s1"), id("s2")]);
}
