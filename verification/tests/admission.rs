//! End-to-end exercises of the admission protocol: genesis, candidacy
//! submission, voting, overwrites, and both settlement triggers.

use citizendao::AccountId;
use citizendao::CitizenDAO;
use citizendao::Decided;
use citizendao::Error;
use citizendao::Voted;

fn acct(n: u64) -> AccountId {
    AccountId { id: n }
}

/// Grows a group to `n` members by unanimous admissions, returning the
/// authority and the members in admission order.
fn grow_membership(n: u64) -> (CitizenDAO, Vec<AccountId>) {
    let founder = acct(1);
    let (mut dao, genesis) = CitizenDAO::new(founder, 0);
    assert_eq!(genesis, Decided { candidate: founder, outcome: true });
    let mut members = vec![founder];
    for id in 2..=n {
        let candidate = acct(id);
        assert_eq!(dao.submit_candidacy(candidate), Ok(()));
        for m in &members {
            let receipt = dao.vote_candidacy(*m, candidate, true, id).unwrap();
            assert_eq!(receipt.0, Voted { by: *m, on: candidate, value: true });
            // with nine or more members the forced threshold settles before
            // everyone has voted
            if receipt.1.is_some() {
                break;
            }
        }
        assert!(dao.is_member(candidate));
        assert_eq!(dao.num_candidates(), 0);
        members.push(candidate);
    }
    (dao, members)
}

#[test]
fn new_works() {
    let alice = acct(1);
    let bob = acct(2);
    let (contract, genesis) = CitizenDAO::new(alice, 0);
    assert_eq!(contract.is_member(alice), true);
    assert_eq!(contract.is_member(bob), false);
    assert_eq!(genesis, Decided { candidate: alice, outcome: true });
}

#[test]
fn candidate_selection_works() {
    let alice = acct(1);
    let bob = acct(2);
    let charlie = acct(3);
    let django = acct(4);
    let eve = acct(5);
    let frank = acct(6);
    let (mut contract, _) = CitizenDAO::new(alice, 0);

    // alice votes yes on bob, bob is immediately in the group
    assert_eq!(contract.submit_candidacy(bob), Ok(()));
    assert_eq!(contract.num_candidates(), 1);
    let receipt = contract.vote_candidacy(alice, bob, true, 10).unwrap();
    assert_eq!(receipt.0, Voted { by: alice, on: bob, value: true });
    assert_eq!(receipt.1, Some(Decided { candidate: bob, outcome: true }));
    assert_eq!(contract.is_member(alice), true);
    assert_eq!(contract.is_member(bob), true);
    assert_eq!(contract.num_candidates(), 0);

    // alice and bob vote yes on charlie
    assert_eq!(contract.submit_candidacy(charlie), Ok(()));
    assert_eq!(contract.num_candidates(), 1);
    let receipt = contract.vote_candidacy(alice, charlie, true, 20).unwrap();
    assert_eq!(receipt.1, None);
    let receipt = contract.vote_candidacy(bob, charlie, true, 21).unwrap();
    assert_eq!(receipt.1, Some(Decided { candidate: charlie, outcome: true }));
    assert_eq!(contract.is_member(charlie), true);
    assert_eq!(contract.num_candidates(), 0);

    // django, eve, and frank are all rejected
    assert_eq!(contract.submit_candidacy(django), Ok(()));
    assert_eq!(contract.submit_candidacy(eve), Ok(()));
    assert_eq!(contract.submit_candidacy(frank), Ok(()));
    assert_eq!(contract.num_candidates(), 3);

    assert!(contract.vote_candidacy(alice, django, true, 30).is_ok());
    assert!(contract.vote_candidacy(alice, eve, false, 31).is_ok());
    assert!(contract.vote_candidacy(alice, frank, false, 32).is_ok());
    assert!(contract.vote_candidacy(bob, django, true, 33).is_ok());
    assert!(contract.vote_candidacy(bob, eve, false, 34).is_ok());
    assert!(contract.vote_candidacy(bob, frank, true, 35).is_ok());
    assert!(contract.vote_candidacy(charlie, django, false, 36).is_ok());
    assert!(contract.vote_candidacy(charlie, eve, false, 37).is_ok());
    assert!(contract.vote_candidacy(charlie, frank, true, 38).is_ok());
    assert_eq!(contract.num_candidates(), 0);
    assert_eq!(contract.is_member(django), false);
    assert_eq!(contract.is_member(eve), false);
    assert_eq!(contract.is_member(frank), false);
}

#[test]
fn ensure_no_duplicate_voting() {
    let alice = acct(1);
    let bob = acct(2);
    let carol = acct(3);
    let (mut contract, _) = CitizenDAO::new(alice, 0);
    assert_eq!(contract.submit_candidacy(bob), Ok(()));
    assert!(contract.vote_candidacy(alice, bob, true, 1).is_ok());
    assert!(contract.is_member(bob));

    // two members now; carol needs both votes to settle
    assert_eq!(contract.submit_candidacy(carol), Ok(()));
    let receipt = contract.vote_candidacy(alice, carol, true, 2).unwrap();
    assert_eq!(receipt.1, None);

    // alice changes her mind: the overwrite holds one entry with the latest
    // choice and never triggers settlement by itself
    let receipt = contract.vote_candidacy(alice, carol, false, 3).unwrap();
    assert_eq!(receipt.0, Voted { by: alice, on: carol, value: false });
    assert_eq!(receipt.1, None);
    assert_eq!(contract.num_candidates(), 1);

    // bob completes participation: one yes out of two is a rejection; a
    // double-counted alice would have changed the tally
    let receipt = contract.vote_candidacy(bob, carol, true, 4).unwrap();
    assert_eq!(receipt.1, Some(Decided { candidate: carol, outcome: false }));
    assert_eq!(contract.is_member(carol), false);
    assert_eq!(contract.is_candidate_or_member(carol), false);
    assert_eq!(contract.num_candidates(), 0);
}

#[test]
fn ensure_no_duplicate_candidates() {
    // nothing bars a second submission by the same identity: it takes a
    // second queue slot and resets the ballot (a documented gap of the
    // protocol, preserved rather than silently closed)
    let alice = acct(1);
    let bob = acct(2);
    let (mut contract, _) = CitizenDAO::new(alice, 0);
    assert_eq!(contract.submit_candidacy(bob), Ok(()));
    assert_eq!(contract.submit_candidacy(bob), Ok(()));
    assert_eq!(contract.num_candidates(), 2);
    assert_eq!(contract.is_candidate_or_member(bob), true);

    // settlement drains the one ballot and frees only the first slot
    let receipt = contract.vote_candidacy(alice, bob, true, 1).unwrap();
    assert_eq!(receipt.1, Some(Decided { candidate: bob, outcome: true }));
    assert!(contract.is_member(bob));
    assert_eq!(contract.num_candidates(), 1);

    // the stale slot has no ballot any more: voting on it is the defensively
    // surfaced invariant violation
    assert_eq!(
        contract.vote_candidacy(alice, bob, true, 2),
        Err(Error::UnexpectedError)
    );
}

#[test]
fn can_retrieve_candidate_set() {
    let alice = acct(1);
    let bob = acct(2);
    let carol = acct(3);
    let dan = acct(4);
    let (mut contract, _) = CitizenDAO::new(alice, 0);
    assert_eq!(contract.num_candidates(), 0);
    assert_eq!(contract.submit_candidacy(bob), Ok(()));
    assert_eq!(contract.submit_candidacy(carol), Ok(()));
    assert_eq!(contract.num_candidates(), 2);
    assert_eq!(contract.is_candidate_or_member(alice), true);
    assert_eq!(contract.is_candidate_or_member(bob), true);
    assert_eq!(contract.is_candidate_or_member(carol), true);
    assert_eq!(contract.is_candidate_or_member(dan), false);
    assert_eq!(contract.is_member(bob), false);
    assert_eq!(contract.is_member(carol), false);
}

#[test]
fn candidacy_queue_fills() {
    let alice = acct(1);
    let (mut contract, _) = CitizenDAO::new(alice, 0);
    for id in 2..=11 {
        assert_eq!(contract.submit_candidacy(acct(id)), Ok(()));
    }
    assert_eq!(contract.num_candidates(), 10);

    // the eleventh submission fails and changes nothing
    let overflow = acct(12);
    assert_eq!(
        contract.submit_candidacy(overflow),
        Err(Error::CandidateQueueFull)
    );
    assert_eq!(contract.num_candidates(), 10);
    assert_eq!(contract.is_candidate_or_member(overflow), false);
    // no ballot was created for the refused submission
    assert_eq!(
        contract.vote_candidacy(alice, overflow, true, 1),
        Err(Error::UnexpectedError)
    );
}

#[test]
fn non_member_cannot_vote() {
    let alice = acct(1);
    let bob = acct(2);
    let carol = acct(3);
    let (mut contract, _) = CitizenDAO::new(alice, 0);
    assert_eq!(contract.submit_candidacy(bob), Ok(()));
    assert_eq!(
        contract.vote_candidacy(carol, bob, true, 1),
        Err(Error::NotAMember)
    );
    // the refused vote left the ballot empty: alice's lone no-vote settles
    // with zero yes-votes
    let receipt = contract.vote_candidacy(alice, bob, false, 2).unwrap();
    assert_eq!(receipt.1, Some(Decided { candidate: bob, outcome: false }));
    assert_eq!(contract.is_member(bob), false);
}

#[test]
fn vote_without_ballot_is_unexpected_error() {
    let alice = acct(1);
    let bob = acct(2);
    let (mut contract, _) = CitizenDAO::new(alice, 0);
    assert_eq!(
        contract.vote_candidacy(alice, bob, true, 1),
        Err(Error::UnexpectedError)
    );
    assert_eq!(contract.num_candidates(), 0);
    assert_eq!(contract.is_member(bob), false);
}

#[test]
fn rejected_candidate_fully_absent() {
    // three members reject dan: two yes, one no, full participation
    let (mut contract, members) = grow_membership(3);
    let dan = acct(40);
    assert_eq!(contract.submit_candidacy(dan), Ok(()));
    assert!(contract.vote_candidacy(members[0], dan, true, 1).is_ok());
    assert!(contract.vote_candidacy(members[1], dan, true, 2).is_ok());
    let receipt = contract.vote_candidacy(members[2], dan, false, 3).unwrap();
    assert_eq!(receipt.1, Some(Decided { candidate: dan, outcome: false }));

    // fully absent afterward: not a member, not queued
    assert_eq!(contract.is_member(dan), false);
    assert_eq!(contract.is_candidate_or_member(dan), false);
    assert_eq!(contract.num_candidates(), 0);

    // and a fresh candidacy starts over as if new
    assert_eq!(contract.submit_candidacy(dan), Ok(()));
    assert_eq!(contract.num_candidates(), 1);
    let receipt = contract.vote_candidacy(members[0], dan, true, 4).unwrap();
    assert_eq!(receipt.1, None);
}

#[test]
fn forced_settlement_at_ninth_vote() {
    // ten members, so full participation can never fire on nine votes
    let (mut contract, members) = grow_membership(10);

    // exactly seven yes-votes before the ninth vote: the ninth vote forces
    // settlement and the threshold accepts, whatever that vote says
    let xavier = acct(100);
    assert_eq!(contract.submit_candidacy(xavier), Ok(()));
    for i in 0..7 {
        let receipt = contract.vote_candidacy(members[i], xavier, true, 50).unwrap();
        assert_eq!(receipt.1, None);
    }
    let receipt = contract.vote_candidacy(members[7], xavier, false, 51).unwrap();
    assert_eq!(receipt.1, None);
    let receipt = contract.vote_candidacy(members[8], xavier, false, 52).unwrap();
    assert_eq!(receipt.1, Some(Decided { candidate: xavier, outcome: true }));
    assert!(contract.is_member(xavier));
    assert_eq!(contract.num_candidates(), 0);

    // same shape with a yes as the ninth vote: accepted as well
    let yannick = acct(101);
    assert_eq!(contract.submit_candidacy(yannick), Ok(()));
    for i in 0..7 {
        let receipt = contract.vote_candidacy(members[i], yannick, true, 60).unwrap();
        assert_eq!(receipt.1, None);
    }
    let receipt = contract.vote_candidacy(members[7], yannick, false, 61).unwrap();
    assert_eq!(receipt.1, None);
    let receipt = contract.vote_candidacy(members[8], yannick, true, 62).unwrap();
    assert_eq!(receipt.1, Some(Decided { candidate: yannick, outcome: true }));
    assert!(contract.is_member(yannick));
}

#[test]
fn seven_yes_votes_accept_below_full_participation() {
    // eleven members; eight votes with seven yes settle nothing yet, and the
    // ninth (a no) forces settlement where the threshold rule alone governs
    let (mut contract, members) = grow_membership(11);
    let zoe = acct(200);
    assert_eq!(contract.submit_candidacy(zoe), Ok(()));
    for i in 0..7 {
        assert!(contract.vote_candidacy(members[i], zoe, true, 70).is_ok());
    }
    let receipt = contract.vote_candidacy(members[7], zoe, false, 71).unwrap();
    assert_eq!(receipt.1, None);
    let receipt = contract.vote_candidacy(members[8], zoe, false, 72).unwrap();
    assert_eq!(receipt.1, Some(Decided { candidate: zoe, outcome: true }));
    assert!(contract.is_member(zoe));
}
