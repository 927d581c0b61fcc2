//! The admission authority and its three registries: the membership registry
//! (identity to join timestamp), the candidacy queue (identities awaiting a
//! decision, in arrival order, settled entries swap-removed), and the ballot
//! store (per-candidate ordered votes). Every entry point is a single
//! all-or-nothing transition: on an error nothing has changed.

use vstd::prelude::*;

use crate::model::accepted;
use crate::model::ballot_wf;
use crate::model::has_key;
use crate::model::key_at;
use crate::model::lemma_key_determines_value;
use crate::model::lemma_push_new_key;
use crate::model::lemma_swap_remove_contains;
use crate::model::lemma_swap_remove_key;
use crate::model::lemma_update_same_key;
use crate::model::lemma_yes_count_le_len;
use crate::model::lemma_yes_count_push;
use crate::model::lemma_yes_count_take_step;
use crate::model::settle_triggered;
use crate::model::unique_keys;
use crate::model::value_of;
use crate::model::yes_count;
use crate::model::AccountId;
use crate::model::Decided;
use crate::model::Error;
use crate::model::Voted;
use crate::model::MAX_CANDIDATES;
use crate::model::VOTES_TO_ACCEPT;
use crate::model::VOTES_TO_SETTLE;

verus! {

/// What a successful vote call hands back to the host: the vote notification,
/// and the decision notification when this vote settled the candidacy.
pub type VoteReceipt = (Voted, Option<Decided>);

/// The admission authority. It exclusively owns the three registries; the
/// host supplies a caller identity and a timestamp with each call and
/// delivers the notifications handed back.
pub struct CitizenDAO {
    candidates: Vec<AccountId>,
    votes: Vec<(AccountId, Vec<(AccountId, bool)>)>,
    members: Vec<(AccountId, u64)>,
}

/// First pair of `v` whose key equals `a`, scanning from the front.
fn find_key<V>(v: &Vec<(AccountId, V)>, a: AccountId) -> (r: Option<usize>)
    ensures
        match r {
            Some(i) => i < v@.len() && v@[i as int].0 == a && forall|j: int|
                0 <= j < i ==> (#[trigger] v@[j]).0 != a,
            None => !has_key(v@, a),
        },
{
    let n = v.len();
    let mut i: usize = 0;
    while i < n
        invariant
            n == v@.len(),
            i <= n,
            forall|j: int| 0 <= j < i ==> (#[trigger] v@[j]).0 != a,
        decreases n - i,
    {
        if v[i].0 == a {
            return Some(i);
        }
        i = i + 1;
    }
    None
}

/// Inserts or overwrites the member record for `a`: re-admission overwrites
/// the join timestamp, no separate history is kept.
fn insert_member(members: &mut Vec<(AccountId, u64)>, a: AccountId, at: u64)
    requires
        unique_keys(old(members)@),
    ensures
        unique_keys(final(members)@),
        has_key(final(members)@, a),
        value_of(final(members)@, a) == at,
        forall|k: AccountId|
            k != a ==> (#[trigger] has_key(final(members)@, k) <==> has_key(old(members)@, k)),
        forall|k: AccountId|
            k != a && has_key(old(members)@, k) ==> #[trigger] value_of(final(members)@, k)
                == value_of(old(members)@, k),
        final(members)@.len() == old(members)@.len() + (if has_key(old(members)@, a) {
            0int
        } else {
            1int
        }),
{
    match find_key(members, a) {
        Some(i) => {
            members[i] = (a, at);
            proof {
                lemma_key_determines_value(old(members)@, a, i as int);
                lemma_update_same_key(old(members)@, i as int, at);
                assert(members@ == old(members)@.update(
                    i as int,
                    (old(members)@[i as int].0, at),
                ));
            }
        },
        None => {
            members.push((a, at));
            proof {
                lemma_push_new_key(old(members)@, a, at);
            }
        },
    }
}

/// Number of yes-votes currently on the ballot `b`.
fn count_yes(b: &Vec<(AccountId, bool)>) -> (n: usize)
    ensures
        n == yes_count(b@),
{
    let mut n: usize = 0;
    let mut i: usize = 0;
    proof {
        assert(b@.take(0) =~= Seq::<(AccountId, bool)>::empty());
    }
    while i < b.len()
        invariant
            i <= b@.len(),
            n == yes_count(b@.take(i as int)),
            n <= i,
        decreases b@.len() - i,
    {
        proof {
            lemma_yes_count_take_step(b@, i as int);
        }
        if b[i].1 {
            n = n + 1;
        }
        i = i + 1;
    }
    proof {
        assert(b@.take(b@.len() as int) =~= b@);
    }
    n
}

impl CitizenDAO {
    /// The membership registry as (identity, joined-at) pairs.
    pub closed spec fn members_seq(self) -> Seq<(AccountId, u64)> {
        self.members@
    }

    /// The candidacy queue in storage order.
    pub closed spec fn candidates_seq(self) -> Seq<AccountId> {
        self.candidates@
    }

    /// The ballot store as (candidate, ballot) pairs.
    pub closed spec fn ballots_seq(self) -> Seq<(AccountId, Seq<(AccountId, bool)>)> {
        self.votes@.map_values(|p: (AccountId, Vec<(AccountId, bool)>)| (p.0, p.1@))
    }

    /// Membership of `a`.
    pub open spec fn spec_is_member(self, a: AccountId) -> bool {
        has_key(self.members_seq(), a)
    }

    /// Join timestamp of the member `a`.
    pub open spec fn spec_joined_at(self, a: AccountId) -> u64 {
        value_of(self.members_seq(), a)
    }

    /// Number of current members.
    pub open spec fn member_count(self) -> nat {
        self.members_seq().len()
    }

    /// Presence of `a` in the candidacy queue.
    pub open spec fn spec_is_candidate(self, a: AccountId) -> bool {
        self.candidates_seq().contains(a)
    }

    /// Whether a ballot exists for the candidate `a`.
    pub open spec fn spec_has_ballot(self, a: AccountId) -> bool {
        has_key(self.ballots_seq(), a)
    }

    /// The ballot of the candidate `a`, in vote arrival order.
    pub open spec fn spec_ballot(self, a: AccountId) -> Seq<(AccountId, bool)> {
        value_of(self.ballots_seq(), a)
    }

    /// Well-formedness of the registries: no duplicate member records, one
    /// ballot per candidate, the queue within its capacity, every ballot
    /// belonging to a queued candidate, and every ballot live.
    pub open spec fn wf(self) -> bool {
        &&& unique_keys(self.members_seq())
        &&& unique_keys(self.ballots_seq())
        &&& self.candidates_seq().len() <= MAX_CANDIDATES
        &&& forall|i: int|
            0 <= i < self.ballots_seq().len() ==> self.candidates_seq().contains(
                (#[trigger] self.ballots_seq()[i]).0,
            )
        &&& forall|i: int|
            0 <= i < self.ballots_seq().len() ==> ballot_wf((#[trigger] self.ballots_seq()[i]).1)
    }

    /// Genesis: the deploying identity becomes the first member, stamped with
    /// the given time, and its admission is announced as decided-accept.
    pub fn new(caller: AccountId, now: u64) -> (r: (CitizenDAO, Decided))
        ensures
            r.0.wf(),
            r.0.members_seq() =~= seq![(caller, now)],
            r.0.candidates_seq() =~= Seq::<AccountId>::empty(),
            r.0.ballots_seq() =~= Seq::<(AccountId, Seq<(AccountId, bool)>)>::empty(),
            r.0.spec_is_member(caller),
            r.0.spec_joined_at(caller) == now,
            r.0.member_count() == 1,
            r.1 == (Decided { candidate: caller, outcome: true }),
    {
        let candidates: Vec<AccountId> = Vec::new();
        let votes: Vec<(AccountId, Vec<(AccountId, bool)>)> = Vec::new();
        let mut members: Vec<(AccountId, u64)> = Vec::new();
        members.push((caller, now));
        let dao = CitizenDAO { candidates, votes, members };
        proof {
            assert(dao.ballots_seq() =~= Seq::<(AccountId, Seq<(AccountId, bool)>)>::empty());
            lemma_key_determines_value(dao.members_seq(), caller, 0);
        }
        (dao, Decided { candidate: caller, outcome: true })
    }

    /// Number of candidacies currently awaiting a decision.
    pub fn num_candidates(&self) -> (n: usize)
        ensures
            n == self.candidates_seq().len(),
    {
        self.candidates.len()
    }

    /// Pure membership lookup.
    pub fn is_member(&self, account: AccountId) -> (r: bool)
        ensures
            r == self.spec_is_member(account),
    {
        match find_key(&self.members, account) {
            Some(i) => {
                proof {
                    assert(self.members_seq()[i as int].0 == account);
                }
                true
            },
            None => false,
        }
    }

    /// True when `account` is a member or sits in the candidacy queue.
    pub fn is_candidate_or_member(&self, account: AccountId) -> (r: bool)
        ensures
            r == (self.spec_is_member(account) || self.spec_is_candidate(account)),
    {
        if self.is_member(account) {
            return true;
        }
        match self.search_candidates(account) {
            Some(i) => {
                proof {
                    assert(self.candidates_seq()[i as int] == account);
                }
                true
            },
            None => false,
        }
    }

    /// Submits the caller's candidacy: appends the caller to the queue and
    /// creates its empty ballot, both or neither. Fails with
    /// `CandidateQueueFull`, and changes nothing, when the queue is at
    /// capacity. Nothing bars a current member or an already-queued identity
    /// from submitting again: a repeated submission takes a second queue slot
    /// and resets the ballot to empty (a deliberately preserved gap of the
    /// protocol, left open rather than silently closed).
    pub fn submit_candidacy(&mut self, caller: AccountId) -> (r: Result<(), Error>)
        requires
            old(self).wf(),
        ensures
            final(self).wf(),
            old(self).candidates_seq().len() >= MAX_CANDIDATES ==> r == Err::<(), Error>(
                Error::CandidateQueueFull,
            ) && *final(self) == *old(self),
            old(self).candidates_seq().len() < MAX_CANDIDATES ==> ({
                &&& r == Ok::<(), Error>(())
                &&& final(self).candidates_seq() == old(self).candidates_seq().push(caller)
                &&& final(self).spec_has_ballot(caller)
                &&& final(self).spec_ballot(caller) == Seq::<(AccountId, bool)>::empty()
                &&& forall|k: AccountId|
                    k != caller ==> (#[trigger] final(self).spec_has_ballot(k)
                        <==> old(self).spec_has_ballot(k))
                &&& forall|k: AccountId|
                    k != caller && old(self).spec_has_ballot(k)
                        ==> #[trigger] final(self).spec_ballot(k) == old(self).spec_ballot(k)
                &&& final(self).members_seq() == old(self).members_seq()
            }),
    {
        if self.candidates.len() >= MAX_CANDIDATES {
            return Err(Error::CandidateQueueFull);
        }
        self.candidates.push(caller);
        let empty_ballot: Vec<(AccountId, bool)> = Vec::new();
        let ghost b0 = old(self).ballots_seq();
        match find_key(&self.votes, caller) {
            Some(i) => {
                proof {
                    assert(b0[i as int].0 == caller);
                }
                self.votes[i] = (caller, empty_ballot);
                proof {
                    assert(self.ballots_seq() =~= b0.update(
                        i as int,
                        (caller, Seq::<(AccountId, bool)>::empty()),
                    ));
                    lemma_update_same_key(b0, i as int, Seq::<(AccountId, bool)>::empty());
                    self.lemma_submit_wf(*old(self), caller);
                }
            },
            None => {
                proof {
                    if has_key(b0, caller) {
                        let m = key_at(b0, caller);
                        assert(0 <= m < b0.len() && b0[m].0 == caller);
                        assert(old(self).votes@[m].0 == caller);
                    }
                }
                self.votes.push((caller, empty_ballot));
                proof {
                    assert(self.ballots_seq() =~= b0.push(
                        (caller, Seq::<(AccountId, bool)>::empty()),
                    ));
                    lemma_push_new_key(b0, caller, Seq::<(AccountId, bool)>::empty());
                    self.lemma_submit_wf(*old(self), caller);
                }
            },
        }
        Ok(())
    }

    /// After a submission, the queue grew by the caller's slot, the ballot
    /// store keeps pairwise-distinct keys, and every ballot key is queued.
    proof fn lemma_submit_wf(self, pre: CitizenDAO, caller: AccountId)
        requires
            pre.wf(),
            pre.candidates_seq().len() < MAX_CANDIDATES,
            self.candidates_seq() == pre.candidates_seq().push(caller),
            self.members_seq() == pre.members_seq(),
            unique_keys(self.ballots_seq()),
            self.ballots_seq().len() <= pre.ballots_seq().len() + 1,
            forall|i: int|
                0 <= i < self.ballots_seq().len() ==> ((#[trigger] self.ballots_seq()[i]).0
                    == caller || (self.ballots_seq()[i] == pre.ballots_seq()[i]
                    && 0 <= i < pre.ballots_seq().len())),
            forall|i: int|
                0 <= i < self.ballots_seq().len() ==> ((#[trigger] self.ballots_seq()[i]).1
                    == Seq::<(AccountId, bool)>::empty() || (self.ballots_seq()[i]
                    == pre.ballots_seq()[i] && 0 <= i < pre.ballots_seq().len())),
        ensures
            self.wf(),
    {
        let c0 = pre.candidates_seq();
        let c1 = self.candidates_seq();
        assert forall|i: int| 0 <= i < self.ballots_seq().len() implies c1.contains(
            (#[trigger] self.ballots_seq()[i]).0,
        ) by {
            if self.ballots_seq()[i].0 == caller {
                assert(c1[c0.len() as int] == caller);
            } else {
                assert(self.ballots_seq()[i] == pre.ballots_seq()[i]);
                assert(c0.contains(pre.ballots_seq()[i].0));
                let m = choose|m: int| 0 <= m < c0.len() && c0[m] == pre.ballots_seq()[i].0;
                assert(c1[m] == c0[m]);
            }
        }
        assert forall|i: int| 0 <= i < self.ballots_seq().len() implies ballot_wf(
            (#[trigger] self.ballots_seq()[i]).1,
        ) by {
            if self.ballots_seq()[i].1 == Seq::<(AccountId, bool)>::empty() {
                assert(self.ballots_seq()[i].1.len() == 0);
            } else {
                assert(self.ballots_seq()[i] == pre.ballots_seq()[i]);
                assert(ballot_wf(pre.ballots_seq()[i].1));
            }
        }
    }

    /// Records the member `caller`'s vote on the candidate `on`, and settles
    /// the candidacy within the same call when a trigger fires.
    ///
    /// A repeated vote by the same caller overwrites the earlier entry's
    /// choice in place and never evaluates settlement. An appended vote
    /// settles when it completes participation of the full current
    /// membership, or when it brings the ballot to the forced-decision
    /// length; settlement removes the candidate's first queue slot by
    /// swap-removal, drains the ballot, and takes the candidate in as a
    /// member exactly when the decision rule accepts.
    pub fn vote_candidacy(&mut self, caller: AccountId, on: AccountId, value: bool, now: u64) -> (r:
        Result<VoteReceipt, Error>)
        requires
            old(self).wf(),
        ensures
            final(self).wf(),
            !old(self).spec_is_member(caller) ==> r == Err::<VoteReceipt, Error>(Error::NotAMember)
                && *final(self) == *old(self),
            old(self).spec_is_member(caller) && !old(self).spec_has_ballot(on) ==> r == Err::<
                VoteReceipt,
                Error,
            >(Error::UnexpectedError) && *final(self) == *old(self),
            ({
                let b = old(self).spec_ballot(on);
                (old(self).spec_is_member(caller) && old(self).spec_has_ballot(on) && has_key(
                    b,
                    caller,
                )) ==> ({
                    &&& r == Ok::<VoteReceipt, Error>((Voted { by: caller, on, value }, None))
                    &&& final(self).spec_has_ballot(on)
                    &&& final(self).spec_ballot(on) == b.update(key_at(b, caller), (caller, value))
                    &&& forall|k: AccountId|
                        k != on ==> (#[trigger] final(self).spec_has_ballot(k)
                            <==> old(self).spec_has_ballot(k))
                    &&& forall|k: AccountId|
                        k != on && old(self).spec_has_ballot(k)
                            ==> #[trigger] final(self).spec_ballot(k) == old(self).spec_ballot(k)
                    &&& final(self).members_seq() == old(self).members_seq()
                    &&& final(self).candidates_seq() == old(self).candidates_seq()
                })
            }),
            ({
                let b = old(self).spec_ballot(on);
                let b2 = b.push((caller, value));
                (old(self).spec_is_member(caller) && old(self).spec_has_ballot(on) && !has_key(
                    b,
                    caller,
                ) && !settle_triggered(b2.len(), old(self).member_count())) ==> ({
                    &&& r == Ok::<VoteReceipt, Error>((Voted { by: caller, on, value }, None))
                    &&& final(self).spec_has_ballot(on)
                    &&& final(self).spec_ballot(on) == b2
                    &&& forall|k: AccountId|
                        k != on ==> (#[trigger] final(self).spec_has_ballot(k)
                            <==> old(self).spec_has_ballot(k))
                    &&& forall|k: AccountId|
                        k != on && old(self).spec_has_ballot(k)
                            ==> #[trigger] final(self).spec_ballot(k) == old(self).spec_ballot(k)
                    &&& final(self).members_seq() == old(self).members_seq()
                    &&& final(self).candidates_seq() == old(self).candidates_seq()
                })
            }),
            ({
                let b = old(self).spec_ballot(on);
                let b2 = b.push((caller, value));
                let total = b2.len();
                let yes = yes_count(b2);
                let mc = old(self).member_count();
                (old(self).spec_is_member(caller) && old(self).spec_has_ballot(on) && !has_key(
                    b,
                    caller,
                ) && settle_triggered(total, mc)) ==> ({
                    &&& r == Ok::<VoteReceipt, Error>(
                        (
                            Voted { by: caller, on, value },
                            Some(Decided { candidate: on, outcome: accepted(yes, total, mc) }),
                        ),
                    )
                    &&& !final(self).spec_has_ballot(on)
                    &&& forall|k: AccountId|
                        k != on ==> (#[trigger] final(self).spec_has_ballot(k)
                            <==> old(self).spec_has_ballot(k))
                    &&& forall|k: AccountId|
                        k != on && old(self).spec_has_ballot(k)
                            ==> #[trigger] final(self).spec_ballot(k) == old(self).spec_ballot(k)
                    &&& exists|i: int|
                        {
                            &&& 0 <= i < old(self).candidates_seq().len()
                            &&& (#[trigger] old(self).candidates_seq()[i]) == on
                            &&& (forall|j: int|
                                0 <= j < i ==> old(self).candidates_seq()[j] != on)
                            &&& final(self).candidates_seq() == old(self).candidates_seq().update(
                                i,
                                old(self).candidates_seq().last(),
                            ).drop_last()
                        }
                    &&& accepted(yes, total, mc) ==> ({
                        &&& final(self).spec_is_member(on)
                        &&& final(self).spec_joined_at(on) == now
                        &&& forall|k: AccountId|
                            k != on ==> (#[trigger] final(self).spec_is_member(k)
                                <==> old(self).spec_is_member(k))
                        &&& forall|k: AccountId|
                            k != on && old(self).spec_is_member(k)
                                ==> #[trigger] final(self).spec_joined_at(k) == old(
                                self,
                            ).spec_joined_at(k)
                        &&& final(self).member_count() == mc + (if old(self).spec_is_member(on) {
                            0int
                        } else {
                            1int
                        })
                    })
                    &&& !accepted(yes, total, mc) ==> final(self).members_seq() == old(
                        self,
                    ).members_seq()
                })
            }),
    {
        if !self.is_member(caller) {
            return Err(Error::NotAMember);
        }
        let bi = match find_key(&self.votes, on) {
            None => {
                proof {
                    if old(self).spec_has_ballot(on) {
                        let m = key_at(old(self).ballots_seq(), on);
                        assert(0 <= m < old(self).ballots_seq().len() && old(
                            self,
                        ).ballots_seq()[m].0 == on);
                        assert(old(self).votes@[m].0 == on);
                    }
                }
                return Err(Error::UnexpectedError);
            },
            Some(bi) => bi,
        };
        let ghost b0 = old(self).ballots_seq();
        let ghost b = old(self).votes@[bi as int].1@;
        proof {
            assert(b0[bi as int] == (old(self).votes@[bi as int].0, b));
            lemma_key_determines_value(b0, on, bi as int);
            assert(old(self).spec_ballot(on) == b);
            assert(ballot_wf(b));
        }
        let pos = find_key(&self.votes[bi].1, caller);
        match pos {
            Some(k) => {
                self.votes[bi].1[k] = (caller, value);
                proof {
                    assert(self.votes@ == old(self).votes@.update(
                        bi as int,
                        (old(self).votes@[bi as int].0, self.votes@[bi as int].1),
                    ));
                    assert(self.votes@[bi as int].1@ == b.update(k as int, (caller, value)));
                    assert(self.ballots_seq() =~= b0.update(
                        bi as int,
                        (on, b.update(k as int, (caller, value))),
                    ));
                    lemma_key_determines_value(b, caller, k as int);
                    lemma_update_same_key(b, k as int, value);
                    assert(b.update(k as int, (b[k as int].0, value)) == b.update(
                        k as int,
                        (caller, value),
                    ));
                    lemma_update_same_key(b0, bi as int, b.update(k as int, (caller, value)));
                    assert(b0.update(bi as int, (b0[bi as int].0, b.update(
                        k as int,
                        (caller, value),
                    ))) == b0.update(bi as int, (on, b.update(k as int, (caller, value)))));
                    self.lemma_same_keys_wf(*old(self));
                }
                Ok((Voted { by: caller, on, value }, None))
            },
            None => {
                proof {
                    lemma_yes_count_le_len(b);
                }
                let yes0 = count_yes(&self.votes[bi].1);
                self.votes[bi].1.push((caller, value));
                let total = self.votes[bi].1.len();
                let mc = self.members.len();
                let yes = if value {
                    yes0 + 1
                } else {
                    yes0
                };
                let ghost b2 = b.push((caller, value));
                proof {
                    assert(self.votes@[bi as int].1@ == b2);
                    assert(self.ballots_seq() =~= b0.update(bi as int, (on, b2)));
                    lemma_yes_count_push(b, (caller, value));
                    assert(yes == yes_count(b2));
                    assert(total == b2.len());
                    lemma_push_new_key(b, caller, value);
                    assert(b.push((caller, value)) == b2);
                    lemma_update_same_key(b0, bi as int, b2);
                    assert(b0.update(bi as int, (b0[bi as int].0, b2)) == b0.update(
                        bi as int,
                        (on, b2),
                    ));
                }
                if total == mc || total == VOTES_TO_SETTLE {
                    proof {
                        assert(old(self).candidates_seq().contains(b0[bi as int].0));
                    }
                    let ci = match self.search_candidates(on) {
                        None => {
                            return Err(Error::UnexpectedError);
                        },
                        Some(ci) => ci,
                    };
                    let ghost c0 = old(self).candidates_seq();
                    let ghost ballots1 = self.ballots_seq();
                    let _removed = self.candidates.swap_remove(ci);
                    let _ballot = self.votes.swap_remove(bi);
                    proof {
                        assert(self.candidates_seq() == c0.update(ci as int, c0.last()).drop_last());
                        assert(self.ballots_seq() =~= ballots1.update(
                            bi as int,
                            ballots1.last(),
                        ).drop_last());
                        assert(ballots1[bi as int].0 == on);
                        lemma_swap_remove_key(ballots1, bi as int);
                        self.lemma_settle_wf(*old(self), ballots1, on, ci as int, bi as int);
                        assert(0 <= ci < c0.len() && c0[ci as int] == on && (forall|j: int|
                            0 <= j < ci ==> c0[j] != on) && self.candidates_seq() == c0.update(
                            ci as int,
                            c0.last(),
                        ).drop_last());
                    }
                    let accept = (total == mc && total == yes) || yes >= VOTES_TO_ACCEPT;
                    if accept {
                        insert_member(&mut self.members, on, now);
                        proof {
                            assert(accepted(yes_count(b2), b2.len(), old(self).member_count()));
                        }
                        Ok(
                            (
                                Voted { by: caller, on, value },
                                Some(Decided { candidate: on, outcome: true }),
                            ),
                        )
                    } else {
                        proof {
                            assert(!accepted(yes_count(b2), b2.len(), old(self).member_count()));
                        }
                        Ok(
                            (
                                Voted { by: caller, on, value },
                                Some(Decided { candidate: on, outcome: false }),
                            ),
                        )
                    }
                } else {
                    proof {
                        assert(!settle_triggered(b2.len(), old(self).member_count()));
                        assert(b2.len() < VOTES_TO_SETTLE);
                        self.lemma_same_keys_wf(*old(self));
                    }
                    Ok((Voted { by: caller, on, value }, None))
                }
            },
        }
    }

    /// Well-formedness survives a change that keeps the queue and the
    /// members untouched and only replaces ballot contents by live ballots,
    /// key for key.
    proof fn lemma_same_keys_wf(self, pre: CitizenDAO)
        requires
            pre.wf(),
            self.members_seq() == pre.members_seq(),
            self.candidates_seq() == pre.candidates_seq(),
            self.ballots_seq().len() == pre.ballots_seq().len(),
            unique_keys(self.ballots_seq()),
            forall|i: int|
                0 <= i < self.ballots_seq().len() ==> (#[trigger] self.ballots_seq()[i]).0
                    == pre.ballots_seq()[i].0,
            forall|i: int|
                0 <= i < self.ballots_seq().len() ==> ballot_wf(
                    (#[trigger] self.ballots_seq()[i]).1,
                ),
        ensures
            self.wf(),
    {
        assert forall|i: int| 0 <= i < self.ballots_seq().len() implies self.candidates_seq()
            .contains((#[trigger] self.ballots_seq()[i]).0) by {
            assert(self.ballots_seq()[i].0 == pre.ballots_seq()[i].0);
            assert(pre.candidates_seq().contains(pre.ballots_seq()[i].0));
        }
    }

    /// Well-formedness survives a settlement: the candidate's queue slot is
    /// swap-removed, its ballot is drained, and every remaining ballot still
    /// belongs to a queued candidate and is still live.
    proof fn lemma_settle_wf(
        self,
        pre: CitizenDAO,
        ballots1: Seq<(AccountId, Seq<(AccountId, bool)>)>,
        on: AccountId,
        ci: int,
        bi: int,
    )
        requires
            pre.wf(),
            unique_keys(self.members_seq()),
            0 <= ci < pre.candidates_seq().len(),
            pre.candidates_seq()[ci] == on,
            self.candidates_seq() == pre.candidates_seq().update(
                ci,
                pre.candidates_seq().last(),
            ).drop_last(),
            0 <= bi < ballots1.len(),
            ballots1.len() == pre.ballots_seq().len(),
            unique_keys(ballots1),
            ballots1[bi].0 == on,
            forall|i: int|
                0 <= i < ballots1.len() ==> (#[trigger] ballots1[i]).0 == pre.ballots_seq()[i].0,
            forall|i: int|
                0 <= i < ballots1.len() && i != bi ==> (#[trigger] ballots1[i])
                    == pre.ballots_seq()[i],
            self.ballots_seq() == ballots1.update(bi, ballots1.last()).drop_last(),
        ensures
            self.wf(),
    {
        let b2s = self.ballots_seq();
        lemma_swap_remove_key(ballots1, bi);
        assert forall|i: int| 0 <= i < b2s.len() implies self.candidates_seq().contains(
            (#[trigger] b2s[i]).0,
        ) by {
            let n = ballots1.len() as int;
            let src = if i == bi {
                n - 1
            } else {
                i
            };
            assert(b2s[i] == ballots1[src]);
            assert(src != bi ==> ballots1[src].0 != on) by {
                if src != bi {
                    if src < bi {
                        assert(ballots1[src].0 != ballots1[bi].0);
                    } else {
                        assert(ballots1[bi].0 != ballots1[src].0);
                    }
                }
            }
            if src == bi {
                assert(i == bi && bi == n - 1);
                assert(b2s.len() == n - 1);
                assert(false);
            }
            assert(pre.candidates_seq().contains(pre.ballots_seq()[src].0));
            lemma_swap_remove_contains(pre.candidates_seq(), ci, ballots1[src].0);
        }
        assert forall|i: int| 0 <= i < b2s.len() implies ballot_wf((#[trigger] b2s[i]).1) by {
            let n = ballots1.len() as int;
            let src = if i == bi {
                n - 1
            } else {
                i
            };
            assert(b2s[i] == ballots1[src]);
            if src != bi {
                assert(ballots1[src] == pre.ballots_seq()[src]);
                assert(ballot_wf(pre.ballots_seq()[src].1));
            } else {
                assert(i == bi && bi == n - 1);
                assert(false);
            }
        }
    }

    /// Linear scan of the queue for the first slot holding `account`.
    fn search_candidates(&self, account: AccountId) -> (r: Option<usize>)
        ensures
            match r {
                Some(i) => i < self.candidates_seq().len() && self.candidates_seq()[i as int]
                    == account && forall|j: int|
                    0 <= j < i ==> self.candidates_seq()[j] != account,
                None => !self.candidates_seq().contains(account),
            },
    {
        let n = self.candidates.len();
        let mut i: usize = 0;
        while i < n
            invariant
                n == self.candidates@.len(),
                i <= n,
                forall|j: int| 0 <= j < i ==> self.candidates@[j] != account,
            decreases n - i,
        {
            if self.candidates[i] == account {
                return Some(i);
            }
            i = i + 1;
        }
        None
    }
}

} // verus!
