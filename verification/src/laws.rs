//! Laws of the protocol that relate several operations or hold of every
//! state, stated over the model and proved once and for all.

use vstd::prelude::*;

use crate::model::accepted;
use crate::model::ballot_wf;
use crate::model::has_key;
use crate::model::key_at;
use crate::model::settle_triggered;
use crate::model::unique_keys;
use crate::model::AccountId;
use crate::model::VOTES_TO_ACCEPT;
use crate::model::VOTES_TO_SETTLE;

verus! {

/// In every well-formed state — and every entry point returns one — the
/// candidacy queue holds at most `MAX_CANDIDATES` entries.
pub proof fn lemma_queue_bounded(dao: crate::protocol::CitizenDAO)
    requires
        dao.wf(),
    ensures
        dao.candidates_seq().len() <= crate::model::MAX_CANDIDATES,
{
}

/// A voter with an entry in a live ballot keeps exactly one entry after an
/// overwrite: the entry sits at its original position, carries the latest
/// choice, and the ballot's length and every other entry are unchanged.
pub proof fn lemma_overwrite_keeps_single_entry(
    b: Seq<(AccountId, bool)>,
    voter: AccountId,
    choice: bool,
)
    requires
        unique_keys(b),
        has_key(b, voter),
    ensures
        ({
            let i = key_at(b, voter);
            let b2 = b.update(i, (voter, choice));
            &&& 0 <= i < b.len()
            &&& b[i].0 == voter
            &&& b2.len() == b.len()
            &&& b2[i] == (voter, choice)
            &&& forall|j: int| 0 <= j < b.len() && j != i ==> b2[j] == b[j]
            &&& forall|j: int| 0 <= j < b2.len() && (#[trigger] b2[j]).0 == voter ==> j == i
        }),
{
    let i = key_at(b, voter);
    assert(0 <= i < b.len() && b[i].0 == voter);
    let b2 = b.update(i, (voter, choice));
    assert forall|j: int| 0 <= j < b2.len() && (#[trigger] b2[j]).0 == voter implies j == i by {
        if j != i {
            assert(b2[j] == b[j]);
            if j < i {
                assert(b[j].0 != b[i].0);
            } else {
                assert(b[i].0 != b[j].0);
            }
        }
    }
}

/// A live ballot sits strictly below the forced-decision length, so the
/// trigger is met at most once in a candidate's lifetime: the settling call
/// drains the ballot before any further vote could reach it again.
pub proof fn lemma_live_ballot_below_forced_length(b: Seq<(AccountId, bool)>)
    requires
        ballot_wf(b),
    ensures
        b.len() < VOTES_TO_SETTLE,
        b.len() + 1 <= VOTES_TO_SETTLE,
{
}

/// The forced threshold guarantees settlement: the vote that brings a ballot
/// to `VOTES_TO_SETTLE` entries triggers settlement whatever the membership
/// count is at that moment.
pub proof fn lemma_forced_settlement(member_count: nat)
    ensures
        settle_triggered(VOTES_TO_SETTLE as nat, member_count),
{
}

/// Below the forced length and below full participation, no settlement
/// fires: the two trigger conditions are the only settlement points.
pub proof fn lemma_no_early_settlement(total: nat, member_count: nat)
    requires
        total < VOTES_TO_SETTLE,
        total != member_count,
    ensures
        !settle_triggered(total, member_count),
{
}

/// Once the yes-vote threshold is reached on a ballot that settles below the
/// forced length and below full membership participation, one further
/// yes-vote cannot change the outcome: the threshold rule alone governs once
/// unanimity has failed.
pub proof fn lemma_accept_stable_under_flip(yes: nat, total: nat, member_count: nat)
    requires
        VOTES_TO_ACCEPT <= yes <= total,
        total < VOTES_TO_SETTLE,
        total < member_count,
    ensures
        accepted(yes, total, member_count),
        accepted(yes + 1, total, member_count),
{
}

/// A settled candidate that sat exactly once in the queue is absent from the
/// queue after the swap-removal; every other identity keeps its presence, and
/// the queue shrinks by one slot, so a fresh submission for the settled
/// identity finds room again.
pub proof fn lemma_settled_candidate_leaves_queue(s: Seq<AccountId>, i: int, a: AccountId)
    requires
        0 <= i < s.len(),
        s[i] == a,
        forall|j: int| 0 <= j < s.len() && j != i ==> s[j] != a,
    ensures
        ({
            let s2 = s.update(i, s.last()).drop_last();
            &&& s2.len() == s.len() - 1
            &&& !s2.contains(a)
            &&& forall|k: AccountId| k != a ==> (s2.contains(k) <==> s.contains(k))
        }),
{
    let s2 = s.update(i, s.last()).drop_last();
    let n = s.len() as int;
    assert forall|m: int| 0 <= m < s2.len() implies (#[trigger] s2[m]) != a by {
        if m == i {
            assert(s2[m] == s[n - 1]);
            if i != n - 1 {
                assert(s[n - 1] != a);
            }
        } else {
            assert(s2[m] == s[m]);
        }
    }
    if s2.contains(a) {
        let m = choose|m: int| 0 <= m < s2.len() && s2[m] == a;
        assert(false);
    }
    assert forall|k: AccountId| k != a implies (s2.contains(k) <==> s.contains(k)) by {
        if s.contains(k) {
            crate::model::lemma_swap_remove_contains(s, i, k);
        }
        if s2.contains(k) {
            let m = choose|m: int| 0 <= m < s2.len() && s2[m] == k;
            if m == i {
                assert(s[n - 1] == k);
            } else {
                assert(s[m] == k);
            }
        }
    }
}

} // verus!
