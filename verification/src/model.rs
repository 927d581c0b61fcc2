//! The mathematical model of the protocol: identities, errors, notifications,
//! the named thresholds, and the spec-level vocabulary that the contracts of
//! the admission authority are written in. The three registries are modelled
//! as sequences of key/value pairs; the helpers here say what it means for
//! such a sequence to hold a key, what value it holds, and how insertion,
//! overwrite and swap-removal change that reading.

use vstd::prelude::*;

verus! {

/// Capacity of the candidacy queue.
pub const MAX_CANDIDATES: usize = 10;

/// Ballot length that forces a decision regardless of membership size.
pub const VOTES_TO_SETTLE: usize = 9;

/// Minimum number of yes-votes that accepts a candidate when the unanimity
/// shortcut does not apply.
pub const VOTES_TO_ACCEPT: usize = 7;

/// Opaque participant identity. The protocol assumes nothing of it beyond
/// equality; the host chooses what the token stands for.
#[derive(Clone, Copy, PartialEq, Eq, Structural, Debug)]
pub struct AccountId {
    pub id: u64,
}

/// The failure taxonomy of the protocol. Each entry point leaves every
/// registry unchanged when it returns an error.
#[derive(Clone, Copy, PartialEq, Eq, Structural, Debug)]
pub enum Error {
    /// A candidacy was submitted while the queue was at capacity.
    CandidateQueueFull,
    /// A vote was cast by an identity that is not a member.
    NotAMember,
    /// An invariant violation was met defensively: the referenced candidate
    /// has no ballot, or was missing from the queue at settlement time.
    UnexpectedError,
}

/// Notification that a vote was recorded (appended or overwritten).
#[derive(Clone, Copy, PartialEq, Eq, Structural, Debug)]
pub struct Voted {
    pub by: AccountId,
    pub on: AccountId,
    pub value: bool,
}

/// Notification that a candidacy was decided, at settlement or at genesis.
#[derive(Clone, Copy, PartialEq, Eq, Structural, Debug)]
pub struct Decided {
    pub candidate: AccountId,
    pub outcome: bool,
}

/// True when some pair in `s` carries the key `k`.
pub open spec fn has_key<V>(s: Seq<(AccountId, V)>, k: AccountId) -> bool {
    exists|i: int| 0 <= i < s.len() && (#[trigger] s[i]).0 == k
}

/// An index of a pair carrying the key `k`; the only such index when the keys
/// of `s` are pairwise distinct.
pub open spec fn key_at<V>(s: Seq<(AccountId, V)>, k: AccountId) -> int {
    choose|i: int| 0 <= i < s.len() && (#[trigger] s[i]).0 == k
}

/// The value that `s` holds under the key `k`.
pub open spec fn value_of<V>(s: Seq<(AccountId, V)>, k: AccountId) -> V {
    s[key_at(s, k)].1
}

/// No two pairs of `s` share a key.
pub open spec fn unique_keys<V>(s: Seq<(AccountId, V)>) -> bool {
    forall|i: int, j: int|
        0 <= i < j < s.len() ==> (#[trigger] s[i]).0 != (#[trigger] s[j]).0
}

/// A live ballot: pairwise-distinct voters, strictly below the forced length
/// (a ballot that reaches `VOTES_TO_SETTLE` entries settles within the call
/// that brought it there and is drained, so it is never seen at rest).
pub open spec fn ballot_wf(b: Seq<(AccountId, bool)>) -> bool {
    unique_keys(b) && b.len() < VOTES_TO_SETTLE
}

/// Number of yes-votes in a ballot.
pub open spec fn yes_count(b: Seq<(AccountId, bool)>) -> nat
    decreases b.len(),
{
    if b.len() == 0 {
        0
    } else {
        yes_count(b.drop_last()) + if b.last().1 {
            1nat
        } else {
            0nat
        }
    }
}

/// The settlement trigger, evaluated on every appended vote: it fires when
/// every current member has voted, or when the ballot has just reached the
/// forced-decision length.
pub open spec fn settle_triggered(total: nat, member_count: nat) -> bool {
    total == member_count || total == VOTES_TO_SETTLE
}

/// The decision rule at settlement: accept on unanimous participation by the
/// full membership with every choice yes, or on reaching the yes-vote
/// threshold; otherwise reject.
pub open spec fn accepted(yes: nat, total: nat, member_count: nat) -> bool {
    (total == member_count && yes == total) || yes >= VOTES_TO_ACCEPT
}

/// Under pairwise-distinct keys, a pair carrying the key `k` at index `i` is
/// the pair that `key_at` and `value_of` read.
pub proof fn lemma_key_determines_value<V>(s: Seq<(AccountId, V)>, k: AccountId, i: int)
    requires
        unique_keys(s),
        0 <= i < s.len(),
        s[i].0 == k,
    ensures
        has_key(s, k),
        key_at(s, k) == i,
        value_of(s, k) == s[i].1,
{
    assert(has_key(s, k));
    let j = key_at(s, k);
    assert(0 <= j < s.len() && s[j].0 == k);
    if i < j {
        assert(s[i].0 != s[j].0);
    }
    if j < i {
        assert(s[j].0 != s[i].0);
    }
}

/// Appending a pair with a fresh key keeps every present key and its value,
/// adds the new key with the new value, and keeps the keys pairwise distinct.
pub proof fn lemma_push_new_key<V>(s: Seq<(AccountId, V)>, k0: AccountId, v: V)
    requires
        unique_keys(s),
        !has_key(s, k0),
    ensures
        unique_keys(s.push((k0, v))),
        has_key(s.push((k0, v)), k0),
        value_of(s.push((k0, v)), k0) == v,
        forall|k: AccountId|
            k != k0 ==> (#[trigger] has_key(s.push((k0, v)), k) <==> has_key(s, k)),
        forall|k: AccountId|
            k != k0 && has_key(s, k) ==> #[trigger] value_of(s.push((k0, v)), k) == value_of(
                s,
                k,
            ),
{
    let s2 = s.push((k0, v));
    assert forall|i: int, j: int| 0 <= i < j < s2.len() implies (#[trigger] s2[i]).0 != (
    #[trigger] s2[j]).0 by {
        if j < s.len() {
            assert(s2[i] == s[i] && s2[j] == s[j]);
        } else {
            assert(s2[j] == (k0, v));
            assert(s2[i] == s[i]);
            assert(s[i].0 != k0);
        }
    }
    assert(s2[s.len() as int].0 == k0);
    lemma_key_determines_value(s2, k0, s.len() as int);
    assert forall|k: AccountId| k != k0 implies (#[trigger] has_key(s2, k) <==> has_key(
        s,
        k,
    )) by {
        if has_key(s, k) {
            let i = key_at(s, k);
            assert(0 <= i < s.len() && s[i].0 == k);
            assert(s2[i].0 == k);
        }
        if has_key(s2, k) {
            let i = key_at(s2, k);
            assert(0 <= i < s2.len() && s2[i].0 == k);
            assert(i < s.len());
            assert(s[i].0 == k);
        }
    }
    assert forall|k: AccountId| k != k0 && has_key(s, k) implies #[trigger] value_of(s2, k)
        == value_of(s, k) by {
        let i = key_at(s, k);
        assert(0 <= i < s.len() && s[i].0 == k);
        lemma_key_determines_value(s, k, i);
        assert(s2[i].0 == k);
        lemma_key_determines_value(s2, k, i);
    }
}

/// Overwriting the pair at `i` with a pair of the same key keeps every key in
/// place: only the value under that key changes.
pub proof fn lemma_update_same_key<V>(s: Seq<(AccountId, V)>, i: int, v: V)
    requires
        unique_keys(s),
        0 <= i < s.len(),
    ensures
        unique_keys(s.update(i, (s[i].0, v))),
        has_key(s.update(i, (s[i].0, v)), s[i].0),
        value_of(s.update(i, (s[i].0, v)), s[i].0) == v,
        forall|k: AccountId|
            k != s[i].0 ==> (#[trigger] has_key(s.update(i, (s[i].0, v)), k) <==> has_key(s, k)),
        forall|k: AccountId|
            k != s[i].0 && has_key(s, k) ==> #[trigger] value_of(s.update(i, (s[i].0, v)), k)
                == value_of(s, k),
{
    let s2 = s.update(i, (s[i].0, v));
    assert(forall|m: int| 0 <= m < s.len() ==> (#[trigger] s2[m]).0 == s[m].0);
    assert forall|m: int, j: int| 0 <= m < j < s2.len() implies (#[trigger] s2[m]).0 != (
    #[trigger] s2[j]).0 by {
        assert(s[m].0 != s[j].0);
    }
    lemma_key_determines_value(s2, s[i].0, i);
    assert forall|k: AccountId| k != s[i].0 implies (#[trigger] has_key(s2, k) <==> has_key(
        s,
        k,
    )) by {
        if has_key(s, k) {
            let m = key_at(s, k);
            assert(0 <= m < s.len() && s[m].0 == k);
            assert(s2[m].0 == k);
        }
        if has_key(s2, k) {
            let m = key_at(s2, k);
            assert(0 <= m < s2.len() && s2[m].0 == k);
            assert(s[m].0 == k);
        }
    }
    assert forall|k: AccountId| k != s[i].0 && has_key(s, k) implies #[trigger] value_of(s2, k)
        == value_of(s, k) by {
        let m = key_at(s, k);
        assert(0 <= m < s.len() && s[m].0 == k);
        lemma_key_determines_value(s, k, m);
        assert(m != i);
        assert(s2[m] == s[m]);
        lemma_key_determines_value(s2, k, m);
    }
}

/// Swap-removal of the pair at `i` (overwrite with the last pair, then drop
/// the last slot) drops exactly the key at `i` from a sequence with pairwise
/// distinct keys; every other key stays, with its value.
pub proof fn lemma_swap_remove_key<V>(s: Seq<(AccountId, V)>, i: int)
    requires
        unique_keys(s),
        0 <= i < s.len(),
    ensures
        unique_keys(s.update(i, s.last()).drop_last()),
        s.update(i, s.last()).drop_last().len() == s.len() - 1,
        !has_key(s.update(i, s.last()).drop_last(), s[i].0),
        forall|k: AccountId|
            k != s[i].0 ==> (#[trigger] has_key(s.update(i, s.last()).drop_last(), k) <==> has_key(
                s,
                k,
            )),
        forall|k: AccountId|
            k != s[i].0 && has_key(s, k) ==> #[trigger] value_of(
                s.update(i, s.last()).drop_last(),
                k,
            ) == value_of(s, k),
{
    let s2 = s.update(i, s.last()).drop_last();
    let n = s.len() as int;
    assert(forall|m: int|
        0 <= m < n - 1 ==> (#[trigger] s2[m]) == if m == i {
            s[n - 1]
        } else {
            s[m]
        });
    assert forall|m: int, j: int| 0 <= m < j < s2.len() implies (#[trigger] s2[m]).0 != (
    #[trigger] s2[j]).0 by {
        let m0 = if m == i {
            n - 1
        } else {
            m
        };
        let j0 = if j == i {
            n - 1
        } else {
            j
        };
        assert(s2[m] == s[m0] && s2[j] == s[j0]);
        assert(m0 != j0);
    }
    assert forall|m: int| 0 <= m < s2.len() implies (#[trigger] s2[m]).0 != s[i].0 by {
        if m == i {
            assert(s2[m] == s[n - 1]);
            if i < n - 1 {
                assert(s[i].0 != s[n - 1].0);
            }
        } else {
            assert(s2[m] == s[m]);
            if m < i {
                assert(s[m].0 != s[i].0);
            } else {
                assert(s[i].0 != s[m].0);
            }
        }
    }
    assert forall|k: AccountId| k != s[i].0 implies (#[trigger] has_key(s2, k) <==> has_key(
        s,
        k,
    )) by {
        if has_key(s, k) {
            let m = key_at(s, k);
            assert(0 <= m < n && s[m].0 == k);
            assert(m != i);
            if m < n - 1 {
                assert(s2[m].0 == k);
            } else {
                assert(i < n - 1);
                assert(s2[i] == s[n - 1]);
                assert(s2[i].0 == k);
            }
        }
        if has_key(s2, k) {
            let m = key_at(s2, k);
            assert(0 <= m < s2.len() && s2[m].0 == k);
            if m == i {
                assert(s[n - 1].0 == k);
            } else {
                assert(s[m].0 == k);
            }
        }
    }
    assert forall|k: AccountId| k != s[i].0 && has_key(s, k) implies #[trigger] value_of(s2, k)
        == value_of(s, k) by {
        let m = key_at(s, k);
        assert(0 <= m < n && s[m].0 == k);
        lemma_key_determines_value(s, k, m);
        assert(m != i);
        if m < n - 1 {
            assert(s2[m] == s[m]);
            lemma_key_determines_value(s2, k, m);
        } else {
            assert(i < n - 1);
            assert(s2[i] == s[n - 1]);
            lemma_key_determines_value(s2, k, i);
        }
    }
}

/// Swap-removal at `i` keeps every entry other than the one removed: an
/// identity that sat elsewhere in the queue is still in the queue.
pub proof fn lemma_swap_remove_contains(s: Seq<AccountId>, i: int, k: AccountId)
    requires
        0 <= i < s.len(),
        k != s[i],
        s.contains(k),
    ensures
        s.update(i, s.last()).drop_last().contains(k),
{
    let s2 = s.update(i, s.last()).drop_last();
    let n = s.len() as int;
    let m = choose|m: int| 0 <= m < n && s[m] == k;
    if m < n - 1 {
        assert(s2[m] == k);
    } else {
        assert(i < n - 1);
        assert(s2[i] == s[n - 1]);
        assert(s2[i] == k);
    }
}

/// One appended pair adds its choice to the yes-count.
pub proof fn lemma_yes_count_push(b: Seq<(AccountId, bool)>, p: (AccountId, bool))
    ensures
        yes_count(b.push(p)) == yes_count(b) + if p.1 {
            1nat
        } else {
            0nat
        },
{
    assert(b.push(p).drop_last() =~= b);
    assert(b.push(p).last() == p);
}

/// Step of the yes-count over a growing prefix.
pub proof fn lemma_yes_count_take_step(b: Seq<(AccountId, bool)>, k: int)
    requires
        0 <= k < b.len(),
    ensures
        yes_count(b.take(k + 1)) == yes_count(b.take(k)) + if b[k].1 {
            1nat
        } else {
            0nat
        },
{
    assert(b.take(k + 1).drop_last() =~= b.take(k));
    assert(b.take(k + 1).last() == b[k]);
}

/// The yes-count never exceeds the ballot's length.
pub proof fn lemma_yes_count_le_len(b: Seq<(AccountId, bool)>)
    ensures
        yes_count(b) <= b.len(),
    decreases b.len(),
{
    if b.len() > 0 {
        lemma_yes_count_le_len(b.drop_last());
    }
}

} // verus!
