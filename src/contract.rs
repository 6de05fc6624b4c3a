//! The secret store: the records, the index of secrets by testator and the
//! index of secrets by beneficiary, kept in step by every operation, and the
//! release vote.
use vstd::prelude::*;

use crate::address::Address;
use crate::error::SecretError;
use crate::index::{
    drops, entries_distinct, ids_for, ids_linked, indexed, views, lemma_indexed_push, lists, strings_distinct,
    without_entries, IndexEntry,
};
use crate::quorum::{quorum_reached, QuorumPolicy};
use crate::secret::{
    add_address, added, contains_address, lemma_added_props, lemma_removed_props, remove_address,
    removed, SecretInfo,
};

verus! {

/// Some record has the id `id`.
pub open spec fn has_id(recs: Seq<SecretInfo>, id: Seq<char>) -> bool {
    exists|i: int| #![trigger recs[i]] 0 <= i < recs.len() && recs[i].id@ == id
}

/// The position of the record with the id `id` (meaningful where `has_id` holds).
pub open spec fn pos_of(recs: Seq<SecretInfo>, id: Seq<char>) -> int {
    choose|i: int| #![trigger recs[i]] 0 <= i < recs.len() && recs[i].id@ == id
}

/// The record `id` exists and belongs to `a`.
pub open spec fn owns(recs: Seq<SecretInfo>, a: Address, id: Seq<char>) -> bool {
    exists|i: int| #![trigger recs[i]] 0 <= i < recs.len() && recs[i].owner == a && recs[i].id@ == id
}

/// The record `id` exists and has `b` on its whitelist.
pub open spec fn listed(recs: Seq<SecretInfo>, b: Address, id: Seq<char>) -> bool {
    exists|i: int|
        #![trigger recs[i]]
        0 <= i < recs.len() && recs[i].id@ == id && recs[i].whitelist@.contains(b)
}

/// No two records share an id.
pub open spec fn ids_distinct(recs: Seq<SecretInfo>) -> bool {
    forall|i: int, j: int|
        #![trigger recs[i], recs[j]]
        0 <= i < j < recs.len() ==> recs[i].id@ != recs[j].id@
}

/// Every released record of `old` is still in `new`, still released.
pub open spec fn released_kept(old: Seq<SecretInfo>, new: Seq<SecretInfo>) -> bool {
    forall|i: int|
        #![trigger old[i]]
        0 <= i < old.len() && old[i].released ==> exists|j: int|
            #![trigger new[j]]
            0 <= j < new.len() && new[j].id@ == old[i].id@ && new[j].released
}

/// `new` is `old` but at position `p`, where the record keeps its id, owner and name.
pub open spec fn same_but_at(old: Seq<SecretInfo>, new: Seq<SecretInfo>, p: int) -> bool {
    &&& new.len() == old.len()
    &&& 0 <= p < old.len()
    &&& forall|j: int| #![trigger new[j]] 0 <= j < new.len() && j != p ==> new[j] == old[j]
    &&& new[p].id@ == old[p].id@
    &&& new[p].owner == old[p].owner
    &&& new[p].name@ == old[p].name@
}

/// The secrets store, the index of secrets by testator and the index of
/// secrets by beneficiary, with the release threshold.
pub struct Contract {
    pub secrets: Vec<SecretInfo>,
    pub testator_index: Vec<IndexEntry>,
    pub beneficiary_index: Vec<IndexEntry>,
    pub policy: QuorumPolicy,
}

proof fn lemma_recs_push(recs: Seq<SecretInfo>, r: SecretInfo, a: Address, s: Seq<char>)
    ensures
        owns(recs.push(r), a, s) <==> (owns(recs, a, s) || (r.owner == a && r.id@ == s)),
        listed(recs.push(r), a, s) <==> (listed(recs, a, s) || (r.id@ == s
            && r.whitelist@.contains(a))),
        has_id(recs.push(r), s) <==> (has_id(recs, s) || r.id@ == s),
{
    let n = recs.push(r);
    assert forall|i: int| 0 <= i < recs.len() implies n[i] == recs[i] by {}
    assert(n[recs.len() as int] == r);
    if owns(n, a, s) {
        let i = choose|i: int| #![trigger n[i]] 0 <= i < n.len() && n[i].owner == a && n[i].id@ == s;
        if i < recs.len() {
            assert(recs[i] == n[i]);
        }
    }
    if listed(n, a, s) {
        let i = choose|i: int|
            #![trigger n[i]]
            0 <= i < n.len() && n[i].id@ == s && n[i].whitelist@.contains(a);
        if i < recs.len() {
            assert(recs[i] == n[i]);
        }
    }
    if has_id(n, s) {
        let i = choose|i: int| #![trigger n[i]] 0 <= i < n.len() && n[i].id@ == s;
        if i < recs.len() {
            assert(recs[i] == n[i]);
        }
    }
}

proof fn lemma_recs_remove(recs: Seq<SecretInfo>, p: int, a: Address, s: Seq<char>)
    requires
        ids_distinct(recs),
        0 <= p < recs.len(),
    ensures
        owns(recs.remove(p), a, s) <==> (owns(recs, a, s) && s != recs[p].id@),
        listed(recs.remove(p), a, s) <==> (listed(recs, a, s) && s != recs[p].id@),
        has_id(recs.remove(p), s) <==> (has_id(recs, s) && s != recs[p].id@),
        ids_distinct(recs.remove(p)),
{
    let n = recs.remove(p);
    assert forall|i: int| 0 <= i < n.len() implies n[i] == recs[if i < p { i } else { i + 1 }] by {}
    if owns(recs, a, s) && s != recs[p].id@ {
        let i = choose|i: int| #![trigger recs[i]] 0 <= i < recs.len() && recs[i].owner == a && recs[i].id@ == s;
        let j = if i < p { i } else { i - 1 };
        assert(n[j] == recs[i]);
    }
    if listed(recs, a, s) && s != recs[p].id@ {
        let i = choose|i: int|
            #![trigger recs[i]]
            0 <= i < recs.len() && recs[i].id@ == s && recs[i].whitelist@.contains(a);
        let j = if i < p { i } else { i - 1 };
        assert(n[j] == recs[i]);
    }
    if has_id(recs, s) && s != recs[p].id@ {
        let i = choose|i: int| #![trigger recs[i]] 0 <= i < recs.len() && recs[i].id@ == s;
        let j = if i < p { i } else { i - 1 };
        assert(n[j] == recs[i]);
    }
    if owns(n, a, s) {
        let j = choose|j: int| #![trigger n[j]] 0 <= j < n.len() && n[j].owner == a && n[j].id@ == s;
        let i = if j < p { j } else { j + 1 };
        assert(recs[i] == n[j]);
    }
    if listed(n, a, s) {
        let j = choose|j: int|
            #![trigger n[j]]
            0 <= j < n.len() && n[j].id@ == s && n[j].whitelist@.contains(a);
        let i = if j < p { j } else { j + 1 };
        assert(recs[i] == n[j]);
    }
    if has_id(n, s) {
        let j = choose|j: int| #![trigger n[j]] 0 <= j < n.len() && n[j].id@ == s;
        let i = if j < p { j } else { j + 1 };
        assert(recs[i] == n[j]);
    }
    assert forall|i: int, j: int| 0 <= i < j < n.len() implies n[i].id@ != n[j].id@ by {
        let i2 = if i < p { i } else { i + 1 };
        let j2 = if j < p { j } else { j + 1 };
        assert(n[i] == recs[i2] && n[j] == recs[j2]);
    }
}

proof fn lemma_recs_update(recs: Seq<SecretInfo>, p: int, r: SecretInfo, a: Address, s: Seq<char>)
    requires
        ids_distinct(recs),
        0 <= p < recs.len(),
        r.id@ == recs[p].id@,
        r.owner == recs[p].owner,
    ensures
        owns(recs.update(p, r), a, s) <==> owns(recs, a, s),
        listed(recs.update(p, r), a, s) <==> ((listed(recs, a, s) && s != r.id@) || (s == r.id@
            && r.whitelist@.contains(a))),
        has_id(recs.update(p, r), s) <==> has_id(recs, s),
        ids_distinct(recs.update(p, r)),
        has_id(recs, r.id@) ==> pos_of(recs.update(p, r), r.id@) == p,
        has_id(recs, r.id@) ==> pos_of(recs, r.id@) == p,
{
    let n = recs.update(p, r);
    assert forall|i: int| 0 <= i < n.len() && i != p implies n[i] == recs[i] by {}
    assert(n[p] == r);
    assert forall|i: int, j: int| #![trigger n[i], n[j]] 0 <= i < j < n.len() implies n[i].id@ != n[j].id@ by {
        assert(n[i].id@ == recs[i].id@ && n[j].id@ == recs[j].id@);
    }
    if owns(recs, a, s) {
        let i = choose|i: int| #![trigger recs[i]] 0 <= i < recs.len() && recs[i].owner == a && recs[i].id@ == s;
        assert(n[i].owner == a && n[i].id@ == s);
    }
    if owns(n, a, s) {
        let i = choose|i: int| #![trigger n[i]] 0 <= i < n.len() && n[i].owner == a && n[i].id@ == s;
        assert(recs[i].owner == a && recs[i].id@ == s);
    }
    if has_id(recs, s) {
        let i = choose|i: int| #![trigger recs[i]] 0 <= i < recs.len() && recs[i].id@ == s;
        assert(n[i].id@ == s);
    }
    if has_id(n, s) {
        let i = choose|i: int| #![trigger n[i]] 0 <= i < n.len() && n[i].id@ == s;
        assert(recs[i].id@ == s);
    }
    if listed(recs, a, s) && s != r.id@ {
        let i = choose|i: int|
            #![trigger recs[i]]
            0 <= i < recs.len() && recs[i].id@ == s && recs[i].whitelist@.contains(a);
        assert(n[i] == recs[i]);
    }
    if s == r.id@ && r.whitelist@.contains(a) {
        assert(n[p].id@ == s && n[p].whitelist@.contains(a));
    }
    if listed(n, a, s) {
        let i = choose|i: int|
            #![trigger n[i]]
            0 <= i < n.len() && n[i].id@ == s && n[i].whitelist@.contains(a);
        if i != p {
            assert(recs[i] == n[i]);
            assert(recs[i].id@ != recs[p].id@);
        }
    }
    if has_id(recs, r.id@) {
        let q = pos_of(recs, r.id@);
        if q != p {
            assert(recs[q].id@ != recs[p].id@);
        }
        assert(has_id(n, r.id@));
        let q2 = pos_of(n, r.id@);
        if q2 != p {
            assert(n[q2].id@ != n[p].id@);
        }
    }
}

/// Rewriting one unreleased record in place, keeping its id, owner and
/// whitelist and leaving it well formed, keeps the store well formed and
/// every released record released.
proof fn lemma_rewrite_keeps_wf(old: Contract, new: Contract, p: int, rec: SecretInfo)
    requires
        old.wf(),
        0 <= p < old.secrets@.len(),
        rec.id@ == old.secrets@[p].id@,
        rec.owner == old.secrets@[p].owner,
        rec.whitelist@ == old.secrets@[p].whitelist@,
        rec.wf(),
        !old.secrets@[p].released || rec.released,
        new.secrets@ == old.secrets@.update(p, rec),
        new.testator_index == old.testator_index,
        new.beneficiary_index == old.beneficiary_index,
    ensures
        new.wf(),
        released_kept(old.secrets@, new.secrets@),
{
    let old_s = old.secrets@;
    let id = rec.id@;
    lemma_recs_update(old_s, p, rec, rec.owner, id);
    assert forall|a: Address, s: Seq<char>|
        #![trigger indexed(new.testator_index@, a, s)]
        #![trigger owns(new.secrets@, a, s)]
        indexed(new.testator_index@, a, s) <==> owns(new.secrets@, a, s) by {
        lemma_recs_update(old_s, p, rec, a, s);
    }
    assert forall|c: Address, s: Seq<char>|
        #![trigger indexed(new.beneficiary_index@, c, s)]
        #![trigger listed(new.secrets@, c, s)]
        indexed(new.beneficiary_index@, c, s) <==> listed(new.secrets@, c, s) by {
        lemma_recs_update(old_s, p, rec, c, s);
        if listed(old_s, c, s) && s == id {
            let j = choose|j: int|
                #![trigger old_s[j]]
                0 <= j < old_s.len() && old_s[j].id@ == s && old_s[j].whitelist@.contains(c);
            if j != p {
                assert(old_s[j].id@ != old_s[p].id@);
            }
        }
        if s == id && rec.whitelist@.contains(c) {
            assert(old_s[p].id@ == s && old_s[p].whitelist@.contains(c));
        }
    }
    assert forall|j: int|
        #![trigger new.secrets@[j]]
        0 <= j < new.secrets@.len() implies new.secrets@[j].wf() by {
        if j != p {
            assert(new.secrets@[j] == old_s[j]);
        }
    }
    assert forall|k: int|
        #![trigger old_s[k]]
        0 <= k < old_s.len() && old_s[k].released implies exists|j: int|
            #![trigger new.secrets@[j]]
            0 <= j < new.secrets@.len() && new.secrets@[j].id@ == old_s[k].id@
                && new.secrets@[j].released by {
        assert(new.secrets@[k] == old_s[k] || (k == p && new.secrets@[k].id@ == old_s[k].id@
            && new.secrets@[k].released));
    }
}

/// What `add_secret_with_id` does: refuse an id in use, else append a fresh
/// record with an empty whitelist, no votes, not released.
pub open spec fn secret_added(
    old: Contract,
    new: Contract,
    testator: Address,
    name: Seq<char>,
    content: Seq<char>,
    id: Seq<char>,
    r: Result<(), SecretError>,
) -> bool {
    if has_id(old.secrets@, id) {
        r == Err::<(), SecretError>(SecretError::DuplicateId) && new == old
    } else {
        &&& r == Ok::<(), SecretError>(())
        &&& new.policy == old.policy
        &&& new.secrets@.len() == old.secrets@.len() + 1
        &&& forall|i: int|
            #![trigger new.secrets@[i]]
            0 <= i < old.secrets@.len() ==> new.secrets@[i] == old.secrets@[i]
        &&& new.testator_index@.len() == old.testator_index@.len() + 1
        &&& new.testator_index@.drop_last() == old.testator_index@
        &&& new.testator_index@.last().addr == testator
        &&& new.testator_index@.last().secret_id@ == id
        &&& new.beneficiary_index == old.beneficiary_index
        &&& new.secrets@.last().id@ == id
        &&& has_id(new.secrets@, id)
        &&& pos_of(new.secrets@, id) == old.secrets@.len()
        &&& new.secrets@.last().owner == testator
        &&& new.secrets@.last().name@ == name
        &&& new.secrets@.last().content@ == content
        &&& new.secrets@.last().whitelist@ == Seq::<Address>::empty()
        &&& new.secrets@.last().release_votes@ == Seq::<Address>::empty()
        &&& !new.secrets@.last().released
    }
}

/// The checks that every owner-only operation makes, in order: the secret
/// exists, the caller owns it, it is not released. `None` where all pass.
pub open spec fn owner_refusal(c: Contract, testator: Address, id: Seq<char>) -> Option<
    SecretError,
> {
    if !has_id(c.secrets@, id) {
        Some(SecretError::NotFound)
    } else if c.secrets@[pos_of(c.secrets@, id)].owner != testator {
        Some(SecretError::NotOwner)
    } else if c.secrets@[pos_of(c.secrets@, id)].released {
        Some(SecretError::AlreadyReleased)
    } else {
        None
    }
}

/// What `remove_secret_for_testator` does.
pub open spec fn secret_removed(
    old: Contract,
    new: Contract,
    testator: Address,
    id: Seq<char>,
    r: Result<(), SecretError>,
) -> bool {
    match owner_refusal(old, testator, id) {
        Some(e) => r == Err::<(), SecretError>(e) && new == old,
        None => {
            &&& r == Ok::<(), SecretError>(())
            &&& new.policy == old.policy
            &&& new.secrets@ == old.secrets@.remove(pos_of(old.secrets@, id))
        },
    }
}

/// The record `id`, rewritten at its position: every field but those that
/// the operation names stays as it was.
pub open spec fn rewritten(old: Contract, new: Contract, id: Seq<char>) -> bool {
    &&& new.policy == old.policy
    &&& same_but_at(old.secrets@, new.secrets@, pos_of(old.secrets@, id))
    &&& new.testator_index == old.testator_index
    &&& has_id(new.secrets@, id)
    &&& pos_of(new.secrets@, id) == pos_of(old.secrets@, id)
}

/// What `add_beneficiary` does: `b` joins the whitelist of `id` unless on it.
pub open spec fn beneficiary_added(
    old: Contract,
    new: Contract,
    testator: Address,
    id: Seq<char>,
    b: Address,
    r: Result<(), SecretError>,
) -> bool {
    match owner_refusal(old, testator, id) {
        Some(e) => r == Err::<(), SecretError>(e) && new == old,
        None => {
            let p = pos_of(old.secrets@, id);
            &&& r == Ok::<(), SecretError>(())
            &&& rewritten(old, new, id)
            &&& new.secrets@[p].content@ == old.secrets@[p].content@
            &&& new.secrets@[p].released == old.secrets@[p].released
            &&& new.secrets@[p].release_votes@ == old.secrets@[p].release_votes@
            &&& new.secrets@[p].whitelist@ == added(old.secrets@[p].whitelist@, b)
            &&& if old.secrets@[p].whitelist@.contains(b) {
                new.beneficiary_index == old.beneficiary_index
            } else {
                &&& new.beneficiary_index@.len() == old.beneficiary_index@.len() + 1
                &&& new.beneficiary_index@.drop_last() == old.beneficiary_index@
                &&& new.beneficiary_index@.last().addr == b
                &&& new.beneficiary_index@.last().secret_id@ == id
            }
        },
    }
}

/// What `remove_beneficiary` does: `b` leaves the whitelist of `id`, and its
/// vote goes with it.
pub open spec fn beneficiary_removed(
    old: Contract,
    new: Contract,
    testator: Address,
    id: Seq<char>,
    b: Address,
    r: Result<(), SecretError>,
) -> bool {
    match owner_refusal(old, testator, id) {
        Some(e) => r == Err::<(), SecretError>(e) && new == old,
        None => {
            let p = pos_of(old.secrets@, id);
            &&& r == Ok::<(), SecretError>(())
            &&& rewritten(old, new, id)
            &&& new.secrets@[p].content@ == old.secrets@[p].content@
            &&& new.secrets@[p].released == old.secrets@[p].released
            &&& new.secrets@[p].release_votes@ == removed(old.secrets@[p].release_votes@, b)
            &&& new.secrets@[p].whitelist@ == removed(old.secrets@[p].whitelist@, b)
        },
    }
}

/// What `update_content` does.
pub open spec fn content_updated(
    old: Contract,
    new: Contract,
    testator: Address,
    id: Seq<char>,
    content: Seq<char>,
    r: Result<(), SecretError>,
) -> bool {
    match owner_refusal(old, testator, id) {
        Some(e) => r == Err::<(), SecretError>(e) && new == old,
        None => {
            let p = pos_of(old.secrets@, id);
            &&& r == Ok::<(), SecretError>(())
            &&& rewritten(old, new, id)
            &&& new.secrets@[p].content@ == content
            &&& new.beneficiary_index == old.beneficiary_index
            &&& new.secrets@[p].released == old.secrets@[p].released
            &&& new.secrets@[p].release_votes@ == old.secrets@[p].release_votes@
            &&& new.secrets@[p].whitelist@ == old.secrets@[p].whitelist@
        },
    }
}

/// The checks that a vote passes, in order: the secret exists, the voter is
/// on its whitelist, it is not released. `None` where all pass.
pub open spec fn vote_refusal(c: Contract, beneficiary: Address, id: Seq<char>) -> Option<
    SecretError,
> {
    if !has_id(c.secrets@, id) {
        Some(SecretError::NotFound)
    } else if !c.secrets@[pos_of(c.secrets@, id)].whitelist@.contains(beneficiary) {
        Some(SecretError::NotWhitelisted)
    } else if c.secrets@[pos_of(c.secrets@, id)].released {
        Some(SecretError::AlreadyReleased)
    } else {
        None
    }
}

/// What `cast_release_vote` does: the vote of `beneficiary` is set or taken
/// back, and the secret is released if the votes now reach the quorum.
pub open spec fn vote_cast(
    old: Contract,
    new: Contract,
    beneficiary: Address,
    id: Seq<char>,
    value: bool,
    r: Result<(), SecretError>,
) -> bool {
    match vote_refusal(old, beneficiary, id) {
        Some(e) => r == Err::<(), SecretError>(e) && new == old,
        None => {
            let p = pos_of(old.secrets@, id);
            let votes = if value {
                added(old.secrets@[p].release_votes@, beneficiary)
            } else {
                removed(old.secrets@[p].release_votes@, beneficiary)
            };
            &&& r == Ok::<(), SecretError>(())
            &&& rewritten(old, new, id)
            &&& new.secrets@[p].content@ == old.secrets@[p].content@
            &&& new.secrets@[p].whitelist@ == old.secrets@[p].whitelist@
            &&& new.secrets@[p].release_votes@ == votes
            &&& new.beneficiary_index == old.beneficiary_index
            &&& new.secrets@[p].released == quorum_reached(
                old.policy,
                votes.len(),
                old.secrets@[p].whitelist@.len(),
            )
        },
    }
}

impl Contract {
    /// The ids are distinct, each record is well formed, and the two indices
    /// hold, each once, exactly the links that the records give.
    pub open spec fn wf(&self) -> bool {
        &&& ids_distinct(self.secrets@)
        &&& forall|i: int| #![trigger self.secrets@[i]] 0 <= i < self.secrets@.len() ==> self.secrets@[i].wf()
        &&& entries_distinct(self.testator_index@)
        &&& entries_distinct(self.beneficiary_index@)
        &&& forall|a: Address, s: Seq<char>|
            #![trigger indexed(self.testator_index@, a, s)]
            #![trigger owns(self.secrets@, a, s)]
            indexed(self.testator_index@, a, s) <==> owns(self.secrets@, a, s)
        &&& forall|b: Address, s: Seq<char>|
            #![trigger indexed(self.beneficiary_index@, b, s)]
            #![trigger listed(self.secrets@, b, s)]
            indexed(self.beneficiary_index@, b, s) <==> listed(self.secrets@, b, s)
    }

    /// An empty store that releases a secret once a strict majority of its
    /// whitelist has voted for it.
    pub fn new() -> (c: Contract)
        ensures
            c.wf(),
            c.secrets@.len() == 0,
            c.policy.numerator == 1,
            c.policy.denominator == 2,
    {
        Contract::with_policy(QuorumPolicy::strict_majority())
    }

    /// An empty store with the given release threshold.
    pub fn with_policy(policy: QuorumPolicy) -> (c: Contract)
        ensures
            c.wf(),
            c.secrets@.len() == 0,
            c.policy == policy,
    {
        let c = Contract {
            secrets: Vec::new(),
            testator_index: Vec::new(),
            beneficiary_index: Vec::new(),
            policy,
        };
        assert forall|a: Address, s: Seq<char>| !indexed(c.testator_index@, a, s) && !owns(c.secrets@, a, s)
            && !indexed(c.beneficiary_index@, a, s) && !listed(c.secrets@, a, s) by {}
        c
    }

    /// The position of the secret `id`, if it exists.
    fn find(&self, id: &String) -> (r: Option<usize>)
        requires
            ids_distinct(self.secrets@),
        ensures
            match r {
                Some(i) => has_id(self.secrets@, id@) && i == pos_of(self.secrets@, id@) && i
                    < self.secrets@.len(),
                None => !has_id(self.secrets@, id@),
            },
    {
        let mut i: usize = 0;
        while i < self.secrets.len()
            invariant
                0 <= i <= self.secrets@.len(),
                ids_distinct(self.secrets@),
                forall|k: int| #![trigger self.secrets@[k]] 0 <= k < i ==> self.secrets@[k].id@ != id@,
            decreases self.secrets.len() - i,
        {
            if self.secrets[i].id == *id {
                proof {
                    assert(self.secrets@[i as int].id@ == id@);
                    assert(has_id(self.secrets@, id@));
                    let p = pos_of(self.secrets@, id@);
                    assert(self.secrets@[p].id@ == id@);
                    if p < i {
                        assert(self.secrets@[p].id@ != self.secrets@[i as int].id@);
                    } else if p > i {
                        assert(self.secrets@[i as int].id@ != self.secrets@[p].id@);
                    }
                }
                return Some(i);
            }
            i += 1;
        }
        None
    }

    /// The checks of `owner_refusal`, made; the position of the secret where they pass.
    fn check_owner(&self, testator: Address, id: &String) -> (r: Result<usize, SecretError>)
        requires
            ids_distinct(self.secrets@),
        ensures
            match r {
                Ok(i) => owner_refusal(*self, testator, id@) is None && i == pos_of(
                    self.secrets@,
                    id@,
                ) && i < self.secrets@.len(),
                Err(e) => owner_refusal(*self, testator, id@) == Some(e),
            },
    {
        match self.find(id) {
            None => Err(SecretError::NotFound),
            Some(i) => {
                if self.secrets[i].owner != testator {
                    Err(SecretError::NotOwner)
                } else if self.secrets[i].released {
                    Err(SecretError::AlreadyReleased)
                } else {
                    Ok(i)
                }
            },
        }
    }

    /// Registers a secret of `testator` under an id chosen by the caller.
    pub fn add_secret_with_id(
        &mut self,
        testator: Address,
        name: String,
        content: String,
        id: String,
    ) -> (r: Result<(), SecretError>)
        requires
            old(self).wf(),
            name@.len() > 0,
        ensures
            final(self).wf(),
            secret_added(*old(self), *final(self), testator, name@, content@, id@, r),
            released_kept(old(self).secrets@, final(self).secrets@),
    {
        if self.find(&id).is_some() {
            return Err(SecretError::DuplicateId);
        }
        let ghost old_t = self.testator_index@;
        let ghost old_s = self.secrets@;
        let entry = IndexEntry { addr: testator, secret_id: id.clone() };
        self.testator_index.push(entry);
        let rec = SecretInfo {
            id,
            owner: testator,
            name,
            content,
            whitelist: Vec::new(),
            release_votes: Vec::new(),
            released: false,
        };
        self.secrets.push(rec);
        proof {
            assert(self.secrets@ == old_s.push(rec));
            assert(self.testator_index@.drop_last() =~= old_t);
            assert forall|i: int| 0 <= i < old_s.len() implies self.secrets@[i] == old_s[i] by {}
            assert forall|a: Address, s: Seq<char>|
                #![trigger indexed(self.testator_index@, a, s)]
                #![trigger owns(self.secrets@, a, s)]
                indexed(self.testator_index@, a, s) <==> owns(self.secrets@, a, s) by {
                lemma_indexed_push(old_t, entry, a, s);
                lemma_recs_push(old_s, rec, a, s);
            }
            assert forall|b: Address, s: Seq<char>|
                #![trigger indexed(self.beneficiary_index@, b, s)]
                #![trigger listed(self.secrets@, b, s)]
                indexed(self.beneficiary_index@, b, s) <==> listed(self.secrets@, b, s) by {
                lemma_recs_push(old_s, rec, b, s);
            }
            assert forall|k: int, l: int|
                #![trigger self.testator_index@[k], self.testator_index@[l]]
                0 <= k < l < self.testator_index@.len() implies !(self.testator_index@[k].addr
                    == self.testator_index@[l].addr && self.testator_index@[k].secret_id@
                    == self.testator_index@[l].secret_id@) by {
                if l == old_t.len() {
                    assert(self.testator_index@[k] == old_t[k]);
                    if old_t[k].addr == testator && old_t[k].secret_id@ == rec.id@ {
                        assert(indexed(old_t, testator, rec.id@));
                        assert(owns(old_s, testator, rec.id@));
                    }
                } else {
                    assert(self.testator_index@[k] == old_t[k]);
                    assert(self.testator_index@[l] == old_t[l]);
                }
            }
            assert forall|i: int, j: int|
                #![trigger self.secrets@[i], self.secrets@[j]]
                0 <= i < j < self.secrets@.len() implies self.secrets@[i].id@ != self.secrets@[j].id@ by {
                if j == old_s.len() {
                    assert(self.secrets@[i] == old_s[i]);
                }
            }
            assert forall|i: int|
                #![trigger old_s[i]]
                0 <= i < old_s.len() && old_s[i].released implies exists|j: int|
                    #![trigger self.secrets@[j]]
                    0 <= j < self.secrets@.len() && self.secrets@[j].id@ == old_s[i].id@
                        && self.secrets@[j].released by {
                assert(self.secrets@[i] == old_s[i]);
            }
            let n = old_s.len() as int;
            assert(self.secrets@[n].id@ == rec.id@);
            assert(has_id(self.secrets@, rec.id@));
            let q = pos_of(self.secrets@, rec.id@);
            if q != n {
                assert(self.secrets@[q].id@ != self.secrets@[n].id@);
            }
        }
        Ok(())
    }

    /// Registers a secret of `testator` under a freshly drawn random id, and
    /// returns that id.
    pub fn add_secret_for_testator(
        &mut self,
        testator: Address,
        name: String,
        content: String,
    ) -> (r: Result<String, SecretError>)
        requires
            old(self).wf(),
            name@.len() > 0,
        ensures
            final(self).wf(),
            released_kept(old(self).secrets@, final(self).secrets@),
            match r {
                Ok(id) => secret_added(
                    *old(self),
                    *final(self),
                    testator,
                    name@,
                    content@,
                    id@,
                    Ok(()),
                ),
                Err(e) => e == SecretError::DuplicateId && *final(self) == *old(self),
            },
            (forall|i: int|
                #![trigger old(self).secrets@[i]]
                0 <= i < old(self).secrets@.len() ==> old(self).secrets@[i].id@.len() != 36)
                ==> r is Ok,
    {
        let id = crate::ident::fresh_secret_id();
        match self.add_secret_with_id(testator, name, content, id.clone()) {
            Ok(()) => Ok(id),
            Err(e) => Err(e),
        }
    }

    /// Deletes the secret `id` of `testator`, with its links in both indices.
    pub fn remove_secret_for_testator(&mut self, testator: Address, id: String) -> (r: Result<
        (),
        SecretError,
    >)
        requires
            old(self).wf(),
        ensures
            final(self).wf(),
            secret_removed(*old(self), *final(self), testator, id@, r),
            released_kept(old(self).secrets@, final(self).secrets@),
    {
        let i = match self.check_owner(testator, &id) {
            Ok(i) => i,
            Err(e) => return Err(e),
        };
        let ghost old_s = self.secrets@;
        let ghost old_t = self.testator_index@;
        let ghost old_b = self.beneficiary_index@;
        self.testator_index = without_entries(&self.testator_index, &id, None);
        self.beneficiary_index = without_entries(&self.beneficiary_index, &id, None);
        self.secrets.remove(i);
        proof {
            let p = i as int;
            assert(old_s[p].id@ == id@);
            assert forall|a: Address, s: Seq<char>|
                #![trigger indexed(self.testator_index@, a, s)]
                #![trigger owns(self.secrets@, a, s)]
                indexed(self.testator_index@, a, s) <==> owns(self.secrets@, a, s) by {
                lemma_recs_remove(old_s, p, a, s);
                assert(indexed(old_t, a, s) <==> owns(old_s, a, s));
            }
            assert forall|b: Address, s: Seq<char>|
                #![trigger indexed(self.beneficiary_index@, b, s)]
                #![trigger listed(self.secrets@, b, s)]
                indexed(self.beneficiary_index@, b, s) <==> listed(self.secrets@, b, s) by {
                lemma_recs_remove(old_s, p, b, s);
                assert(indexed(old_b, b, s) <==> listed(old_s, b, s));
            }
            lemma_recs_remove(old_s, p, testator, id@);
            assert forall|j: int|
                #![trigger self.secrets@[j]]
                0 <= j < self.secrets@.len() implies self.secrets@[j].wf() by {
                assert(self.secrets@[j] == old_s[if j < p { j } else { j + 1 }]);
            }
            assert forall|k: int|
                #![trigger old_s[k]]
                0 <= k < old_s.len() && old_s[k].released implies exists|j: int|
                    #![trigger self.secrets@[j]]
                    0 <= j < self.secrets@.len() && self.secrets@[j].id@ == old_s[k].id@
                        && self.secrets@[j].released by {
                assert(k != p);
                let j = if k < p { k } else { k - 1 };
                assert(self.secrets@[j] == old_s[k]);
            }
        }
        Ok(())
    }

    /// The ids of the secrets that `testator` owns, each once.
    pub fn get_current_secret_ids_for_testator(&self, testator: Address) -> (r: Vec<String>)
        requires
            self.wf(),
        ensures
            forall|s: Seq<char>| #![trigger lists(r@, s)] lists(r@, s) <==> owns(self.secrets@, testator, s),
            strings_distinct(r@),
            views(r@) == ids_linked(self.testator_index@, testator),
    {
        ids_for(&self.testator_index, testator)
    }

    /// The ids of the secrets that have `beneficiary` on their whitelist, each once.
    pub fn list_secrets_for_beneficiary(&self, beneficiary: Address) -> (r: Vec<String>)
        requires
            self.wf(),
        ensures
            forall|s: Seq<char>|
                #![trigger lists(r@, s)]
                lists(r@, s) <==> listed(self.secrets@, beneficiary, s),
            strings_distinct(r@),
            views(r@) == ids_linked(self.beneficiary_index@, beneficiary),
    {
        ids_for(&self.beneficiary_index, beneficiary)
    }

    /// Puts `rec` back at position `i`, in place of the record taken out there.
    fn put_back(&mut self, i: usize, rec: SecretInfo)
        requires
            i <= old(self).secrets@.len(),
        ensures
            final(self).secrets@ == old(self).secrets@.insert(i as int, rec),
            final(self).testator_index == old(self).testator_index,
            final(self).beneficiary_index == old(self).beneficiary_index,
            final(self).policy == old(self).policy,
    {
        self.secrets.insert(i, rec);
    }

    /// Adds `beneficiary` to the whitelist of the secret `id` of `testator`;
    /// one already on it stays there once.
    pub fn add_beneficiary(&mut self, testator: Address, id: String, beneficiary: Address) -> (r:
        Result<(), SecretError>)
        requires
            old(self).wf(),
        ensures
            final(self).wf(),
            beneficiary_added(*old(self), *final(self), testator, id@, beneficiary, r),
            released_kept(old(self).secrets@, final(self).secrets@),
    {
        let i = match self.check_owner(testator, &id) {
            Ok(i) => i,
            Err(e) => return Err(e),
        };
        let ghost old_s = self.secrets@;
        let ghost old_b = self.beneficiary_index@;
        if contains_address(&self.secrets[i].whitelist, beneficiary) {
            return Ok(());
        }
        let mut rec = self.secrets.remove(i);
        proof { lemma_added_props(rec.whitelist@, beneficiary); }
        rec.whitelist.push(beneficiary);
        self.put_back(i, rec);
        let entry = IndexEntry { addr: beneficiary, secret_id: id.clone() };
        self.beneficiary_index.push(entry);
        proof {
            let p = i as int;
            assert(self.beneficiary_index@.drop_last() =~= old_b);
            assert(self.secrets@ =~= old_s.update(p, rec));
            lemma_recs_update(old_s, p, rec, testator, id@);
            assert forall|a: Address, s: Seq<char>|
                #![trigger indexed(self.testator_index@, a, s)]
                #![trigger owns(self.secrets@, a, s)]
                indexed(self.testator_index@, a, s) <==> owns(self.secrets@, a, s) by {
                lemma_recs_update(old_s, p, rec, a, s);
            }
            assert forall|c: Address, s: Seq<char>|
                #![trigger indexed(self.beneficiary_index@, c, s)]
                #![trigger listed(self.secrets@, c, s)]
                indexed(self.beneficiary_index@, c, s) <==> listed(self.secrets@, c, s) by {
                lemma_recs_update(old_s, p, rec, c, s);
                lemma_indexed_push(old_b, entry, c, s);
                if s == id@ && old_s[p].whitelist@.contains(c) {
                    assert(listed(old_s, c, s));
                }
                if listed(old_s, c, s) && s == id@ {
                    let j = choose|j: int|
                        #![trigger old_s[j]]
                        0 <= j < old_s.len() && old_s[j].id@ == s && old_s[j].whitelist@.contains(c);
                    if j != p {
                        assert(old_s[j].id@ != old_s[p].id@);
                    }
                }
            }
            assert forall|k: int, l: int|
                #![trigger self.beneficiary_index@[k], self.beneficiary_index@[l]]
                0 <= k < l < self.beneficiary_index@.len() implies !(self.beneficiary_index@[k].addr
                    == self.beneficiary_index@[l].addr && self.beneficiary_index@[k].secret_id@
                    == self.beneficiary_index@[l].secret_id@) by {
                assert(self.beneficiary_index@[k] == old_b[k]);
                if l == old_b.len() {
                    if old_b[k].addr == beneficiary && old_b[k].secret_id@ == id@ {
                        assert(indexed(old_b, beneficiary, id@));
                        let j = choose|j: int|
                            #![trigger old_s[j]]
                            0 <= j < old_s.len() && old_s[j].id@ == id@
                                && old_s[j].whitelist@.contains(beneficiary);
                        if j != p {
                            assert(old_s[j].id@ != old_s[p].id@);
                        }
                    }
                } else {
                    assert(self.beneficiary_index@[l] == old_b[l]);
                }
            }
            assert forall|j: int|
                #![trigger self.secrets@[j]]
                0 <= j < self.secrets@.len() implies self.secrets@[j].wf() by {
                if j != p {
                    assert(self.secrets@[j] == old_s[j]);
                } else {
                    assert forall|x: Address| #[trigger]
                        rec.release_votes@.contains(x) implies rec.whitelist@.contains(x) by {
                        assert(old_s[p].whitelist@.contains(x));
                    }
                }
            }
            assert forall|k: int|
                #![trigger old_s[k]]
                0 <= k < old_s.len() && old_s[k].released implies exists|j: int|
                    #![trigger self.secrets@[j]]
                    0 <= j < self.secrets@.len() && self.secrets@[j].id@ == old_s[k].id@
                        && self.secrets@[j].released by {
                assert(self.secrets@[k] == old_s[k]);
            }
        }
        Ok(())
    }

    /// Takes `beneficiary` off the whitelist of the secret `id` of `testator`,
    /// with the vote it cast; a no-op for one who is not on it.
    pub fn remove_beneficiary(&mut self, testator: Address, id: String, beneficiary: Address) -> (r:
        Result<(), SecretError>)
        requires
            old(self).wf(),
        ensures
            final(self).wf(),
            beneficiary_removed(*old(self), *final(self), testator, id@, beneficiary, r),
            released_kept(old(self).secrets@, final(self).secrets@),
    {
        let i = match self.check_owner(testator, &id) {
            Ok(i) => i,
            Err(e) => return Err(e),
        };
        let ghost old_s = self.secrets@;
        let ghost old_b = self.beneficiary_index@;
        let mut rec = self.secrets.remove(i);
        proof {
            assert(old_s[i as int].wf());
            lemma_removed_props(rec.whitelist@, beneficiary);
            lemma_removed_props(rec.release_votes@, beneficiary);
        }
        remove_address(&mut rec.whitelist, beneficiary);
        remove_address(&mut rec.release_votes, beneficiary);
        self.put_back(i, rec);
        self.beneficiary_index = without_entries(&self.beneficiary_index, &id, Some(beneficiary));
        proof {
            let p = i as int;
            assert(self.secrets@ =~= old_s.update(p, rec));
            lemma_recs_update(old_s, p, rec, testator, id@);
            assert forall|a: Address, s: Seq<char>|
                #![trigger indexed(self.testator_index@, a, s)]
                #![trigger owns(self.secrets@, a, s)]
                indexed(self.testator_index@, a, s) <==> owns(self.secrets@, a, s) by {
                lemma_recs_update(old_s, p, rec, a, s);
            }
            assert forall|c: Address, s: Seq<char>|
                #![trigger indexed(self.beneficiary_index@, c, s)]
                #![trigger listed(self.secrets@, c, s)]
                indexed(self.beneficiary_index@, c, s) <==> listed(self.secrets@, c, s) by {
                lemma_recs_update(old_s, p, rec, c, s);
                assert(indexed(old_b, c, s) <==> listed(old_s, c, s));
                if listed(old_s, c, s) && s == id@ {
                    let j = choose|j: int|
                        #![trigger old_s[j]]
                        0 <= j < old_s.len() && old_s[j].id@ == s && old_s[j].whitelist@.contains(c);
                    if j != p {
                        assert(old_s[j].id@ != old_s[p].id@);
                    }
                }
                if s == id@ && old_s[p].whitelist@.contains(c) {
                    assert(listed(old_s, c, s));
                }
            }
            assert forall|j: int|
                #![trigger self.secrets@[j]]
                0 <= j < self.secrets@.len() && j != p implies self.secrets@[j].wf() by {
                assert(self.secrets@[j] == old_s[j]);
            }
            assert forall|x: Address| #[trigger]
                rec.release_votes@.contains(x) implies rec.whitelist@.contains(x) by {
                assert(old_s[p].release_votes@.contains(x));
            }
            assert(self.secrets@[p] == rec);
            assert forall|k: int|
                #![trigger old_s[k]]
                0 <= k < old_s.len() && old_s[k].released implies exists|j: int|
                    #![trigger self.secrets@[j]]
                    0 <= j < self.secrets@.len() && self.secrets@[j].id@ == old_s[k].id@
                        && self.secrets@[j].released by {
                assert(self.secrets@[k] == old_s[k] || (k == p && self.secrets@[k].id@ == old_s[k].id@ && self.secrets@[k].released));
            }
        }
        Ok(())
    }

    /// Replaces the content of the secret `id` of `testator`.
    pub fn update_content(&mut self, testator: Address, id: String, content: String) -> (r: Result<
        (),
        SecretError,
    >)
        requires
            old(self).wf(),
        ensures
            final(self).wf(),
            content_updated(*old(self), *final(self), testator, id@, content@, r),
            released_kept(old(self).secrets@, final(self).secrets@),
    {
        let i = match self.check_owner(testator, &id) {
            Ok(i) => i,
            Err(e) => return Err(e),
        };
        let ghost old_c = *self;
        let ghost old_s = self.secrets@;
        let mut rec = self.secrets.remove(i);
        rec.content = content;
        self.put_back(i, rec);
        proof {
            let p = i as int;
            assert(old_s[p].wf());
            assert(self.secrets@ =~= old_s.update(p, rec));
            lemma_recs_update(old_s, p, rec, testator, id@);
            lemma_rewrite_keeps_wf(old_c, *self, p, rec);
        }
        Ok(())
    }

    /// The checks of `vote_refusal`, made; the position of the secret where they pass.
    fn check_voter(&self, beneficiary: Address, id: &String) -> (r: Result<usize, SecretError>)
        requires
            ids_distinct(self.secrets@),
        ensures
            match r {
                Ok(i) => vote_refusal(*self, beneficiary, id@) is None && i == pos_of(
                    self.secrets@,
                    id@,
                ) && i < self.secrets@.len(),
                Err(e) => vote_refusal(*self, beneficiary, id@) == Some(e),
            },
    {
        match self.find(id) {
            None => Err(SecretError::NotFound),
            Some(i) => {
                if !contains_address(&self.secrets[i].whitelist, beneficiary) {
                    Err(SecretError::NotWhitelisted)
                } else if self.secrets[i].released {
                    Err(SecretError::AlreadyReleased)
                } else {
                    Ok(i)
                }
            },
        }
    }

    /// Records the vote of `beneficiary` on the secret `id`: `true` to release
    /// it, `false` to take a vote back. The secret is released within the
    /// same call once the votes reach the quorum.
    pub fn cast_release_vote(&mut self, beneficiary: Address, id: String, value: bool) -> (r: Result<
        (),
        SecretError,
    >)
        requires
            old(self).wf(),
        ensures
            final(self).wf(),
            vote_cast(*old(self), *final(self), beneficiary, id@, value, r),
            released_kept(old(self).secrets@, final(self).secrets@),
    {
        let i = match self.check_voter(beneficiary, &id) {
            Ok(i) => i,
            Err(e) => return Err(e),
        };
        let ghost old_c = *self;
        let ghost old_s = self.secrets@;
        let mut rec = self.secrets.remove(i);
        proof {
            assert(old_s[i as int].wf());
            lemma_removed_props(rec.release_votes@, beneficiary);
            lemma_added_props(rec.release_votes@, beneficiary);
        }
        if value {
            add_address(&mut rec.release_votes, beneficiary);
        } else {
            remove_address(&mut rec.release_votes, beneficiary);
        }
        rec.released = self.policy.is_reached(rec.release_votes.len(), rec.whitelist.len());
        self.put_back(i, rec);
        proof {
            let p = i as int;
            assert(self.secrets@ =~= old_s.update(p, rec));
            lemma_recs_update(old_s, p, rec, beneficiary, id@);
            assert forall|x: Address| #[trigger]
                rec.release_votes@.contains(x) implies rec.whitelist@.contains(x) by {
                if x != beneficiary {
                    assert(old_s[p].release_votes@.contains(x));
                }
            }
            lemma_rewrite_keeps_wf(old_c, *self, p, rec);
        }
        Ok(())
    }

    /// The record of the secret `id`.
    pub fn get(&self, id: &String) -> (r: Result<&SecretInfo, SecretError>)
        requires
            self.wf(),
        ensures
            match r {
                Ok(rec) => has_id(self.secrets@, id@) && *rec == self.secrets@[pos_of(
                    self.secrets@,
                    id@,
                )],
                Err(e) => !has_id(self.secrets@, id@) && e == SecretError::NotFound,
            },
    {
        match self.find(id) {
            Some(i) => Ok(&self.secrets[i]),
            None => Err(SecretError::NotFound),
        }
    }

    /// Whether the secret `id` is released, or its current votes reach the
    /// quorum of its current whitelist; nothing changes.
    pub fn can_release(&self, id: &String) -> (r: Result<bool, SecretError>)
        requires
            self.wf(),
        ensures
            match r {
                Ok(b) => has_id(self.secrets@, id@) && b == ({
                    let rec = self.secrets@[pos_of(self.secrets@, id@)];
                    rec.released || quorum_reached(
                        self.policy,
                        rec.release_votes@.len(),
                        rec.whitelist@.len(),
                    )
                }),
                Err(e) => !has_id(self.secrets@, id@) && e == SecretError::NotFound,
            },
    {
        match self.find(id) {
            Some(i) => {
                let rec = &self.secrets[i];
                Ok(rec.released || self.policy.is_reached(
                    rec.release_votes.len(),
                    rec.whitelist.len(),
                ))
            },
            None => Err(SecretError::NotFound),
        }
    }

    /// The content of the secret `id`, for its owner at any time, and for a
    /// beneficiary on its whitelist once it is released.
    pub fn read_secret_content(&self, caller: Address, id: &String) -> (r: Result<
        String,
        SecretError,
    >)
        requires
            self.wf(),
        ensures
            !has_id(self.secrets@, id@) ==> r == Err::<String, SecretError>(SecretError::NotFound),
            has_id(self.secrets@, id@) ==> ({
                let rec = self.secrets@[pos_of(self.secrets@, id@)];
                if rec.owner == caller || (rec.released && rec.whitelist@.contains(caller)) {
                    r is Ok && r->Ok_0@ == rec.content@
                } else {
                    r == Err::<String, SecretError>(SecretError::Unauthorized)
                }
            }),
    {
        match self.find(id) {
            Some(i) => {
                let rec = &self.secrets[i];
                if rec.owner == caller || (rec.released && contains_address(
                    &rec.whitelist,
                    caller,
                )) {
                    Ok(rec.content.clone())
                } else {
                    Err(SecretError::Unauthorized)
                }
            },
            None => Err(SecretError::NotFound),
        }
    }
}

} // verus!
