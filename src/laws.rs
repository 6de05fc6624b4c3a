//! What holds of the store across operations: the indices agree with the
//! records, release is never undone, whitelisting is idempotent, and a new
//! secret reads back as it was given.
use vstd::prelude::*;

use crate::address::Address;
use crate::contract::{
    beneficiary_added, has_id, listed, owner_refusal, owns, pos_of, released_kept, secret_added,
    Contract,
};
use crate::error::SecretError;
use crate::index::indexed;
use crate::secret::{added, lemma_added_props, SecretInfo};

verus! {

/// In a well-formed store the index by testator links `a` to `id` exactly
/// when the secret `id` exists and `a` owns it.
pub proof fn lemma_testator_index_exact(c: Contract, a: Address, id: Seq<char>)
    requires
        c.wf(),
    ensures
        indexed(c.testator_index@, a, id) <==> (has_id(c.secrets@, id) && c.secrets@[pos_of(
            c.secrets@,
            id,
        )].owner == a),
{
    let recs = c.secrets@;
    assert(indexed(c.testator_index@, a, id) <==> owns(recs, a, id));
    if owns(recs, a, id) {
        let i = choose|i: int| #![trigger recs[i]] 0 <= i < recs.len() && recs[i].owner == a && recs[i].id@ == id;
        assert(has_id(recs, id));
        let p = pos_of(recs, id);
        if p != i {
            assert(recs[p].id@ != recs[i].id@);
        }
    }
    if has_id(recs, id) && recs[pos_of(recs, id)].owner == a {
        let p = pos_of(recs, id);
        assert(recs[p].owner == a && recs[p].id@ == id);
    }
}

/// In a well-formed store the index by beneficiary links `b` to `id` exactly
/// when the secret `id` exists and has `b` on its whitelist.
pub proof fn lemma_beneficiary_index_exact(c: Contract, b: Address, id: Seq<char>)
    requires
        c.wf(),
    ensures
        indexed(c.beneficiary_index@, b, id) <==> (has_id(c.secrets@, id) && c.secrets@[pos_of(
            c.secrets@,
            id,
        )].whitelist@.contains(b)),
{
    let recs = c.secrets@;
    assert(indexed(c.beneficiary_index@, b, id) <==> listed(recs, b, id));
    if listed(recs, b, id) {
        let i = choose|i: int|
            #![trigger recs[i]]
            0 <= i < recs.len() && recs[i].id@ == id && recs[i].whitelist@.contains(b);
        assert(has_id(recs, id));
        let p = pos_of(recs, id);
        if p != i {
            assert(recs[p].id@ != recs[i].id@);
        }
    }
    if has_id(recs, id) && recs[pos_of(recs, id)].whitelist@.contains(b) {
        let p = pos_of(recs, id);
        assert(recs[p].id@ == id && recs[p].whitelist@.contains(b));
    }
}

/// Release is kept along any run of operations: what two steps each keep
/// released, the two steps together keep released.
pub proof fn lemma_released_kept_chain(s0: Seq<SecretInfo>, s1: Seq<SecretInfo>, s2: Seq<SecretInfo>)
    requires
        released_kept(s0, s1),
        released_kept(s1, s2),
    ensures
        released_kept(s0, s2),
{
    assert forall|i: int|
        #![trigger s0[i]]
        0 <= i < s0.len() && s0[i].released implies exists|j: int|
            #![trigger s2[j]]
            0 <= j < s2.len() && s2[j].id@ == s0[i].id@ && s2[j].released by {
        let k = choose|k: int| #![trigger s1[k]] 0 <= k < s1.len() && s1[k].id@ == s0[i].id@ && s1[k].released;
        let j = choose|j: int| #![trigger s2[j]] 0 <= j < s2.len() && s2[j].id@ == s1[k].id@ && s2[j].released;
    }
}

/// Adding the same beneficiary to the same secret a second time gives the
/// same result and leaves every whitelist as the first call left it.
pub proof fn lemma_add_beneficiary_idempotent(
    c0: Contract,
    c1: Contract,
    c2: Contract,
    testator: Address,
    id: Seq<char>,
    b: Address,
    r1: Result<(), SecretError>,
    r2: Result<(), SecretError>,
)
    requires
        c0.wf(),
        c1.wf(),
        beneficiary_added(c0, c1, testator, id, b, r1),
        beneficiary_added(c1, c2, testator, id, b, r2),
    ensures
        r2 == r1,
        c2.secrets@.len() == c1.secrets@.len(),
        forall|i: int|
            #![trigger c2.secrets@[i]]
            0 <= i < c1.secrets@.len() ==> c2.secrets@[i].whitelist@ == c1.secrets@[i].whitelist@,
{
    if owner_refusal(c0, testator, id) is None {
        let p = pos_of(c0.secrets@, id);
        let rec = c1.secrets@[p];
        assert(has_id(c0.secrets@, id));
        assert(c1.secrets@[p].id@ == id);
        assert(has_id(c1.secrets@, id));
        let q = pos_of(c1.secrets@, id);
        if q != p {
            assert(c1.secrets@[q].id@ != c1.secrets@[p].id@);
        }
        assert(c1.secrets@[p].owner == c0.secrets@[p].owner);
        lemma_added_props(c0.secrets@[p].whitelist@, b);
        assert(rec.whitelist@.contains(b));
        assert(added(rec.whitelist@, b) == rec.whitelist@);
        assert forall|i: int|
            #![trigger c2.secrets@[i]]
            0 <= i < c1.secrets@.len() implies c2.secrets@[i].whitelist@
                == c1.secrets@[i].whitelist@ by {
            if i != p {
                assert(c2.secrets@[i] == c1.secrets@[i]);
            }
        }
    }
}

/// A secret just added is found under its id with the name and content it
/// was given, its testator as owner, an empty whitelist, no votes, and not
/// released.
pub proof fn lemma_added_secret_read_back(
    c0: Contract,
    c1: Contract,
    testator: Address,
    name: Seq<char>,
    content: Seq<char>,
    id: Seq<char>,
)
    requires
        c0.wf(),
        c1.wf(),
        secret_added(c0, c1, testator, name, content, id, Ok(())),
    ensures
        has_id(c1.secrets@, id),
        ({
            let rec = c1.secrets@[pos_of(c1.secrets@, id)];
            &&& rec.owner == testator
            &&& rec.name@ == name
            &&& rec.content@ == content
            &&& rec.whitelist@ == Seq::<Address>::empty()
            &&& rec.release_votes@ == Seq::<Address>::empty()
            &&& !rec.released
        }),
{
    let n = c1.secrets@.len() - 1;
    assert(c1.secrets@[n].id@ == id);
    assert(has_id(c1.secrets@, id));
    let q = pos_of(c1.secrets@, id);
    if q != n {
        assert(c1.secrets@[q].id@ != c1.secrets@[n].id@);
    }
}

/// Release is never undone over a run of any length: where each step keeps
/// every released record released, so does the whole run.
pub proof fn lemma_released_kept_run(run: Seq<Seq<SecretInfo>>)
    requires
        run.len() > 0,
        forall|k: int|
            #![trigger run[k]]
            0 <= k < run.len() - 1 ==> released_kept(run[k], run[k + 1]),
    ensures
        released_kept(run[0], run.last()),
    decreases run.len(),
{
    if run.len() == 1 {
        let s0 = run[0];
        assert forall|i: int|
            #![trigger s0[i]]
            0 <= i < s0.len() && s0[i].released implies exists|j: int|
                #![trigger s0[j]]
                0 <= j < s0.len() && s0[j].id@ == s0[i].id@ && s0[j].released by {}
    } else {
        let prefix = run.drop_last();
        assert forall|k: int|
            #![trigger prefix[k]]
            0 <= k < prefix.len() - 1 implies released_kept(prefix[k], prefix[k + 1]) by {
            assert(prefix[k] == run[k] && prefix[k + 1] == run[k + 1]);
        }
        lemma_released_kept_run(prefix);
        let m = run.len() - 2;
        assert(released_kept(run[m], run[m + 1]));
        lemma_released_kept_chain(run[0], run[m], run.last());
    }
}

} // verus!
