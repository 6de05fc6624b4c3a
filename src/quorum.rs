use vstd::prelude::*;

verus! {

/// The release threshold, as a fraction of the whitelist: a secret is
/// released once `votes * denominator > whitelist_len * numerator`.
/// Strict majority is `1 / 2`.
#[derive(Clone, Copy, Debug, PartialEq, Eq, Structural)]
pub struct QuorumPolicy {
    pub numerator: u64,
    pub denominator: u64,
}

pub open spec fn quorum_reached(p: QuorumPolicy, votes: nat, members: nat) -> bool {
    votes * p.denominator > members * p.numerator
}

proof fn lemma_product_fits(a: nat, b: nat)
    requires
        a <= u64::MAX,
        b <= u64::MAX,
    ensures
        a * b <= u128::MAX,
{
    assert(a * b <= u64::MAX as nat * u64::MAX as nat) by (nonlinear_arith)
        requires
            a <= u64::MAX,
            b <= u64::MAX,
    ;
}

impl QuorumPolicy {
    /// More than half of the whitelist.
    pub fn strict_majority() -> (r: QuorumPolicy)
        ensures
            r.numerator == 1,
            r.denominator == 2,
    {
        QuorumPolicy { numerator: 1, denominator: 2 }
    }

    pub fn is_reached(&self, votes: usize, members: usize) -> (r: bool)
        ensures
            r == quorum_reached(*self, votes as nat, members as nat),
    {
        proof {
            lemma_product_fits(votes as nat, self.denominator as nat);
            lemma_product_fits(members as nat, self.numerator as nat);
        }
        let lhs: u128 = (votes as u128) * (self.denominator as u128);
        let rhs: u128 = (members as u128) * (self.numerator as u128);
        lhs > rhs
    }
}

} // verus!
