use vstd::prelude::*;

verus! {

/// One secret held in escrow.
///
/// `release_votes` holds the beneficiaries who have voted to release it; a
/// beneficiary who has not voted, or who withdrew the vote, is absent.
pub struct SecretInfo {
    pub id: String,
    pub owner: crate::address::Address,
    pub name: String,
    pub content: String,
    pub whitelist: Vec<crate::address::Address>,
    pub release_votes: Vec<crate::address::Address>,
    pub released: bool,
}

/// `s` with the first occurrence of `a` taken out; `s` itself if `a` is absent.
pub open spec fn removed(s: Seq<crate::address::Address>, a: crate::address::Address) -> Seq<
    crate::address::Address,
> {
    if s.contains(a) {
        s.remove(s.index_of(a))
    } else {
        s
    }
}

/// `s` with `a` appended, unless it is there already.
pub open spec fn added(s: Seq<crate::address::Address>, a: crate::address::Address) -> Seq<
    crate::address::Address,
> {
    if s.contains(a) {
        s
    } else {
        s.push(a)
    }
}

impl SecretInfo {
    /// The record is well formed: a non-empty name, no beneficiary listed
    /// twice, and votes only from beneficiaries on the whitelist.
    pub open spec fn wf(&self) -> bool {
        &&& self.name@.len() > 0
        &&& self.whitelist@.no_duplicates()
        &&& self.release_votes@.no_duplicates()
        &&& forall|a: crate::address::Address| #[trigger]
            self.release_votes@.contains(a) ==> self.whitelist@.contains(a)
    }
}

pub fn contains_address(v: &Vec<crate::address::Address>, a: crate::address::Address) -> (r: bool)
    ensures
        r == v@.contains(a),
{
    let mut i: usize = 0;
    while i < v.len()
        invariant
            0 <= i <= v.len(),
            forall|k: int| 0 <= k < i ==> v@[k] != a,
        decreases v.len() - i,
    {
        if v[i] == a {
            return true;
        }
        i += 1;
    }
    false
}

pub proof fn lemma_removed_props(s: Seq<crate::address::Address>, a: crate::address::Address)
    requires
        s.no_duplicates(),
    ensures
        removed(s, a).no_duplicates(),
        forall|x: crate::address::Address| #[trigger]
            removed(s, a).contains(x) <==> (s.contains(x) && x != a),
        s.contains(a) ==> removed(s, a).len() + 1 == s.len(),
        !s.contains(a) ==> removed(s, a) == s,
{
    if s.contains(a) {
        let k = s.index_of(a);
        let r = s.remove(k);
        assert forall|i: int, j: int| 0 <= i < j < r.len() implies r[i] != r[j] by {
            let i2 = if i < k { i } else { i + 1 };
            let j2 = if j < k { j } else { j + 1 };
            assert(r[i] == s[i2] && r[j] == s[j2]);
        }
        assert forall|x: crate::address::Address| #[trigger]
            r.contains(x) <==> (s.contains(x) && x != a) by {
            if r.contains(x) {
                let i = choose|i: int| 0 <= i < r.len() && r[i] == x;
                let i2 = if i < k { i } else { i + 1 };
                assert(s[i2] == x);
                assert(i2 != k);
            }
            if s.contains(x) && x != a {
                let i = choose|i: int| 0 <= i < s.len() && s[i] == x;
                assert(i != k);
                let i1 = if i < k { i } else { i - 1 };
                assert(r[i1] == x);
            }
        }
    }
}

pub proof fn lemma_added_props(s: Seq<crate::address::Address>, a: crate::address::Address)
    requires
        s.no_duplicates(),
    ensures
        added(s, a).no_duplicates(),
        forall|x: crate::address::Address| #[trigger]
            added(s, a).contains(x) <==> (s.contains(x) || x == a),
{
    if !s.contains(a) {
        let r = s.push(a);
        assert forall|i: int, j: int| 0 <= i < j < r.len() implies r[i] != r[j] by {
            if j == s.len() {
                assert(r[i] == s[i]);
            }
        }
        assert forall|x: crate::address::Address| #[trigger]
            r.contains(x) <==> (s.contains(x) || x == a) by {
            if r.contains(x) && x != a {
                let i = choose|i: int| 0 <= i < r.len() && r[i] == x;
                assert(s[i] == x);
            }
            if s.contains(x) {
                let i = choose|i: int| 0 <= i < s.len() && s[i] == x;
                assert(r[i] == x);
            }
            assert(r[s.len() as int] == a);
        }
    }
}

/// Takes `a` out of `v`, where `v` lists each address at most once.
pub fn remove_address(v: &mut Vec<crate::address::Address>, a: crate::address::Address)
    requires
        old(v)@.no_duplicates(),
    ensures
        final(v)@ == removed(old(v)@, a),
{
    let mut i: usize = 0;
    while i < v.len()
        invariant
            0 <= i <= v.len(),
            v@ == old(v)@,
            v@.no_duplicates(),
            forall|k: int| 0 <= k < i ==> v@[k] != a,
        decreases v.len() - i,
    {
        if v[i] == a {
            proof {
                let k = v@.index_of(a);
                assert(v@.contains(a));
                assert(v@[k] == a);
                assert(v@.no_duplicates());
                assert(v@[i as int] == a);
                assert(k == i as int);
            }
            v.remove(i);
            return;
        }
        i += 1;
    }
    assert(!v@.contains(a));
}

/// Appends `a` to `v` unless it is there already.
pub fn add_address(v: &mut Vec<crate::address::Address>, a: crate::address::Address)
    ensures
        final(v)@ == added(old(v)@, a),
{
    if !contains_address(v, a) {
        v.push(a);
    }
}

} // verus!
