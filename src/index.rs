//! The two indices of the store: lists of links from an identity (a
//! testator, or a beneficiary) to the id of a secret.
use vstd::prelude::*;

use crate::address::Address;

verus! {

/// One line of an index: the identity `addr` is linked to the secret `secret_id`.
pub struct IndexEntry {
    pub addr: Address,
    pub secret_id: String,
}

/// The index links `a` to the secret `id`.
pub open spec fn indexed(idx: Seq<IndexEntry>, a: Address, id: Seq<char>) -> bool {
    exists|k: int| #![trigger idx[k]] 0 <= k < idx.len() && idx[k].addr == a && idx[k].secret_id@ == id
}

/// No link is listed twice.
pub open spec fn entries_distinct(idx: Seq<IndexEntry>) -> bool {
    forall|k: int, l: int|
        #![trigger idx[k], idx[l]]
        0 <= k < l < idx.len() ==> !(idx[k].addr == idx[l].addr && idx[k].secret_id@
            == idx[l].secret_id@)
}

/// The list of ids `v` holds `id`.
pub open spec fn lists(v: Seq<String>, id: Seq<char>) -> bool {
    exists|k: int| #![trigger v[k]] 0 <= k < v.len() && v[k]@ == id
}

/// No id is listed twice in `v`.
pub open spec fn strings_distinct(v: Seq<String>) -> bool {
    forall|k: int, l: int| #![trigger v[k], v[l]] 0 <= k < l < v.len() ==> v[k]@ != v[l]@
}

/// Whether a filter on an index drops the link from `a` to `s`: every link to
/// the secret `id`, or only the one from `only` where that is given.
pub open spec fn drops(only: Option<Address>, id: Seq<char>, a: Address, s: Seq<char>) -> bool {
    s == id && match only {
        Some(b) => a == b,
        None => true,
    }
}

/// The test that picks the links from `a`.
pub open spec fn from_addr(a: Address) -> spec_fn(IndexEntry) -> bool {
    |e: IndexEntry| e.addr == a
}

/// The secret id of a link.
pub open spec fn link_id() -> spec_fn(IndexEntry) -> Seq<char> {
    |e: IndexEntry| e.secret_id@
}

/// The text of each string of `v`, in order.
pub open spec fn views(v: Seq<String>) -> Seq<Seq<char>> {
    v.map_values(|x: String| x@)
}

/// The ids that `idx` links to `a`, in index order.
pub open spec fn ids_linked(idx: Seq<IndexEntry>, a: Address) -> Seq<Seq<char>> {
    idx.filter(from_addr(a)).map_values(link_id())
}

pub proof fn lemma_indexed_push(idx: Seq<IndexEntry>, e: IndexEntry, a: Address, s: Seq<char>)
    ensures
        indexed(idx.push(e), a, s) <==> (indexed(idx, a, s) || (e.addr == a && e.secret_id@ == s)),
{
    let n = idx.push(e);
    if indexed(n, a, s) {
        let k = choose|k: int| #![trigger n[k]] 0 <= k < n.len() && n[k].addr == a && n[k].secret_id@ == s;
        if k < idx.len() {
            assert(idx[k] == n[k]);
        }
    }
    if indexed(idx, a, s) {
        let k = choose|k: int| #![trigger idx[k]] 0 <= k < idx.len() && idx[k].addr == a && idx[k].secret_id@ == s;
        assert(n[k] == idx[k]);
    }
    if e.addr == a && e.secret_id@ == s {
        assert(n[idx.len() as int] == e);
    }
}

/// A copy of `idx` without the links that `drops` names, in the same order.
pub fn without_entries(idx: &Vec<IndexEntry>, id: &String, only: Option<Address>) -> (out: Vec<
    IndexEntry,
>)
    ensures
        forall|a: Address, s: Seq<char>|
            #![trigger indexed(out@, a, s)]
            #![trigger indexed(idx@, a, s)]
            indexed(out@, a, s) <==> (indexed(idx@, a, s) && !drops(only, id@, a, s)),
        entries_distinct(idx@) ==> entries_distinct(out@),
{
    let mut out: Vec<IndexEntry> = Vec::new();
    let mut i: usize = 0;
    while i < idx.len()
        invariant
            0 <= i <= idx.len(),
            forall|k: int|
                #![trigger out@[k]]
                0 <= k < out.len() ==> !drops(only, id@, out@[k].addr, out@[k].secret_id@)
                    && exists|m: int| #![trigger idx@[m]] 0 <= m < i && out@[k] == idx@[m],
            forall|m: int|
                #![trigger idx@[m]]
                0 <= m < i && !drops(only, id@, idx@[m].addr, idx@[m].secret_id@) ==> exists|
                    k: int,
                | #![trigger out@[k]] 0 <= k < out.len() && out@[k] == idx@[m],
            entries_distinct(idx@) ==> entries_distinct(out@),
        decreases idx.len() - i,
    {
        let e = &idx[i];
        let keep = !(e.secret_id == *id && match only {
            Some(b) => e.addr == b,
            None => true,
        });
        if keep {
            let copy = IndexEntry { addr: e.addr, secret_id: e.secret_id.clone() };
            let ghost before = out@;
            out.push(copy);
            proof {
                assert(out@[out.len() - 1] == idx@[i as int]);
                assert forall|k: int| 0 <= k < before.len() implies out@[k] == before[k] by {}
                if entries_distinct(idx@) {
                    assert forall|k: int, l: int| 0 <= k < l < out.len() implies !(
                    out@[k].addr == out@[l].addr && out@[k].secret_id@ == out@[l].secret_id@) by {
                        if l == out.len() - 1 {
                            let m = choose|m: int| #![trigger idx@[m]] 0 <= m < i && before[k] == idx@[m];
                            assert(out@[k] == idx@[m]);
                        } else {
                            assert(out@[k] == before[k] && out@[l] == before[l]);
                        }
                    }
                }
                assert forall|m: int|
                    #![trigger idx@[m]]
                    0 <= m < i + 1 && !drops(only, id@, idx@[m].addr, idx@[m].secret_id@) implies exists|
                        k: int,
                    | #![trigger out@[k]] 0 <= k < out.len() && out@[k] == idx@[m] by {
                    if m < i {
                        let k = choose|k: int| #![trigger before[k]] 0 <= k < before.len() && before[k] == idx@[m];
                        assert(out@[k] == before[k]);
                    } else {
                        assert(out@[out.len() - 1] == idx@[m]);
                    }
                }
            }
        }
        i += 1;
    }
    proof {
        assert forall|a: Address, s: Seq<char>|
            #![trigger indexed(out@, a, s)]
            #![trigger indexed(idx@, a, s)]
            indexed(out@, a, s) <==> (indexed(idx@, a, s) && !drops(only, id@, a, s)) by {
            if indexed(out@, a, s) {
                let k = choose|k: int| #![trigger out@[k]] 0 <= k < out.len() && out@[k].addr == a && out@[k].secret_id@ == s;
                let m = choose|m: int| #![trigger idx@[m]] 0 <= m < i && out@[k] == idx@[m];
                assert(idx@[m].addr == a && idx@[m].secret_id@ == s);
            }
            if indexed(idx@, a, s) && !drops(only, id@, a, s) {
                let m = choose|m: int| #![trigger idx@[m]] 0 <= m < idx.len() && idx@[m].addr == a && idx@[m].secret_id@ == s;
                let k = choose|k: int| #![trigger out@[k]] 0 <= k < out.len() && out@[k] == idx@[m];
                assert(out@[k].addr == a && out@[k].secret_id@ == s);
            }
        }
    }
    out
}

/// Among the first `n` links of `idx`, one goes from `a` to `s`.
spec fn indexed_before(idx: Seq<IndexEntry>, a: Address, s: Seq<char>, n: int) -> bool {
    exists|m: int| #![trigger idx[m]] 0 <= m < n && idx[m].addr == a && idx[m].secret_id@ == s
}

/// The ids that `idx` links to `a`, in index order.
pub fn ids_for(idx: &Vec<IndexEntry>, a: Address) -> (out: Vec<String>)
    ensures
        forall|s: Seq<char>| #![trigger lists(out@, s)] lists(out@, s) <==> indexed(idx@, a, s),
        entries_distinct(idx@) ==> strings_distinct(out@),
        views(out@) == ids_linked(idx@, a),
{
    let mut out: Vec<String> = Vec::new();
    let mut i: usize = 0;
    proof {
        assert(idx@.subrange(0, 0).filter(from_addr(a)) =~= Seq::<IndexEntry>::empty()) by {
            reveal(Seq::filter);
        }
        assert(views(out@) =~= ids_linked(idx@.subrange(0, 0), a));
    }
    while i < idx.len()
        invariant
            0 <= i <= idx.len(),
            views(out@) == ids_linked(idx@.subrange(0, i as int), a),
            forall|k: int|
                #![trigger out@[k]]
                0 <= k < out.len() ==> indexed_before(idx@, a, out@[k]@, i as int),
            forall|s: Seq<char>|
                #![trigger indexed_before(idx@, a, s, i as int)]
                indexed_before(idx@, a, s, i as int) ==> lists(out@, s),
            entries_distinct(idx@) ==> strings_distinct(out@),
        decreases idx.len() - i,
    {
        let ghost before = out@;
        if idx[i].addr == a {
            let s = idx[i].secret_id.clone();
            out.push(s);
        }
        proof {
            let e = idx@[i as int];
            let sub = idx@.subrange(0, i as int);
            assert(idx@.subrange(0, i + 1) =~= sub.push(e));
            sub.lemma_filter_push(e, from_addr(a));
            if e.addr == a {
                assert(views(out@) =~= views(before).push(e.secret_id@));
                assert(sub.filter(from_addr(a)).push(e).map_values(link_id()) =~= sub.filter(
                    from_addr(a),
                ).map_values(link_id()).push(e.secret_id@));
            } else {
                assert(out@ == before);
            }
            assert forall|k: int| 0 <= k < before.len() implies out@[k] == before[k] by {}
            assert forall|k: int|
                #![trigger out@[k]]
                0 <= k < out.len() implies indexed_before(idx@, a, out@[k]@, i + 1) by {
                if k < before.len() {
                    let m = choose|m: int|
                        #![trigger idx@[m]]
                        0 <= m < i && idx@[m].addr == a && idx@[m].secret_id@ == before[k]@;
                    assert(idx@[m].addr == a && idx@[m].secret_id@ == out@[k]@);
                } else {
                    assert(idx@[i as int].addr == a && idx@[i as int].secret_id@ == out@[k]@);
                }
            }
            assert forall|s: Seq<char>|
                #![trigger indexed_before(idx@, a, s, i + 1)]
                indexed_before(idx@, a, s, i + 1) implies lists(out@, s) by {
                let m = choose|m: int|
                    #![trigger idx@[m]]
                    0 <= m < i + 1 && idx@[m].addr == a && idx@[m].secret_id@ == s;
                if m < i {
                    assert(indexed_before(idx@, a, s, i as int));
                    let k = choose|k: int| #![trigger before[k]] 0 <= k < before.len() && before[k]@ == s;
                    assert(out@[k] == before[k]);
                } else {
                    assert(out@[out.len() - 1]@ == s);
                }
            }
            if entries_distinct(idx@) && e.addr == a {
                assert forall|k: int, l: int| 0 <= k < l < out.len() implies out@[k]@ != out@[l]@ by {
                    if l == out.len() - 1 {
                        let m = choose|m: int|
                            #![trigger idx@[m]]
                            0 <= m < i && idx@[m].addr == a && idx@[m].secret_id@ == before[k]@;
                        assert(out@[k] == before[k]);
                        assert(!(idx@[m].addr == idx@[i as int].addr && idx@[m].secret_id@
                            == idx@[i as int].secret_id@));
                    } else {
                        assert(out@[k] == before[k] && out@[l] == before[l]);
                    }
                }
            }
        }
        i += 1;
    }
    proof {
        assert(idx@.subrange(0, idx@.len() as int) =~= idx@);
        assert forall|s: Seq<char>| #![trigger lists(out@, s)] lists(out@, s) <==> indexed(
            idx@,
            a,
            s,
        ) by {
            if lists(out@, s) {
                let k = choose|k: int| #![trigger out@[k]] 0 <= k < out.len() && out@[k]@ == s;
                assert(indexed_before(idx@, a, out@[k]@, i as int));
            }
            if indexed(idx@, a, s) {
                assert(indexed_before(idx@, a, s, i as int));
            }
        }
    }
    out
}

} // verus!
