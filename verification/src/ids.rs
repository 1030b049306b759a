//! Port ids in ascending order: the order in which the switch serves its
//! inputs, so that the lowest id wins a contended output.

use vstd::prelude::*;

verus! {

/// Each id is smaller than the one after it.
pub open spec fn ascending(ids: Seq<usize>) -> bool {
    forall|i: int, j: int| 0 <= i < j < ids.len() ==> ids[i] < ids[j]
}

/// `ids` is the ascending listing of `set`: its members, each once, smallest
/// first.
pub open spec fn lists(ids: Seq<usize>, set: Set<usize>) -> bool {
    ascending(ids) && ids.to_set() == set
}

/// A set has one ascending listing at most.
pub proof fn lemma_listing_is_unique(a: Seq<usize>, b: Seq<usize>)
    requires
        ascending(a),
        ascending(b),
        a.to_set() == b.to_set(),
    ensures
        a == b,
    decreases a.len(),
{
    if a.len() == 0 {
        if b.len() > 0 {
            assert(b.to_set().contains(b[0]));
            assert(a.contains(b[0]));
        }
        assert(a =~= b);
    } else {
        let top = a.last();
        assert(a.to_set().contains(top));
        assert(b.contains(top));
        let k = choose|k: int| 0 <= k < b.len() && b[k] == top;
        if k < b.len() - 1 {
            let more = b.last();
            assert(b.to_set().contains(more));
            assert(a.contains(more));
            let j = choose|j: int| 0 <= j < a.len() && a[j] == more;
            assert(a[j] <= top);
        }
        assert(b.last() == top);
        assert forall|x: usize| a.drop_last().to_set().contains(x) == b.drop_last().to_set().contains(
            x,
        ) by {
            if a.drop_last().contains(x) {
                let i = choose|i: int| 0 <= i < a.drop_last().len() && a.drop_last()[i] == x;
                assert(a[i] == x);
                assert(a.to_set().contains(x));
                assert(b.contains(x));
                let j = choose|j: int| 0 <= j < b.len() && b[j] == x;
                assert(x < top);
                assert(b.drop_last()[j] == x);
            }
            if b.drop_last().contains(x) {
                let i = choose|i: int| 0 <= i < b.drop_last().len() && b.drop_last()[i] == x;
                assert(b[i] == x);
                assert(b.to_set().contains(x));
                assert(a.contains(x));
                let j = choose|j: int| 0 <= j < a.len() && a[j] == x;
                assert(x < top);
                assert(a.drop_last()[j] == x);
            }
        }
        assert(a.drop_last().to_set() =~= b.drop_last().to_set());
        lemma_listing_is_unique(a.drop_last(), b.drop_last());
        assert(a =~= a.drop_last().push(top));
        assert(b =~= b.drop_last().push(top));
    }
}

/// Puts `id` in its place in an ascending listing.
pub fn insert_ascending(ids: &mut Vec<usize>, id: usize)
    requires
        ascending(old(ids)@),
        !old(ids)@.contains(id),
    ensures
        lists(final(ids)@, old(ids)@.to_set().insert(id)),
{
    let mut at: usize = 0;
    while at < ids.len() && ids[at] < id
        invariant
            at <= ids.len(),
            ids@ == old(ids)@,
            forall|i: int| 0 <= i < at ==> ids@[i] < id,
        decreases ids.len() - at,
    {
        at += 1;
    }
    proof {
        if at < ids.len() {
            assert(ids@[at as int] != id) by {
                assert(ids@.contains(ids@[at as int]));
            }
        }
    }
    ids.insert(at, id);
    proof {
        let before = old(ids)@;
        let after = ids@;
        assert(after == before.insert(at as int, id));
        assert forall|i: int, j: int| 0 <= i < j < after.len() implies after[i] < after[j] by {
            if j < at {
                assert(after[i] == before[i] && after[j] == before[j]);
            } else if j == at {
                assert(after[i] == before[i]);
            } else if i < at {
                assert(after[i] == before[i] && after[j] == before[j - 1]);
                assert(before[at as int] <= before[j - 1]);
            } else if i == at {
                assert(after[j] == before[j - 1]);
                assert(before[at as int] <= before[j - 1]);
            } else {
                assert(after[i] == before[i - 1] && after[j] == before[j - 1]);
            }
        }
        assert forall|x: usize| after.to_set().contains(x) == before.to_set().insert(id).contains(
            x,
        ) by {
            if after.contains(x) {
                let i = choose|i: int| 0 <= i < after.len() && after[i] == x;
                if i < at {
                    assert(before[i] == x);
                    assert(before.contains(x));
                } else if i > at {
                    assert(before[i - 1] == x);
                    assert(before.contains(x));
                }
            }
            if before.contains(x) {
                let i = choose|i: int| 0 <= i < before.len() && before[i] == x;
                if i < at {
                    assert(after[i] == x);
                } else {
                    assert(after[i + 1] == x);
                }
                assert(after.contains(x));
            }
            if x == id {
                assert(after[at as int] == x);
                assert(after.contains(x));
            }
        }
        assert(after.to_set() =~= before.to_set().insert(id));
    }
}

/// The ascending listing of ids that are given in any order.
pub fn sort_ascending(ids: &Vec<usize>) -> (sorted: Vec<usize>)
    requires
        ids@.no_duplicates(),
    ensures
        lists(sorted@, ids@.to_set()),
{
    let mut sorted: Vec<usize> = Vec::new();
    let mut done: usize = 0;
    assert(sorted@.to_set() =~= ids@.take(0).to_set());
    while done < ids.len()
        invariant
            done <= ids.len(),
            ids@.no_duplicates(),
            lists(sorted@, ids@.take(done as int).to_set()),
        decreases ids.len() - done,
    {
        let id = ids[done];
        proof {
            if sorted@.contains(id) {
                assert(sorted@.to_set().contains(id));
                assert(ids@.take(done as int).contains(id));
                let k = choose|k: int|
                    0 <= k < ids@.take(done as int).len() && ids@.take(done as int)[k] == id;
                assert(ids@[k] == ids@[done as int]);
            }
        }
        insert_ascending(&mut sorted, id);
        proof {
            assert(ids@.take(done + 1) =~= ids@.take(done as int).push(id));
            assert(ids@.take(done as int).push(id).to_set() =~= ids@.take(done as int).to_set().insert(
                id,
            )) by {
                let s = ids@.take(done as int);
                assert forall|x: usize| s.push(id).to_set().contains(x) == s.to_set().insert(
                    id,
                ).contains(x) by {
                    if s.push(id).contains(x) {
                        let i = choose|i: int| 0 <= i < s.push(id).len() && s.push(id)[i] == x;
                        if i < s.len() {
                            assert(s[i] == x);
                            assert(s.contains(x));
                        }
                    }
                    if s.contains(x) {
                        let i = choose|i: int| 0 <= i < s.len() && s[i] == x;
                        assert(s.push(id)[i] == x);
                        assert(s.push(id).contains(x));
                    }
                    if x == id {
                        assert(s.push(id)[s.len() as int] == x);
                        assert(s.push(id).contains(x));
                    }
                }
            }
        }
        done += 1;
    }
    assert(ids@.take(ids.len() as int) =~= ids@);
    sorted
}

} // verus!
