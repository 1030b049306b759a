//! Contention for outputs within one pass of the switch.
//!
//! A pass starts with no output occupied. The ready inputs are served one
//! after the other. A packet claims its whole target set or nothing: if any of
//! its outputs is already occupied in this pass, the packet stays where it is
//! and waits for a later pass.

use crate::fx::{set_contains, set_insert, set_items};
use fxhash::FxHashSet;
use vstd::prelude::*;

verus! {

/// A packet for `targets` can be forwarded while `occupied` are taken: none
/// of its outputs is among them.
pub open spec fn admits(occupied: Set<usize>, targets: Set<usize>) -> bool {
    occupied.disjoint(targets)
}

/// The outputs that are taken once a packet for `targets` has been served:
/// all of its outputs besides the others if it was forwarded, and no more
/// than before if it was not.
pub open spec fn occupied_after(occupied: Set<usize>, targets: Set<usize>) -> Set<usize> {
    if admits(occupied, targets) {
        occupied.union(targets)
    } else {
        occupied
    }
}

/// The outputs that are taken once the packets with these target sets have
/// been served in this order, in a pass that began with none taken.
pub open spec fn claimed(targets: Seq<Set<usize>>) -> Set<usize>
    decreases targets.len(),
{
    if targets.len() == 0 {
        Set::empty()
    } else {
        occupied_after(claimed(targets.drop_last()), targets.last())
    }
}

/// Whether the packet served at `turn` in such a pass is forwarded.
pub open spec fn forwarded(targets: Seq<Set<usize>>, turn: int) -> bool {
    admits(claimed(targets.take(turn)), targets[turn])
}

/// Claims `targets` for one packet if all of them are free, and tells
/// whether it did.
pub fn claim(occupied: &mut FxHashSet<usize>, targets: &FxHashSet<usize>) -> (won: bool)
    ensures
        won == admits(old(occupied)@, targets@),
        final(occupied)@ == occupied_after(old(occupied)@, targets@),
{
    let wanted = set_items(targets);
    let mut at: usize = 0;
    while at < wanted.len()
        invariant
            at <= wanted.len(),
            occupied@ == old(occupied)@,
            wanted@.to_set() == targets@,
            forall|i: int| 0 <= i < at ==> !occupied@.contains(wanted@[i]),
        decreases wanted.len() - at,
    {
        if set_contains(occupied, wanted[at]) {
            proof {
                assert(wanted@.contains(wanted@[at as int]));
                assert(targets@.contains(wanted@[at as int]));
            }
            return false;
        }
        at += 1;
    }
    proof {
        assert forall|output: usize| occupied@.contains(output) implies !targets@.contains(
            output,
        ) by {
            if targets@.contains(output) {
                assert(wanted@.contains(output));
                let i = choose|i: int| 0 <= i < wanted@.len() && wanted@[i] == output;
                assert(!occupied@.contains(wanted@[i]));
            }
        }
        assert(occupied@.union(wanted@.take(0).to_set()) =~= occupied@);
    }
    at = 0;
    while at < wanted.len()
        invariant
            at <= wanted.len(),
            occupied@ == old(occupied)@.union(wanted@.take(at as int).to_set()),
        decreases wanted.len() - at,
    {
        set_insert(occupied, wanted[at]);
        proof {
            let done = wanted@.take(at as int);
            let more = wanted@.take(at + 1);
            assert(more =~= done.push(wanted@[at as int]));
            assert forall|output: usize| more.to_set().contains(output) == done.to_set().insert(
                wanted@[at as int],
            ).contains(output) by {
                if more.contains(output) {
                    let i = choose|i: int| 0 <= i < more.len() && more[i] == output;
                    if i < at {
                        assert(done[i] == output);
                        assert(done.contains(output));
                    }
                }
                if done.contains(output) {
                    let i = choose|i: int| 0 <= i < done.len() && done[i] == output;
                    assert(more[i] == output);
                    assert(more.contains(output));
                }
                if output == wanted@[at as int] {
                    assert(more[at as int] == output);
                    assert(more.contains(output));
                }
            }
            assert(occupied@ =~= old(occupied)@.union(more.to_set()));
        }
        at += 1;
    }
    proof {
        assert(wanted@.take(wanted.len() as int) =~= wanted@);
    }
    true
}

/// An output is taken in a pass exactly when it is a target of a packet that
/// was forwarded in it.
pub proof fn lemma_claimed_by_forwarded(targets: Seq<Set<usize>>, output: usize)
    ensures
        claimed(targets).contains(output) <==> exists|turn: int|
            0 <= turn < targets.len() && #[trigger] forwarded(targets, turn)
                && targets[turn].contains(output),
    decreases targets.len(),
{
    if targets.len() > 0 {
        let rest = targets.drop_last();
        let last = targets.len() - 1;
        lemma_claimed_by_forwarded(rest, output);
        assert(targets.take(last) =~= rest);
        assert forall|turn: int| 0 <= turn < rest.len() implies forwarded(rest, turn)
            == forwarded(targets, turn) by {
            assert(rest.take(turn) =~= targets.take(turn));
        }
        if claimed(targets).contains(output) {
            if claimed(rest).contains(output) {
                let turn = choose|turn: int|
                    0 <= turn < rest.len() && #[trigger] forwarded(rest, turn)
                        && rest[turn].contains(output);
                assert(forwarded(targets, turn) && targets[turn].contains(output));
            } else {
                assert(forwarded(targets, last) && targets[last].contains(output));
            }
        }
        if exists|turn: int|
            0 <= turn < targets.len() && #[trigger] forwarded(targets, turn)
                && targets[turn].contains(output) {
            let turn = choose|turn: int|
                0 <= turn < targets.len() && #[trigger] forwarded(targets, turn)
                    && targets[turn].contains(output);
            if turn < last {
                assert(forwarded(rest, turn) && rest[turn].contains(output));
            }
        }
    }
}

/// The packet served first in a pass is always forwarded: an input that is
/// served first cannot be held back.
pub proof fn lemma_first_is_forwarded(targets: Seq<Set<usize>>)
    requires
        targets.len() > 0,
    ensures
        forwarded(targets, 0),
{
    assert(targets.take(0) =~= Seq::<Set<usize>>::empty());
}

/// A packet is deferred only by contention: some packet that was forwarded
/// earlier in the same pass shares an output with it.
pub proof fn lemma_deferred_by_contention(targets: Seq<Set<usize>>, turn: int)
    requires
        0 <= turn < targets.len(),
        !forwarded(targets, turn),
    ensures
        exists|earlier: int|
            0 <= earlier < turn && #[trigger] forwarded(targets, earlier) && !targets[earlier].disjoint(
                targets[turn],
            ),
{
    let before = targets.take(turn);
    let output = choose|output: usize|
        claimed(before).contains(output) && targets[turn].contains(output);
    lemma_claimed_by_forwarded(before, output);
    let earlier = choose|earlier: int|
        0 <= earlier < before.len() && #[trigger] forwarded(before, earlier)
            && before[earlier].contains(output);
    assert(before.take(earlier) =~= targets.take(earlier));
    assert(forwarded(targets, earlier));
    assert(targets[earlier].contains(output) && targets[turn].contains(output));
}

/// No output receives two packets in one pass: the target sets of any two
/// packets that are forwarded in it are disjoint.
pub proof fn lemma_forwarded_are_disjoint(targets: Seq<Set<usize>>, first: int, second: int)
    requires
        0 <= first < second < targets.len(),
        forwarded(targets, first),
        forwarded(targets, second),
    ensures
        targets[first].disjoint(targets[second]),
{
    let before = targets.take(second);
    assert forall|output: usize| targets[first].contains(output) implies !targets[second].contains(
        output,
    ) by {
        lemma_claimed_by_forwarded(before, output);
        assert(before.take(first) =~= targets.take(first));
        assert(forwarded(before, first) && before[first].contains(output));
        assert(claimed(before).contains(output));
    }
}

/// Of two ready packets whose target sets share an output, exactly one is
/// forwarded in the pass, the one served first. The other is left in place;
/// served first in a later pass, it is forwarded there.
pub proof fn lemma_contention_forwards_one(first: Set<usize>, second: Set<usize>)
    requires
        !first.disjoint(second),
    ensures
        forwarded(seq![first, second], 0),
        !forwarded(seq![first, second], 1),
        forwarded(seq![second], 0),
{
    let both = seq![first, second];
    lemma_first_is_forwarded(both);
    lemma_first_is_forwarded(seq![second]);
    assert(both.take(1) =~= seq![first]);
    assert(seq![first].drop_last() =~= Seq::<Set<usize>>::empty());
    assert(claimed(Seq::<Set<usize>>::empty()) =~= Set::<usize>::empty());
    assert(claimed(seq![first]) =~= first);
}

/// A claim is all or nothing: either every output of the packet is taken for
/// it, none of which was taken before, or the taken outputs stay exactly as
/// they were.
pub proof fn lemma_claim_is_atomic(occupied: Set<usize>, targets: Set<usize>)
    ensures
        admits(occupied, targets) ==> targets.subset_of(occupied_after(occupied, targets))
            && occupied.disjoint(targets),
        !admits(occupied, targets) ==> occupied_after(occupied, targets) == occupied,
{
}

} // verus!
