//! A switch followed from its first look at the inputs until it quits, when
//! all that its inputs will ever deliver is already waiting at them.
//!
//! Input `i` has the id `i`. Each pass looks at the heads of the inputs, moves
//! the clock, serves the inputs that are due in ascending order, and ends
//! with a tick. A packet leaves its input exactly when it is forwarded. One
//! that is held back by contention stays at the head of its input and is
//! there again for the next pass.

use crate::contention::{admits, occupied_after};
use crate::event::{
    clock_after, earliest, lemma_earliest_is_least, lemma_quit_iff_all_closed, EventTime,
    Observation,
};
use vstd::prelude::*;

verus! {

/// A packet that waits at an input: the time it carries, and the outputs that
/// the policy names for its destination when it is served.
pub struct Waiting {
    pub stamp: u64,
    pub targets: Set<usize>,
}

/// A packet that was forwarded: the input it came from, the time it carried,
/// the outputs that each got a copy, and the time the copies are stamped
/// with.
pub struct Delivery {
    pub input: int,
    pub stamp: u64,
    pub targets: Set<usize>,
    pub time: int,
}

/// What the input `id` reports when `line` waits at it and nothing more will
/// come: its first packet, or closure.
pub open spec fn head_of(id: int, line: Seq<Waiting>) -> Observation {
    if line.len() == 0 {
        Observation { id: id as usize, next_event: EventTime::Closed, head: None }
    } else {
        Observation {
            id: id as usize,
            next_event: EventTime::Ready(line[0].stamp),
            head: Some(line[0].stamp),
        }
    }
}

/// What the switch sees when it looks at all inputs.
pub open spec fn heads(lines: Seq<Seq<Waiting>>) -> Seq<Observation> {
    Seq::new(lines.len(), |i: int| head_of(i, lines[i]))
}

/// The outputs that are taken in a pass for the items due at `time` once the
/// inputs below `upto` have had their turn. Each input that is due makes its
/// claim on what the inputs before it left free.
pub open spec fn taken(lines: Seq<Seq<Waiting>>, time: u64, upto: int) -> Set<usize>
    decreases upto,
{
    if upto <= 0 {
        Set::empty()
    } else if head_of(upto - 1, lines[upto - 1]).due(time) {
        occupied_after(taken(lines, time, upto - 1), lines[upto - 1][0].targets)
    } else {
        taken(lines, time, upto - 1)
    }
}

/// Whether the first packet of input `i` is forwarded in such a pass: it is
/// due, and when its turn comes none of its outputs is taken.
pub open spec fn goes_out(lines: Seq<Seq<Waiting>>, time: u64, i: int) -> bool {
    head_of(i, lines[i]).due(time) && admits(taken(lines, time, i), lines[i][0].targets)
}

/// What waits at the inputs after such a pass: the forwarded packets are
/// gone, all others are where they were.
pub open spec fn after_pass(lines: Seq<Seq<Waiting>>, time: u64) -> Seq<Seq<Waiting>> {
    Seq::new(
        lines.len(),
        |i: int|
            if goes_out(lines, time, i) {
                lines[i].drop_first()
            } else {
                lines[i]
            },
    )
}

/// What such a pass forwards from the inputs below `upto`, in the order in
/// which they are served, every copy stamped `stamped`.
pub open spec fn pass_deliveries(lines: Seq<Seq<Waiting>>, time: u64, stamped: int, upto: int) -> Seq<
    Delivery,
>
    decreases upto,
{
    if upto <= 0 {
        Seq::empty()
    } else if goes_out(lines, time, upto - 1) {
        pass_deliveries(lines, time, stamped, upto - 1).push(
            Delivery {
                input: upto - 1,
                stamp: lines[upto - 1][0].stamp,
                targets: lines[upto - 1][0].targets,
                time: stamped,
            },
        )
    } else {
        pass_deliveries(lines, time, stamped, upto - 1)
    }
}

/// The number of packets that wait at the inputs.
pub open spec fn waiting(lines: Seq<Seq<Waiting>>) -> nat
    decreases lines.len(),
{
    if lines.len() == 0 {
        0
    } else {
        waiting(lines.drop_last()) + lines.last().len()
    }
}

/// All that the switch forwards until it quits, in the order in which it
/// does, from a clock at `clock`. It goes on, pass after pass, for as long
/// as it is told that an input is ready and the pass forwards something.
pub open spec fn deliveries(lines: Seq<Seq<Waiting>>, clock: int, latency: int) -> Seq<Delivery>
    decreases waiting(lines),
{
    match earliest(heads(lines)) {
        EventTime::Ready(time) => {
            let now = clock_after(heads(lines), clock);
            let left = after_pass(lines, time);
            if waiting(left) < waiting(lines) {
                pass_deliveries(lines, time, now + latency, lines.len() as int) + deliveries(
                    left,
                    now + 1,
                    latency,
                )
            } else {
                Seq::empty()
            }
        },
        _ => Seq::empty(),
    }
}

/// Nothing waits where every input is empty.
proof fn lemma_nothing_waiting(lines: Seq<Seq<Waiting>>)
    requires
        forall|i: int| 0 <= i < lines.len() ==> #[trigger] lines[i].len() == 0,
    ensures
        waiting(lines) == 0,
    decreases lines.len(),
{
    if lines.len() > 0 {
        lemma_nothing_waiting(lines.drop_last());
        assert(lines[lines.len() - 1].len() == 0);
    }
}

/// A pass forwards as many packets as it takes off the inputs.
proof fn lemma_pass_takes_what_it_forwards(
    lines: Seq<Seq<Waiting>>,
    time: u64,
    stamped: int,
    upto: int,
)
    requires
        0 <= upto <= lines.len(),
    ensures
        pass_deliveries(lines, time, stamped, upto).len() + waiting(
            after_pass(lines, time).take(upto),
        ) == waiting(lines.take(upto)),
    decreases upto,
{
    if upto > 0 {
        lemma_pass_takes_what_it_forwards(lines, time, stamped, upto - 1);
        let left = after_pass(lines, time);
        assert(lines.take(upto).drop_last() =~= lines.take(upto - 1));
        assert(left.take(upto).drop_last() =~= left.take(upto - 1));
        assert(lines.take(upto).last() == lines[upto - 1]);
        assert(left.take(upto).last() == left[upto - 1]);
    }
}

/// What is taken in a pass stays taken: the outputs of a packet that is
/// forwarded are taken when any later input has its turn.
proof fn lemma_taken_stays_taken(lines: Seq<Seq<Waiting>>, time: u64, i: int, upto: int)
    requires
        0 <= i < upto <= lines.len(),
        goes_out(lines, time, i),
    ensures
        lines[i][0].targets.subset_of(taken(lines, time, upto)),
    decreases upto,
{
    if upto > i + 1 {
        lemma_taken_stays_taken(lines, time, i, upto - 1);
    }
}

/// What a pass forwards: packets that were due and found their outputs free,
/// each from another input, in ascending order of the inputs, all stamped
/// alike.
proof fn lemma_pass_forwards_in_order(lines: Seq<Seq<Waiting>>, time: u64, stamped: int, upto: int)
    requires
        0 <= upto <= lines.len(),
    ensures
        forall|k: int|
            0 <= k < pass_deliveries(lines, time, stamped, upto).len() ==> {
                let sent = #[trigger] pass_deliveries(lines, time, stamped, upto)[k];
                &&& 0 <= sent.input < upto
                &&& goes_out(lines, time, sent.input)
                &&& sent.stamp == lines[sent.input][0].stamp
                &&& sent.targets == lines[sent.input][0].targets
                &&& sent.time == stamped
            },
        forall|a: int, b: int|
            0 <= a < b < pass_deliveries(lines, time, stamped, upto).len() ==> pass_deliveries(
                lines,
                time,
                stamped,
                upto,
            )[a].input < pass_deliveries(lines, time, stamped, upto)[b].input,
    decreases upto,
{
    if upto > 0 {
        lemma_pass_forwards_in_order(lines, time, stamped, upto - 1);
        let before = pass_deliveries(lines, time, stamped, upto - 1);
        let all = pass_deliveries(lines, time, stamped, upto);
        assert forall|k: int| 0 <= k < all.len() implies {
            let sent = #[trigger] all[k];
            &&& 0 <= sent.input < upto
            &&& goes_out(lines, time, sent.input)
            &&& sent.stamp == lines[sent.input][0].stamp
            &&& sent.targets == lines[sent.input][0].targets
            &&& sent.time == stamped
        } by {
            if k < before.len() {
                assert(all[k] == before[k]);
            }
        }
        assert forall|a: int, b: int| 0 <= a < b < all.len() implies all[a].input
            < all[b].input by {
            assert(all[a] == before[a]);
            if b < before.len() {
                assert(all[b] == before[b]);
            }
        }
    }
}

/// Below the first input that is due nothing is taken.
proof fn lemma_nothing_taken_before_first_due(lines: Seq<Seq<Waiting>>, time: u64, upto: int)
    requires
        0 <= upto <= lines.len(),
        forall|i: int| 0 <= i < upto ==> !(#[trigger] head_of(i, lines[i])).due(time),
    ensures
        taken(lines, time, upto) == Set::<usize>::empty(),
    decreases upto,
{
    if upto > 0 {
        lemma_nothing_taken_before_first_due(lines, time, upto - 1);
        assert(!head_of(upto - 1, lines[upto - 1]).due(time));
    }
}

/// A pass in which some input is due forwards a packet: the first input that
/// is due cannot be held back.
pub proof fn lemma_pass_forwards_first_due(lines: Seq<Seq<Waiting>>, time: u64, due: int)
    requires
        0 <= due < lines.len(),
        head_of(due, lines[due]).due(time),
    ensures
        exists|first: int| 0 <= first <= due && #[trigger] goes_out(lines, time, first),
    decreases due,
{
    if exists|i: int| 0 <= i < due && (#[trigger] head_of(i, lines[i])).due(time) {
        let i = choose|i: int| 0 <= i < due && (#[trigger] head_of(i, lines[i])).due(time);
        lemma_pass_forwards_first_due(lines, time, i);
        let first = choose|first: int| 0 <= first <= i && #[trigger] goes_out(lines, time, first);
        assert(goes_out(lines, time, first));
    } else {
        lemma_nothing_taken_before_first_due(lines, time, due);
        assert(goes_out(lines, time, due));
    }
}

/// Two packets that are forwarded in one pass share no output.
pub proof fn lemma_pass_shares_no_output(lines: Seq<Seq<Waiting>>, time: u64, i: int, j: int)
    requires
        0 <= i < j < lines.len(),
        goes_out(lines, time, i),
        goes_out(lines, time, j),
    ensures
        lines[i][0].targets.disjoint(lines[j][0].targets),
{
    lemma_taken_stays_taken(lines, time, i, j);
}

/// Where the earliest report is of a ready input, the pass forwards a packet,
/// and fewer wait after it.
proof fn lemma_ready_pass_makes_progress(lines: Seq<Seq<Waiting>>)
    requires
        earliest(heads(lines)) is Ready,
    ensures
        waiting(after_pass(lines, earliest(heads(lines))->Ready_0)) < waiting(lines),
{
    let seen = heads(lines);
    let time = earliest(seen)->Ready_0;
    let left = after_pass(lines, time);
    lemma_earliest_is_least(seen);
    let i = choose|i: int| 0 <= i < seen.len() && #[trigger] seen[i].next_event == earliest(seen);
    assert(seen[i] == head_of(i, lines[i]));
    assert(head_of(i, lines[i]).due(time));
    lemma_pass_forwards_first_due(lines, time, i);
    let first = choose|first: int| 0 <= first <= i && #[trigger] goes_out(lines, time, first);
    let n = lines.len() as int;
    lemma_pass_takes_what_it_forwards(lines, time, 0, n);
    lemma_pass_forwards_in_order(lines, time, 0, n);
    assert(lines.take(n) =~= lines);
    assert(left.take(n) =~= left);
    lemma_first_due_is_listed(lines, time, 0, n, first);
}

/// A packet that is forwarded in a pass is among what the pass forwards.
proof fn lemma_first_due_is_listed(
    lines: Seq<Seq<Waiting>>,
    time: u64,
    stamped: int,
    upto: int,
    i: int,
)
    requires
        0 <= i < upto <= lines.len(),
        goes_out(lines, time, i),
    ensures
        pass_deliveries(lines, time, stamped, upto).len() > 0,
    decreases upto,
{
    if upto > i + 1 {
        lemma_first_due_is_listed(lines, time, stamped, upto - 1, i);
    }
}

/// Every packet that waits at an input is forwarded before the switch quits,
/// each once: contention holds a packet back for a pass, it never loses one,
/// and the switch quits only when nothing waits any more.
pub proof fn lemma_every_packet_is_forwarded(lines: Seq<Seq<Waiting>>, clock: int, latency: int)
    ensures
        deliveries(lines, clock, latency).len() == waiting(lines),
    decreases waiting(lines),
{
    let seen = heads(lines);
    lemma_earliest_is_least(seen);
    lemma_quit_iff_all_closed(seen);
    match earliest(seen) {
        EventTime::Ready(time) => {
            let now = clock_after(seen, clock);
            let left = after_pass(lines, time);
            let n = lines.len() as int;
            lemma_ready_pass_makes_progress(lines);
            lemma_pass_takes_what_it_forwards(lines, time, now + latency, n);
            assert(lines.take(n) =~= lines);
            assert(left.take(n) =~= left);
            lemma_every_packet_is_forwarded(left, now + 1, latency);
        },
        EventTime::Nothing(_) => {
            let i = choose|i: int|
                0 <= i < seen.len() && #[trigger] seen[i].next_event == earliest(seen);
            assert(seen[i] == head_of(i, lines[i]));
        },
        EventTime::Closed => {
            assert forall|i: int| 0 <= i < lines.len() implies #[trigger] lines[i].len() == 0 by {
                assert(seen[i].next_event is Closed);
                assert(seen[i] == head_of(i, lines[i]));
            }
            lemma_nothing_waiting(lines);
        },
    }
}

/// No packet is delivered before the time it carries plus the latency, nor
/// before the time at which the switch set out plus the latency.
pub proof fn lemma_deliveries_take_the_latency(lines: Seq<Seq<Waiting>>, clock: int, latency: int)
    ensures
        forall|k: int|
            0 <= k < deliveries(lines, clock, latency).len() ==> {
                &&& (#[trigger] deliveries(lines, clock, latency)[k]).time >= clock + latency
                &&& deliveries(lines, clock, latency)[k].time >= deliveries(
                    lines,
                    clock,
                    latency,
                )[k].stamp + latency
            },
    decreases waiting(lines),
{
    let seen = heads(lines);
    match earliest(seen) {
        EventTime::Ready(time) => {
            let now = clock_after(seen, clock);
            let left = after_pass(lines, time);
            let n = lines.len() as int;
            if waiting(left) < waiting(lines) {
                let first = pass_deliveries(lines, time, now + latency, n);
                let rest = deliveries(left, now + 1, latency);
                lemma_pass_forwards_in_order(lines, time, now + latency, n);
                lemma_deliveries_take_the_latency(left, now + 1, latency);
                let all = deliveries(lines, clock, latency);
                assert(all == first + rest);
                assert forall|k: int| 0 <= k < all.len() implies {
                    &&& (#[trigger] all[k]).time >= clock + latency
                    &&& all[k].time >= all[k].stamp + latency
                } by {
                    if k < first.len() {
                        assert(all[k] == first[k]);
                        assert(goes_out(lines, time, first[k].input));
                    } else {
                        assert(all[k] == rest[k - first.len()]);
                    }
                }
            }
        },
        _ => {},
    }
}

/// Every delivery comes from an input of the switch.
pub proof fn lemma_deliveries_come_from_inputs(lines: Seq<Seq<Waiting>>, clock: int, latency: int)
    ensures
        forall|k: int|
            0 <= k < deliveries(lines, clock, latency).len() ==> 0 <= (#[trigger] deliveries(
                lines,
                clock,
                latency,
            )[k]).input < lines.len(),
    decreases waiting(lines),
{
    let seen = heads(lines);
    match earliest(seen) {
        EventTime::Ready(time) => {
            let now = clock_after(seen, clock);
            let left = after_pass(lines, time);
            let n = lines.len() as int;
            if waiting(left) < waiting(lines) {
                let head = pass_deliveries(lines, time, now + latency, n);
                let rest = deliveries(left, now + 1, latency);
                lemma_pass_forwards_in_order(lines, time, now + latency, n);
                lemma_deliveries_come_from_inputs(left, now + 1, latency);
                let all = deliveries(lines, clock, latency);
                assert(all == head + rest);
                assert forall|k: int| 0 <= k < all.len() implies 0 <= (#[trigger] all[k]).input
                    < lines.len() by {
                    if k < head.len() {
                        assert(all[k] == head[k]);
                    } else {
                        assert(all[k] == rest[k - head.len()]);
                    }
                }
            }
        },
        _ => {},
    }
}

/// Of any two deliveries the later one is stamped with a later time, unless
/// both were decided in one pass: then they carry the same time, come from
/// different inputs and share no output. So no output gets two packets
/// stamped alike, and the packets of one input go out at ever later times.
pub proof fn lemma_deliveries_are_spaced(lines: Seq<Seq<Waiting>>, clock: int, latency: int)
    ensures
        forall|a: int, b: int|
            0 <= a < b < deliveries(lines, clock, latency).len() ==> {
                let first = #[trigger] deliveries(lines, clock, latency)[a];
                let second = #[trigger] deliveries(lines, clock, latency)[b];
                first.time < second.time || (first.time == second.time && first.input
                    < second.input && first.targets.disjoint(second.targets))
            },
    decreases waiting(lines),
{
    let seen = heads(lines);
    match earliest(seen) {
        EventTime::Ready(time) => {
            let now = clock_after(seen, clock);
            let left = after_pass(lines, time);
            let n = lines.len() as int;
            if waiting(left) < waiting(lines) {
                let head = pass_deliveries(lines, time, now + latency, n);
                let rest = deliveries(left, now + 1, latency);
                lemma_pass_forwards_in_order(lines, time, now + latency, n);
                lemma_deliveries_take_the_latency(left, now + 1, latency);
                lemma_deliveries_are_spaced(left, now + 1, latency);
                let all = deliveries(lines, clock, latency);
                assert(all == head + rest);
                assert forall|a: int, b: int| 0 <= a < b < all.len() implies {
                    let first = #[trigger] all[a];
                    let second = #[trigger] all[b];
                    first.time < second.time || (first.time == second.time && first.input
                        < second.input && first.targets.disjoint(second.targets))
                } by {
                    if b < head.len() {
                        assert(all[a] == head[a] && all[b] == head[b]);
                        lemma_pass_shares_no_output(lines, time, head[a].input, head[b].input);
                    } else if a < head.len() {
                        assert(all[a] == head[a]);
                        assert(all[b] == rest[b - head.len()]);
                    } else {
                        assert(all[a] == rest[a - head.len()]);
                        assert(all[b] == rest[b - head.len()]);
                    }
                }
            }
        },
        _ => {},
    }
}

/// A switch whose single input delivers some packets and then closes
/// forwards exactly as many as it delivered, each stamped later than the one
/// before, and then quits.
pub proof fn lemma_single_input_is_drained(line: Seq<Waiting>, clock: int, latency: int)
    ensures
        deliveries(seq![line], clock, latency).len() == line.len(),
        forall|a: int, b: int|
            0 <= a < b < line.len() ==> (#[trigger] deliveries(seq![line], clock, latency)[a]).time
                < (#[trigger] deliveries(seq![line], clock, latency)[b]).time,
{
    let lines = seq![line];
    lemma_every_packet_is_forwarded(lines, clock, latency);
    lemma_deliveries_come_from_inputs(lines, clock, latency);
    lemma_deliveries_are_spaced(lines, clock, latency);
    assert(lines.drop_last() =~= Seq::<Seq<Waiting>>::empty());
    assert(waiting(Seq::<Seq<Waiting>>::empty()) == 0);
    assert(waiting(lines) == line.len());
    let all = deliveries(lines, clock, latency);
    assert forall|a: int, b: int| 0 <= a < b < line.len() implies (#[trigger] all[a]).time < (
    #[trigger] all[b]).time by {
        assert(0 <= all[a].input < 1 && 0 <= all[b].input < 1);
    }
}

} // verus!
