//! Event determination: from what the input endpoints report, how far the
//! clock must move and which inputs can be served there.
//!
//! Nothing here looks at a packet's data. The endpoints are asked by whoever
//! drives the switch; this module decides on what they answered.

use crate::ids::{insert_ascending, lists};
use vstd::prelude::*;

verus! {

/// What an input endpoint reports of its next item.
#[derive(Clone, Copy, Debug, PartialEq, Eq)]
pub enum EventTime {
    /// An item is known to be available no later than this time.
    Ready(u64),
    /// Nothing is scheduled yet; the time is a lower bound, and the report
    /// may change.
    Nothing(u64),
    /// No item will ever come.
    Closed,
}

impl EventTime {
    /// `self` is not later than `other`. A ready time comes before any lower
    /// bound, a lower bound before closure, and of two reports of one kind
    /// the one with the smaller time comes first.
    pub open spec fn precedes(self, other: EventTime) -> bool {
        match (self, other) {
            (EventTime::Ready(a), EventTime::Ready(b)) => a <= b,
            (EventTime::Ready(_), _) => true,
            (EventTime::Nothing(_), EventTime::Ready(_)) => false,
            (EventTime::Nothing(a), EventTime::Nothing(b)) => a <= b,
            (EventTime::Nothing(_), EventTime::Closed) => true,
            (EventTime::Closed, EventTime::Closed) => true,
            (EventTime::Closed, _) => false,
        }
    }

    /// The earlier of two reports; `self` if neither is.
    pub open spec fn first_of(self, other: EventTime) -> EventTime {
        if self.precedes(other) {
            self
        } else {
            other
        }
    }

    /// The earlier of two reports.
    pub fn earlier(self, other: EventTime) -> (first: EventTime)
        ensures
            first == self.first_of(other),
    {
        match (self, other) {
            (EventTime::Ready(a), EventTime::Ready(b)) => if a <= b {
                self
            } else {
                other
            },
            (EventTime::Ready(_), _) => self,
            (EventTime::Nothing(_), EventTime::Ready(_)) => other,
            (EventTime::Nothing(a), EventTime::Nothing(b)) => if a <= b {
                self
            } else {
                other
            },
            (EventTime::Nothing(_), EventTime::Closed) => self,
            (EventTime::Closed, EventTime::Closed) => self,
            (EventTime::Closed, _) => other,
        }
    }
}

/// One input endpoint as it was found when the switch looked.
#[derive(Clone, Copy, Debug)]
pub struct Observation {
    /// The id of the input port.
    pub id: usize,
    /// What the endpoint reports of its next item.
    pub next_event: EventTime,
    /// The timestamp of the item at the head of the endpoint, if one is
    /// there.
    pub head: Option<u64>,
}

impl Observation {
    /// The endpoint holds an item stamped `time` or earlier.
    pub open spec fn due(self, time: u64) -> bool {
        self.head matches Some(stamp) && stamp <= time
    }
}

/// What the switch does after it has looked at its inputs.
#[derive(Clone, Debug, PartialEq, Eq)]
pub enum Event {
    /// No input can ever deliver again: the switch is done.
    Quit,
    /// These inputs hold a packet that can be served now, by ascending id.
    Ready(Vec<usize>),
    /// Nothing is available yet: the clock has moved on, look again.
    Retry,
}

/// No two observations are of the same input.
pub open spec fn distinct_ids(observed: Seq<Observation>) -> bool {
    forall|i: int, j: int| 0 <= i < j < observed.len() ==> observed[i].id != observed[j].id
}

/// The inputs that were looked at.
pub open spec fn observed_ids(observed: Seq<Observation>) -> Set<usize> {
    Set::new(|id: usize| exists|i: int| 0 <= i < observed.len() && #[trigger] observed[i].id == id)
}

/// The earliest report among the observations; `Closed` where there is none.
pub open spec fn earliest(observed: Seq<Observation>) -> EventTime
    decreases observed.len(),
{
    if observed.len() == 0 {
        EventTime::Closed
    } else {
        observed.last().next_event.first_of(earliest(observed.drop_last()))
    }
}

/// The inputs that hold an item stamped `time` or earlier.
pub open spec fn ready_at(observed: Seq<Observation>, time: u64) -> Set<usize> {
    Set::new(
        |id: usize|
            exists|i: int|
                0 <= i < observed.len() && #[trigger] observed[i].id == id && observed[i].due(time),
    )
}

/// Where a clock that stood at `clock` stands once the observations are taken
/// in. It never moves back. It moves up to the earliest ready time; where
/// nothing is ready, to one tick past the earliest lower bound; where all is
/// closed, not at all.
pub open spec fn clock_after(observed: Seq<Observation>, clock: int) -> int {
    match earliest(observed) {
        EventTime::Ready(time) => if clock <= time {
            time as int
        } else {
            clock
        },
        EventTime::Nothing(bound) => if clock <= bound {
            bound + 1
        } else {
            clock
        },
        EventTime::Closed => clock,
    }
}

/// The earliest report is one that was made, unless all inputs are closed, and
/// none that was made is earlier.
pub proof fn lemma_earliest_is_least(observed: Seq<Observation>)
    ensures
        forall|i: int|
            0 <= i < observed.len() ==> earliest(observed).precedes(
                #[trigger] observed[i].next_event,
            ),
        earliest(observed) is Closed || exists|i: int|
            0 <= i < observed.len() && #[trigger] observed[i].next_event == earliest(observed),
    decreases observed.len(),
{
    if observed.len() > 0 {
        let rest = observed.drop_last();
        lemma_earliest_is_least(rest);
        let least = earliest(observed);
        assert forall|i: int| 0 <= i < observed.len() implies least.precedes(
            #[trigger] observed[i].next_event,
        ) by {
            if i < rest.len() {
                assert(rest[i] == observed[i]);
                assert(earliest(rest).precedes(rest[i].next_event));
            }
        }
        if least == observed.last().next_event {
            assert(observed[observed.len() - 1].next_event == least);
        } else if !(least is Closed) {
            let i = choose|i: int|
                0 <= i < rest.len() && #[trigger] rest[i].next_event == earliest(rest);
            assert(observed[i].next_event == least);
        }
    }
}

/// The switch quits exactly when every input is closed, in whatever order
/// they closed; with no input at all that is at once.
pub proof fn lemma_quit_iff_all_closed(observed: Seq<Observation>)
    ensures
        earliest(observed) is Closed <==> forall|i: int|
            0 <= i < observed.len() ==> #[trigger] observed[i].next_event is Closed,
{
    lemma_earliest_is_least(observed);
    if earliest(observed) is Closed {
        assert forall|i: int| 0 <= i < observed.len() implies #[trigger] observed[i].next_event is Closed by {
            assert(earliest(observed).precedes(observed[i].next_event));
        }
    }
}

/// Taking the observations in never moves the clock back, and taking the
/// same observations in once more moves it no further: looking at the inputs
/// again is harmless.
pub proof fn lemma_looking_again_is_harmless(observed: Seq<Observation>, clock: int)
    ensures
        clock_after(observed, clock) >= clock,
        clock_after(observed, clock_after(observed, clock)) == clock_after(observed, clock),
{
}

/// Where what the inputs say agrees with what is at their heads, a ready
/// input leads to a pass with something to serve: the input that named the
/// earliest time is among the ready ones.
pub proof fn lemma_ready_report_is_served(observed: Seq<Observation>)
    requires
        forall|i: int|
            0 <= i < observed.len() ==> (#[trigger] observed[i].next_event matches EventTime::Ready(
                time,
            ) ==> observed[i].head == Some(time)),
        earliest(observed) is Ready,
    ensures
        exists|i: int|
            0 <= i < observed.len() && #[trigger] observed[i].next_event == earliest(observed)
                && ready_at(observed, earliest(observed)->Ready_0).contains(observed[i].id),
{
    lemma_earliest_is_least(observed);
    let i = choose|i: int|
        0 <= i < observed.len() && #[trigger] observed[i].next_event == earliest(observed);
    assert(observed[i].due(earliest(observed)->Ready_0));
}

/// No packet is served before its time: when the clock has moved to a ready
/// time, every input to be served holds an item stamped no later than the
/// clock.
pub proof fn lemma_served_inputs_are_due(observed: Seq<Observation>, clock: int, id: usize)
    requires
        earliest(observed) matches EventTime::Ready(time) && ready_at(observed, time).contains(id),
    ensures
        exists|i: int|
            0 <= i < observed.len() && #[trigger] observed[i].id == id && (
            observed[i].head matches Some(stamp) && stamp <= clock_after(observed, clock)),
{
    let time = earliest(observed)->Ready_0;
    let i = choose|i: int|
        0 <= i < observed.len() && #[trigger] observed[i].id == id && observed[i].due(time);
    assert(observed[i].id == id && observed[i].head is Some && observed[i].head->0
        <= clock_after(observed, clock));
}

/// The earliest report among the observations.
pub fn earliest_event(observed: &Vec<Observation>) -> (first: EventTime)
    ensures
        first == earliest(observed@),
{
    let mut first = EventTime::Closed;
    let mut seen: usize = 0;
    while seen < observed.len()
        invariant
            seen <= observed.len(),
            first == earliest(observed@.take(seen as int)),
        decreases observed.len() - seen,
    {
        proof {
            assert(observed@.take(seen + 1).drop_last() =~= observed@.take(seen as int));
        }
        first = observed[seen].next_event.earlier(first);
        seen += 1;
    }
    proof {
        assert(observed@.take(observed.len() as int) =~= observed@);
    }
    first
}

/// The inputs that hold an item stamped `time` or earlier, by ascending id.
pub fn due_inputs(observed: &Vec<Observation>, time: u64) -> (ready: Vec<usize>)
    requires
        distinct_ids(observed@),
    ensures
        lists(ready@, ready_at(observed@, time)),
{
    let mut ready: Vec<usize> = Vec::new();
    let mut seen: usize = 0;
    proof {
        assert(ready@.to_set() =~= ready_at(observed@.take(0), time));
    }
    while seen < observed.len()
        invariant
            seen <= observed.len(),
            distinct_ids(observed@),
            lists(ready@, ready_at(observed@.take(seen as int), time)),
        decreases observed.len() - seen,
    {
        let one = observed[seen];
        let before = Ghost(observed@.take(seen as int));
        let after = Ghost(observed@.take(seen + 1));
        let is_due = match one.head {
            Some(stamp) => stamp <= time,
            None => false,
        };
        proof {
            assert(after@[seen as int] == one);
            assert forall|id: usize|
                ready_at(after@, time).contains(id) == (ready_at(before@, time).contains(id) || (
                is_due && id == one.id)) by {
                if ready_at(before@, time).contains(id) {
                    let i = choose|i: int|
                        0 <= i < before@.len() && #[trigger] before@[i].id == id && before@[i].due(
                            time,
                        );
                    assert(after@[i].id == id && after@[i].due(time));
                }
                if ready_at(after@, time).contains(id) {
                    let i = choose|i: int|
                        0 <= i < after@.len() && #[trigger] after@[i].id == id && after@[i].due(
                            time,
                        );
                    if i < seen {
                        assert(before@[i].id == id && before@[i].due(time));
                    }
                }
                if is_due && id == one.id {
                    assert(after@[seen as int].id == id && after@[seen as int].due(time));
                }
            }
        }
        if is_due {
            proof {
                if ready@.contains(one.id) {
                    assert(ready@.to_set().contains(one.id));
                    let i = choose|i: int|
                        0 <= i < before@.len() && #[trigger] before@[i].id == one.id
                            && before@[i].due(time);
                    assert(observed@[i].id == observed@[seen as int].id);
                }
            }
            insert_ascending(&mut ready, one.id);
            proof {
                assert(ready_at(after@, time) =~= ready_at(before@, time).insert(one.id));
            }
        } else {
            proof {
                assert(ready_at(after@, time) =~= ready_at(before@, time));
            }
        }
        seen += 1;
    }
    proof {
        assert(observed@.take(observed.len() as int) =~= observed@);
    }
    ready
}

} // verus!
