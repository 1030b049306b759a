use fxhash::{FxHashMap, FxHashSet};
use switches::event::{due_inputs, earliest_event, Event, EventTime, Observation};
use switches::routing::Port;
use switches::simple::{SimpleSwitch, Watch};

type Table = FxHashMap<u8, FxHashSet<usize>>;
type Bare = SimpleSwitch<(), (), u8, Table>;

fn seen(id: usize, next_event: EventTime, head: Option<u64>) -> Observation {
    Observation {
        id,
        next_event,
        head,
    }
}

fn with_inputs(ids: &[usize]) -> Bare {
    let mut switch: Bare = SimpleSwitch::new(Table::default(), 1);
    for id in ids {
        switch.add_port(Port {
            id: *id,
            input: Some(()),
            output: None,
        });
    }
    switch
}

#[test]
fn earlier_prefers_ready_then_nothing_then_closed() {
    assert_eq!(EventTime::Ready(9).earlier(EventTime::Nothing(1)), EventTime::Ready(9));
    assert_eq!(EventTime::Nothing(1).earlier(EventTime::Ready(9)), EventTime::Ready(9));
    assert_eq!(EventTime::Ready(9).earlier(EventTime::Closed), EventTime::Ready(9));
    assert_eq!(EventTime::Closed.earlier(EventTime::Ready(9)), EventTime::Ready(9));
    assert_eq!(EventTime::Nothing(4).earlier(EventTime::Closed), EventTime::Nothing(4));
    assert_eq!(EventTime::Closed.earlier(EventTime::Nothing(4)), EventTime::Nothing(4));
    assert_eq!(EventTime::Closed.earlier(EventTime::Closed), EventTime::Closed);
}

#[test]
fn earlier_takes_the_smaller_time_within_a_kind() {
    assert_eq!(EventTime::Ready(3).earlier(EventTime::Ready(5)), EventTime::Ready(3));
    assert_eq!(EventTime::Ready(5).earlier(EventTime::Ready(3)), EventTime::Ready(3));
    assert_eq!(EventTime::Ready(5).earlier(EventTime::Ready(5)), EventTime::Ready(5));
    assert_eq!(EventTime::Nothing(8).earlier(EventTime::Nothing(2)), EventTime::Nothing(2));
    assert_eq!(EventTime::Nothing(2).earlier(EventTime::Nothing(8)), EventTime::Nothing(2));
}

#[test]
fn earliest_event_of_nothing_is_closed() {
    assert_eq!(earliest_event(&Vec::new()), EventTime::Closed);
}

#[test]
fn earliest_event_is_the_minimum() {
    let observed = vec![
        seen(0, EventTime::Nothing(2), None),
        seen(1, EventTime::Ready(40), Some(40)),
        seen(2, EventTime::Closed, None),
        seen(3, EventTime::Ready(17), Some(17)),
        seen(4, EventTime::Ready(23), Some(23)),
    ];
    assert_eq!(earliest_event(&observed), EventTime::Ready(17));
    let waiting = vec![
        seen(0, EventTime::Closed, None),
        seen(1, EventTime::Nothing(12), None),
        seen(2, EventTime::Nothing(6), None),
    ];
    assert_eq!(earliest_event(&waiting), EventTime::Nothing(6));
}

#[test]
fn due_inputs_are_listed_by_ascending_id() {
    let observed = vec![
        seen(9, EventTime::Ready(5), Some(5)),
        seen(2, EventTime::Ready(7), Some(7)),
        seen(5, EventTime::Ready(3), Some(3)),
        seen(7, EventTime::Nothing(0), None),
        seen(1, EventTime::Ready(5), Some(5)),
    ];
    assert_eq!(due_inputs(&observed, 5), vec![1, 5, 9]);
    assert_eq!(due_inputs(&observed, 2), Vec::<usize>::new());
    assert_eq!(due_inputs(&observed, 7), vec![1, 2, 5, 9]);
}

#[test]
fn due_inputs_go_by_the_head_not_by_the_report() {
    let observed = vec![
        seen(0, EventTime::Nothing(1), Some(4)),
        seen(1, EventTime::Ready(4), None),
    ];
    assert_eq!(due_inputs(&observed, 4), vec![0]);
}

#[test]
fn clock_jumps_to_the_earliest_ready_time() {
    let mut switch = with_inputs(&[4, 6, 8]);
    let observed = vec![
        seen(4, EventTime::Ready(30), Some(30)),
        seen(6, EventTime::Ready(20), Some(20)),
        seen(8, EventTime::Ready(20), Some(20)),
    ];
    assert_eq!(
        switch.advance_to_next_event(&observed),
        Event::Ready(vec![6, 8])
    );
    assert_eq!(switch.time(), 20);
}

#[test]
fn clock_never_moves_back() {
    let mut switch = with_inputs(&[0, 1]);
    let late = vec![
        seen(0, EventTime::Ready(50), Some(50)),
        seen(1, EventTime::Nothing(3), None),
    ];
    assert_eq!(switch.advance_to_next_event(&late), Event::Ready(vec![0]));
    assert_eq!(switch.time(), 50);
    switch.tick();
    assert_eq!(switch.time(), 51);

    // An item stamped in the past is served at the present time.
    let stale = vec![
        seen(0, EventTime::Closed, None),
        seen(1, EventTime::Ready(10), Some(10)),
    ];
    assert_eq!(switch.advance_to_next_event(&stale), Event::Ready(vec![1]));
    assert_eq!(switch.time(), 51);

    // A lower bound in the past leaves the clock alone as well.
    let waiting = vec![
        seen(0, EventTime::Closed, None),
        seen(1, EventTime::Nothing(10), None),
    ];
    assert_eq!(switch.advance_to_next_event(&waiting), Event::Retry);
    assert_eq!(switch.time(), 51);
}

#[test]
fn nothing_scheduled_moves_one_tick_past_the_bound() {
    let mut switch = with_inputs(&[0, 1]);
    let observed = vec![
        seen(0, EventTime::Nothing(9), None),
        seen(1, EventTime::Nothing(5), None),
    ];
    assert_eq!(switch.advance_to_next_event(&observed), Event::Retry);
    assert_eq!(switch.time(), 6);
    assert_eq!(switch.advance_to_next_event(&observed), Event::Retry);
    assert_eq!(switch.time(), 6);
}

#[test]
fn a_closed_input_does_not_stop_the_others() {
    let mut switch = with_inputs(&[0, 1]);
    let observed = vec![
        seen(0, EventTime::Closed, None),
        seen(1, EventTime::Nothing(0), None),
    ];
    assert_eq!(switch.advance_to_next_event(&observed), Event::Retry);
    let observed = vec![
        seen(0, EventTime::Closed, None),
        seen(1, EventTime::Ready(1), Some(1)),
    ];
    assert_eq!(switch.advance_to_next_event(&observed), Event::Ready(vec![1]));
    let observed = vec![
        seen(0, EventTime::Closed, None),
        seen(1, EventTime::Closed, None),
    ];
    let before = switch.time();
    assert_eq!(switch.advance_to_next_event(&observed), Event::Quit);
    assert_eq!(switch.time(), before);
}

#[test]
fn single_input_is_ready_with_its_item_and_quits_when_closed() {
    let mut switch = with_inputs(&[3]);
    assert_eq!(switch.watch(), Watch::One(3));
    let item = vec![seen(3, EventTime::Ready(12), Some(12))];
    assert_eq!(switch.advance_to_next_event(&item), Event::Ready(vec![3]));
    assert_eq!(switch.time(), 12);
    switch.tick();
    let closed = vec![seen(3, EventTime::Closed, None)];
    assert_eq!(switch.advance_to_next_event(&closed), Event::Quit);
    assert_eq!(switch.time(), 13);
}

#[test]
fn watch_lists_the_inputs_by_ascending_id() {
    assert_eq!(with_inputs(&[]).watch(), Watch::NoInput);
    assert_eq!(with_inputs(&[12]).watch(), Watch::One(12));
    assert_eq!(
        with_inputs(&[12, 3, 40, 0]).watch(),
        Watch::Each(vec![0, 3, 12, 40])
    );
}

#[test]
fn tick_moves_the_clock_by_one() {
    let mut switch = with_inputs(&[]);
    assert_eq!(switch.time(), 0);
    switch.tick();
    switch.tick();
    assert_eq!(switch.time(), 2);
    assert_eq!(switch.latency(), 1);
}
