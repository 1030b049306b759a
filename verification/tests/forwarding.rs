use fxhash::{FxHashMap, FxHashSet};
use switches::contention::claim;
use switches::event::{Event, EventTime, Observation};
use switches::policy::Policy;
use switches::routing::{Packet, Port, SimplePacket, Switch};
use switches::simple::SimpleSwitch;

type Table = FxHashMap<u8, FxHashSet<usize>>;
type Bare = SimpleSwitch<(), (), u8, Table>;

fn set(ids: &[usize]) -> FxHashSet<usize> {
    ids.iter().copied().collect()
}

fn table(entries: &[(u8, &[usize])]) -> Table {
    let mut table = Table::default();
    for (location, outputs) in entries {
        table.insert(*location, set(outputs));
    }
    table
}

fn packet(location: u8, payload: u32) -> SimplePacket<u8, u32> {
    SimplePacket { location, payload }
}

fn at_time(policy: Table, latency: u64, time: u64) -> Bare {
    let mut switch: Bare = SimpleSwitch::new(policy, latency);
    switch.add_port(Port {
        id: 0,
        input: Some(()),
        output: None,
    });
    let observed = vec![Observation {
        id: 0,
        next_event: EventTime::Ready(time),
        head: Some(time),
    }];
    assert_eq!(switch.advance_to_next_event(&observed), Event::Ready(vec![0]));
    assert_eq!(switch.time(), time);
    switch
}

#[test]
fn claim_takes_all_targets_when_all_are_free() {
    let mut occupied = set(&[1, 2]);
    assert!(claim(&mut occupied, &set(&[3, 4, 5])));
    assert_eq!(occupied, set(&[1, 2, 3, 4, 5]));
}

#[test]
fn claim_takes_nothing_when_one_target_is_taken() {
    let mut occupied = set(&[1, 2]);
    assert!(!claim(&mut occupied, &set(&[7, 2, 9])));
    assert_eq!(occupied, set(&[1, 2]));
}

#[test]
fn claim_of_no_targets_always_wins() {
    let mut occupied = set(&[1, 2]);
    assert!(claim(&mut occupied, &set(&[])));
    assert_eq!(occupied, set(&[1, 2]));
    let mut none = set(&[]);
    assert!(claim(&mut none, &set(&[])));
    assert!(none.is_empty());
}

#[test]
fn delivery_time_is_decision_time_plus_latency() {
    for (latency, time, expected) in [(0u64, 0u64, 0u64), (0, 41, 41), (1, 41, 42), (250, 1000, 1250)] {
        let mut switch = at_time(table(&[(1, &[6])]), latency, time);
        let mut occupied = set(&[]);
        let forward = switch.forward(&mut occupied, &packet(1, 0)).unwrap();
        assert_eq!(forward.time, expected);
        assert_eq!(forward.targets, set(&[6]));
        assert_eq!(switch.time(), time);
        assert_eq!(switch.latency(), latency);
    }
}

#[test]
fn delivery_time_may_reach_the_last_tick() {
    let mut switch = at_time(table(&[(1, &[6])]), 5, u64::MAX - 5);
    let mut occupied = set(&[]);
    let forward = switch.forward(&mut occupied, &packet(1, 0)).unwrap();
    assert_eq!(forward.time, u64::MAX);
}

#[test]
fn every_target_of_a_set_gets_the_packet_at_one_time() {
    let mut switch = at_time(table(&[(4, &[2, 3, 5])]), 3, 10);
    let mut occupied = set(&[]);
    let forward = switch.forward(&mut occupied, &packet(4, 99)).unwrap();
    assert_eq!(forward.targets, set(&[2, 3, 5]));
    assert_eq!(forward.time, 13);
    assert_eq!(occupied, set(&[2, 3, 5]));
}

#[test]
fn a_partly_taken_target_set_defers_the_whole_packet() {
    let mut switch = at_time(table(&[(4, &[2, 3, 5]), (6, &[5]), (7, &[8])]), 3, 10);
    let mut occupied = set(&[]);
    assert!(switch.forward(&mut occupied, &packet(6, 0)).is_some());
    assert_eq!(occupied, set(&[5]));
    // Outputs 2 and 3 are free, 5 is not: nothing is taken.
    assert!(switch.forward(&mut occupied, &packet(4, 1)).is_none());
    assert_eq!(occupied, set(&[5]));
    // An unrelated packet still goes out in the same pass.
    let forward = switch.forward(&mut occupied, &packet(7, 2)).unwrap();
    assert_eq!(forward.targets, set(&[8]));
    assert_eq!(occupied, set(&[5, 8]));
    // In the next pass the deferred packet finds its outputs free.
    switch.tick();
    let mut occupied = set(&[]);
    let forward = switch.forward(&mut occupied, &packet(4, 1)).unwrap();
    assert_eq!(forward.targets, set(&[2, 3, 5]));
    assert_eq!(forward.time, 14);
}

#[test]
fn forward_leaves_the_table_as_it_is() {
    let mut switch = at_time(table(&[(1, &[6, 7])]), 1, 0);
    let mut occupied = set(&[]);
    let mut forward = switch.forward(&mut occupied, &packet(1, 0)).unwrap();
    forward.targets.insert(100);
    let mut again = set(&[]);
    let forward = switch.forward(&mut again, &packet(1, 0)).unwrap();
    assert_eq!(forward.targets, set(&[6, 7]));
    assert_eq!(switch.policy().len(), 1);
}

#[test]
fn table_routes_a_known_location_to_a_copy_of_its_set() {
    let mut policy = table(&[(1, &[1]), (2, &[2, 3])]);
    assert!(policy.has_route(&1));
    assert!(policy.has_route(&2));
    let mut outputs = policy.route(&2);
    assert_eq!(outputs, set(&[2, 3]));
    outputs.insert(9);
    assert_eq!(policy.route(&2), set(&[2, 3]));
    assert_eq!(policy.route(&1), set(&[1]));
    assert_eq!(policy.len(), 2);
}

#[test]
fn table_has_no_route_for_an_unknown_location() {
    let policy = table(&[(1, &[1]), (2, &[2])]);
    assert!(!policy.has_route(&3));
    assert!(!table(&[]).has_route(&1));
}

#[test]
fn table_may_route_to_no_output() {
    let mut policy = table(&[(5, &[])]);
    assert!(policy.has_route(&5));
    assert!(policy.route(&5).is_empty());
}

#[test]
fn simple_packet_names_its_location() {
    let data = SimplePacket {
        location: 7u8,
        payload: "anything",
    };
    assert_eq!(data.destination(), 7);
    assert_eq!(data.payload, "anything");
    let other: SimplePacket<u16, u8> = SimplePacket::default();
    assert_eq!(other.destination(), 0);
}

#[test]
fn ports_are_found_under_their_id() {
    let mut switch: SimpleSwitch<&str, &str, u8, Table> = SimpleSwitch::new(table(&[]), 4);
    assert!(switch.input(0).is_none());
    assert!(switch.output(0).is_none());
    switch.add_port(Port {
        id: 0,
        input: Some("in 0"),
        output: None,
    });
    switch.add_port(Port {
        id: 1,
        input: Some("in 1"),
        output: Some("out 1"),
    });
    switch.add_port(Port {
        id: 2,
        input: None,
        output: Some("out 2"),
    });
    assert_eq!(switch.input(0), Some(&"in 0"));
    assert_eq!(switch.input(1), Some(&"in 1"));
    assert_eq!(switch.input(2), None);
    assert_eq!(switch.output(0), None);
    assert_eq!(switch.output(1), Some(&"out 1"));
    assert_eq!(switch.output(2), Some(&"out 2"));
    assert_eq!(switch.latency(), 4);
    assert_eq!(switch.time(), 0);
}

#[test]
fn one_id_serves_an_input_and_an_output() {
    let mut switch: SimpleSwitch<u8, u8, u8, Table> = SimpleSwitch::new(table(&[]), 0);
    switch.add_port(Port {
        id: 5,
        input: Some(1),
        output: None,
    });
    // The same id on the other side is no collision.
    Switch::add_port(
        &mut switch,
        Port {
            id: 5,
            input: None,
            output: Some(2),
        },
    );
    assert_eq!(switch.input(5), Some(&1));
    assert_eq!(switch.output(5), Some(&2));
}

/// A policy that sends every location to the next output in turn.
struct RoundRobin {
    outputs: usize,
    next: usize,
    asked: usize,
}

impl Policy<u8> for RoundRobin {
    fn has_route(&self, _target: &u8) -> bool {
        self.outputs > 0
    }

    fn route(&mut self, _target: &u8) -> FxHashSet<usize> {
        let chosen = self.next;
        self.next = (self.next + 1) % self.outputs;
        self.asked += 1;
        set(&[chosen])
    }
}

/// A packet of its own kind: the location is the first byte.
struct Frame([u8; 4]);

impl Packet<u8> for Frame {
    fn destination(&self) -> u8 {
        self.0[0]
    }
}

#[test]
fn a_policy_that_changes_is_asked_once_for_each_attempt() {
    let policy = RoundRobin {
        outputs: 2,
        next: 0,
        asked: 0,
    };
    let mut switch: SimpleSwitch<(), (), u8, RoundRobin> = SimpleSwitch::new(policy, 1);
    let mut occupied = set(&[]);
    let first = switch.forward(&mut occupied, &Frame([9, 0, 0, 0])).unwrap();
    assert_eq!(first.targets, set(&[0]));
    let second = switch.forward(&mut occupied, &Frame([9, 0, 0, 1])).unwrap();
    assert_eq!(second.targets, set(&[1]));
    // Back at output 0, which is taken in this pass.
    assert!(switch.forward(&mut occupied, &Frame([9, 0, 0, 2])).is_none());
    assert_eq!(occupied, set(&[0, 1]));
    assert_eq!(switch.policy().asked, 3);
}
