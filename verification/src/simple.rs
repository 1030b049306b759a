//! The simple switch: ports by id, a routing policy, a fixed latency and a
//! clock of its own.
//!
//! The switch decides; it does not touch an endpoint. Whoever drives it looks
//! at the input endpoints and tells the switch what they report, and carries
//! out what the switch decides: which packets leave their input, for which
//! outputs, stamped with which time. One round goes:
//!
//! 1. `watch` says which inputs to look at, and how.
//! 2. `advance_to_next_event` takes what was seen, moves the clock and says
//!    whether to stop, to look again, or which inputs to serve.
//! 3. `forward` is asked once for each input to serve, in the order given,
//!    with the packet at its head and the outputs taken so far in this pass.
//! 4. `tick` ends the pass.

use crate::contention::{admits, claim, occupied_after};
use crate::event::{
    clock_after, distinct_ids, due_inputs, earliest, earliest_event, observed_ids, ready_at, Event,
    EventTime, Observation,
};
use crate::fx::{map_get, map_insert, map_keys};
use crate::ids::{lists, sort_ascending};
use crate::policy::Policy;
use crate::routing::{Packet, Port, Switch};
use fxhash::{FxHashMap, FxHashSet};
use std::marker::PhantomData;
use vstd::prelude::*;

verus! {

broadcast use vstd::std_specs::hash::group_hash_axioms;

/// A switch that forwards every packet after the same fixed latency.
pub struct SimpleSwitch<In, Out, LT, PolicyType> {
    in_map: FxHashMap<usize, In>,
    out_map: FxHashMap<usize, Out>,
    policy: PolicyType,
    latency: u64,
    time: u64,
    _marker: PhantomData<LT>,
}

/// Which inputs to look at before the next decision, and how.
#[derive(Clone, Debug, PartialEq, Eq)]
pub enum Watch {
    /// There is no input to look at.
    NoInput,
    /// There is one input: wait on it until it holds an item or is closed.
    One(usize),
    /// There are several inputs, listed by ascending id: ask each what it
    /// reports, without waiting.
    Each(Vec<usize>),
}

/// The decision to forward one packet: take it off its input and hand a copy
/// to each of the targets, every copy stamped with the same time.
#[derive(Debug)]
pub struct Forward {
    /// The output ports that receive the packet, all of them.
    pub targets: FxHashSet<usize>,
    /// The timestamp of the delivery.
    pub time: u64,
}

impl<In, Out, LT, PolicyType> SimpleSwitch<In, Out, LT, PolicyType> {
    /// The input endpoints by port id.
    pub closed spec fn input_map(&self) -> Map<usize, In> {
        self.in_map@
    }

    /// The output endpoints by port id.
    pub closed spec fn output_map(&self) -> Map<usize, Out> {
        self.out_map@
    }

    /// The ids that have an input endpoint.
    pub open spec fn inputs(&self) -> Set<usize> {
        self.input_map().dom()
    }

    /// The ids that have an output endpoint.
    pub open spec fn outputs(&self) -> Set<usize> {
        self.output_map().dom()
    }

    /// The routing policy.
    pub closed spec fn spec_policy(&self) -> PolicyType {
        self.policy
    }

    /// The latency that every forwarded packet gets.
    pub closed spec fn spec_latency(&self) -> u64 {
        self.latency
    }

    /// The switch's clock.
    pub closed spec fn spec_time(&self) -> u64 {
        self.time
    }

    /// `other` has the same ports, policy and latency; the clocks may
    /// differ.
    pub open spec fn same_setup(&self, other: &Self) -> bool {
        &&& self.input_map() == other.input_map()
        &&& self.output_map() == other.output_map()
        &&& self.spec_policy() == other.spec_policy()
        &&& self.spec_latency() == other.spec_latency()
    }

    /// `port` brings no endpoint for a side on which its id is taken.
    pub open spec fn is_free_for(&self, port: &Port<In, Out>) -> bool {
        &&& port.input is Some ==> !self.inputs().contains(port.id)
        &&& port.output is Some ==> !self.outputs().contains(port.id)
    }

    /// The observations are of the inputs of this switch, each seen once.
    pub open spec fn observes(&self, observed: Seq<Observation>) -> bool {
        distinct_ids(observed) && observed_ids(observed) == self.inputs()
    }

    /// A switch without ports, its clock at zero.
    pub fn new(policy: PolicyType, latency: u64) -> (switch: Self)
        ensures
            switch.input_map() == Map::<usize, In>::empty(),
            switch.output_map() == Map::<usize, Out>::empty(),
            switch.spec_policy() == policy,
            switch.spec_latency() == latency,
            switch.spec_time() == 0,
    {
        Self {
            in_map: FxHashMap::default(),
            out_map: FxHashMap::default(),
            policy,
            latency,
            time: 0,
            _marker: PhantomData,
        }
    }

    /// Attaches the endpoints of `port` under its id. An id serves one input
    /// and one output at most; a port with both sides uses it for both.
    pub fn add_port(&mut self, port: Port<In, Out>)
        requires
            old(self).is_free_for(&port),
        ensures
            final(self).input_map() == match port.input {
                Some(endpoint) => old(self).input_map().insert(port.id, endpoint),
                None => old(self).input_map(),
            },
            final(self).output_map() == match port.output {
                Some(endpoint) => old(self).output_map().insert(port.id, endpoint),
                None => old(self).output_map(),
            },
            final(self).spec_policy() == old(self).spec_policy(),
            final(self).spec_latency() == old(self).spec_latency(),
            final(self).spec_time() == old(self).spec_time(),
    {
        let id = port.id;
        if let Some(endpoint) = port.input {
            map_insert(&mut self.in_map, id, endpoint);
        }
        if let Some(endpoint) = port.output {
            map_insert(&mut self.out_map, id, endpoint);
        }
    }

    /// The latency that every forwarded packet gets.
    #[verifier::when_used_as_spec(spec_latency)]
    pub fn latency(&self) -> (latency: u64)
        ensures
            latency == self.spec_latency(),
    {
        self.latency
    }

    /// The switch's clock.
    #[verifier::when_used_as_spec(spec_time)]
    pub fn time(&self) -> (time: u64)
        ensures
            time == self.spec_time(),
    {
        self.time
    }

    /// The routing policy.
    pub fn policy(&self) -> (policy: &PolicyType)
        ensures
            *policy == self.spec_policy(),
    {
        &self.policy
    }

    /// The input endpoint attached under `id`, if there is one.
    pub fn input(&self, id: usize) -> (endpoint: Option<&In>)
        ensures
            endpoint == if self.inputs().contains(id) {
                Some(&self.input_map()[id])
            } else {
                None
            },
    {
        map_get(&self.in_map, &id)
    }

    /// The output endpoint attached under `id`, if there is one.
    pub fn output(&self, id: usize) -> (endpoint: Option<&Out>)
        ensures
            endpoint == if self.outputs().contains(id) {
                Some(&self.output_map()[id])
            } else {
                None
            },
    {
        map_get(&self.out_map, &id)
    }

    /// Which inputs to look at before the next decision: none if the switch
    /// has no input, the one input if it has just one, else all of them.
    pub fn watch(&self) -> (watch: Watch)
        ensures
            match watch {
                Watch::NoInput => self.inputs() == Set::<usize>::empty(),
                Watch::One(id) => self.inputs() == set![id],
                Watch::Each(ids) => ids.len() >= 2 && lists(ids@, self.inputs()),
            },
    {
        let keys = map_keys(&self.in_map);
        let ids = sort_ascending(&keys);
        if ids.len() == 0 {
            proof {
                assert forall|id: usize| !self.inputs().contains(id) by {
                    if ids@.to_set().contains(id) {
                        assert(ids@.contains(id));
                    }
                }
                assert(self.inputs() =~= Set::<usize>::empty());
            }
            Watch::NoInput
        } else if ids.len() == 1 {
            let id = ids[0];
            proof {
                assert forall|other: usize| self.inputs().contains(other) == (other == id) by {
                    if ids@.to_set().contains(other) {
                        assert(ids@.contains(other));
                    }
                    assert(ids@.contains(ids@[0]));
                }
                assert(self.inputs() =~= set![id]);
            }
            Watch::One(id)
        } else {
            Watch::Each(ids)
        }
    }

    /// Takes in what the inputs report, moves the clock to the next event and
    /// says what to do there.
    ///
    /// If any input reports an item ready, the clock moves up to the earliest
    /// ready time, and every input whose head item is stamped no later than
    /// that time is to be served, lowest id first. If none does but some
    /// input may still deliver, the clock moves one tick past the earliest
    /// lower bound and the inputs are to be looked at again. If every input
    /// is closed, or there is none, the switch quits. The clock never moves
    /// back: a time that is already past leaves it where it is.
    pub fn advance_to_next_event(&mut self, observed: &Vec<Observation>) -> (event: Event)
        requires
            old(self).observes(observed@),
            earliest(observed@) matches EventTime::Nothing(bound) ==> bound < u64::MAX,
        ensures
            final(self).same_setup(old(self)),
            final(self).spec_time() == clock_after(observed@, old(self).spec_time() as int),
            final(self).spec_time() >= old(self).spec_time(),
            match earliest(observed@) {
                EventTime::Ready(time) => event matches Event::Ready(ids) && lists(
                    ids@,
                    ready_at(observed@, time),
                ),
                EventTime::Nothing(_) => event == Event::Retry,
                EventTime::Closed => event == Event::Quit,
            },
    {
        match earliest_event(observed) {
            EventTime::Ready(time) => {
                if self.time < time {
                    self.time = time;
                }
                Event::Ready(due_inputs(observed, time))
            },
            EventTime::Nothing(bound) => {
                if self.time <= bound {
                    self.time = bound + 1;
                }
                Event::Retry
            },
            EventTime::Closed => Event::Quit,
        }
    }

    /// Ends a pass: the clock moves on by one tick.
    pub fn tick(&mut self)
        requires
            old(self).spec_time() < u64::MAX,
        ensures
            final(self).same_setup(old(self)),
            final(self).spec_time() == old(self).spec_time() + 1,
    {
        self.time = self.time + 1;
    }
}

impl<In, Out, LT, PolicyType: Policy<LT>> SimpleSwitch<In, Out, LT, PolicyType> {
    /// The outputs that the policy, as it is now, names for `packet`.
    pub open spec fn targets_of<T: Packet<LT>>(&self, packet: &T) -> Set<usize> {
        self.spec_policy().routes()[packet.spec_destination()]
    }

    /// Serves one ready input, whose head item is `packet`, in a pass in
    /// which `occupied` outputs are already taken.
    ///
    /// The policy is asked once, for the outputs of the packet's destination.
    /// If none of them is taken, the packet is forwarded: it leaves its
    /// input, every one of its outputs receives a copy stamped with the
    /// present time plus the latency, and all of them are now taken. If any
    /// of them is taken, the packet stays at the head of its input and
    /// nothing is taken for it.
    pub fn forward<T: Packet<LT>>(&mut self, occupied: &mut FxHashSet<usize>, packet: &T) -> (sent:
        Option<Forward>)
        requires
            old(self).spec_policy().wf(),
            old(self).spec_policy().routes().contains_key(packet.spec_destination()),
            old(self).spec_time() + old(self).spec_latency() <= u64::MAX,
        ensures
            final(self).spec_policy().wf(),
            old(self).spec_policy().changes_to(
                packet.spec_destination(),
                &final(self).spec_policy(),
            ),
            final(self).input_map() == old(self).input_map(),
            final(self).output_map() == old(self).output_map(),
            final(self).spec_latency() == old(self).spec_latency(),
            final(self).spec_time() == old(self).spec_time(),
            final(occupied)@ == occupied_after(old(occupied)@, old(self).targets_of(packet)),
            match sent {
                Some(forward) => {
                    &&& admits(old(occupied)@, old(self).targets_of(packet))
                    &&& forward.targets@ == old(self).targets_of(packet)
                    &&& forward.time == old(self).spec_time() + old(self).spec_latency()
                },
                None => !admits(old(occupied)@, old(self).targets_of(packet)),
            },
    {
        let destination = packet.destination();
        let targets = self.policy.route(&destination);
        if claim(occupied, &targets) {
            Some(Forward { targets, time: self.time + self.latency })
        } else {
            None
        }
    }
}

impl<In, Out, LT, PolicyType> Switch<In, Out> for SimpleSwitch<In, Out, LT, PolicyType> {
    open spec fn accepts(&self, port: &Port<In, Out>) -> bool {
        self.is_free_for(port)
    }

    fn add_port(&mut self, port: Port<In, Out>)
        ensures
            final(self).input_map() == match port.input {
                Some(endpoint) => old(self).input_map().insert(port.id, endpoint),
                None => old(self).input_map(),
            },
            final(self).output_map() == match port.output {
                Some(endpoint) => old(self).output_map().insert(port.id, endpoint),
                None => old(self).output_map(),
            },
            final(self).spec_policy() == old(self).spec_policy(),
            final(self).spec_latency() == old(self).spec_latency(),
            final(self).spec_time() == old(self).spec_time(),
    {
        SimpleSwitch::add_port(self, port)
    }
}

} // verus!
