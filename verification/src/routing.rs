//! What a switch is wired with: packets that name their destination, and
//! ports that bundle the endpoints attached under one id.

use vstd::prelude::*;

verus! {

/// Anything a switch can route: it names the location it is bound for.
pub trait Packet<LocationType> {
    /// The location the packet is bound for. A packet type states it; of one
    /// that does not, nothing is known.
    open spec fn spec_destination(&self) -> LocationType {
        arbitrary()
    }

    /// Reads the location the packet is bound for.
    fn destination(&self) -> (location: LocationType)
        ensures
            location == self.spec_destination(),
    ;
}

/// The endpoints attached to a switch under one id: where packets come in,
/// where they go out, or both.
pub struct Port<In, Out> {
    pub id: usize,
    pub input: Option<In>,
    pub output: Option<Out>,
}

/// Anything that ports can be attached to.
pub trait Switch<In, Out> {
    /// Whether `port` can be attached. A switch that keeps one endpoint for
    /// an id and a side states here which ids are free; one that states
    /// nothing takes any port.
    open spec fn accepts(&self, port: &Port<In, Out>) -> bool {
        true
    }

    /// Attaches the endpoints of `port` under its id.
    fn add_port(&mut self, port: Port<In, Out>)
        requires
            old(self).accepts(&port),
    ;
}

/// A packet that is nothing but a destination and a payload.
#[derive(Copy, Clone, Debug, Default)]
pub struct SimplePacket<LocationType, PayloadType> {
    pub location: LocationType,
    pub payload: PayloadType,
}

impl<LT: Copy, PT> Packet<LT> for SimplePacket<LT, PT> {
    open spec fn spec_destination(&self) -> LT {
        self.location
    }

    fn destination(&self) -> (location: LT) {
        self.location
    }
}

} // verus!
