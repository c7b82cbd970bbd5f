//! Framework-free graph vocabulary: typed identifiers, port directions and the
//! directional compatibility rule shared by every connection gesture.

use vstd::prelude::*;

pub mod subway;

verus! {

/// Identifier of a node. Any cloneable, hashable, debuggable value qualifies.
pub trait NodeId: Clone + Eq + std::hash::Hash + std::fmt::Debug + 'static {

}

/// Identifier of a port.
pub trait PortId: Clone + Eq + std::hash::Hash + std::fmt::Debug + 'static {

}

/// Identifier of a connection.
pub trait ConnectionId: Clone + Eq + std::hash::Hash + std::fmt::Debug + 'static {

}

/// A transparent typed identifier.
#[derive(Clone, Debug, PartialEq, Eq, Hash)]
pub struct Id<T>(pub T);

impl<T: Clone + Eq + std::hash::Hash + std::fmt::Debug + 'static> NodeId for Id<T> {

}

/// The data type carried by a port. Implementations decide which output kinds
/// may feed which input kinds; `spec_compatible` is the mathematical statement
/// of that decision and `compatible` must compute it.
pub trait PortType: Clone + PartialEq + std::fmt::Debug + Sized + 'static {
    spec fn spec_compatible(source: &Self, target: &Self) -> bool;

    fn compatible(source: &Self, target: &Self) -> (r: bool)
        ensures
            r == Self::spec_compatible(source, target),
    ;
}

/// Which side of a connection a port sits on.
#[derive(Clone, Copy, Debug, PartialEq, Eq, Hash, Structural)]
pub enum PortDirection {
    Input,
    Output,
}

/// A directed edge from an output port to an input port.
#[derive(Clone, Debug)]
pub struct Connection<P, C> {
    pub id: C,
    pub source: P,
    pub target: P,
}

/// Two ports of the given directions and kinds may be joined: they face in
/// opposite directions and the output's kind is compatible with the input's.
pub open spec fn spec_ports_connect<T: PortType>(
    a_direction: PortDirection,
    a_kind: &T,
    b_direction: PortDirection,
    b_kind: &T,
) -> bool {
    match (a_direction, b_direction) {
        (PortDirection::Output, PortDirection::Input) => T::spec_compatible(a_kind, b_kind),
        (PortDirection::Input, PortDirection::Output) => T::spec_compatible(b_kind, a_kind),
        _ => false,
    }
}

/// Decide whether a port `a` may be connected to a port `b`, in either
/// gesture order: the output side is always the compatibility source.
pub fn ports_connect<T: PortType>(
    a_direction: PortDirection,
    a_kind: &T,
    b_direction: PortDirection,
    b_kind: &T,
) -> (r: bool)
    ensures
        r == spec_ports_connect(a_direction, a_kind, b_direction, b_kind),
{
    match (a_direction, b_direction) {
        (PortDirection::Output, PortDirection::Input) => T::compatible(a_kind, b_kind),
        (PortDirection::Input, PortDirection::Output) => T::compatible(b_kind, a_kind),
        _ => false,
    }
}

/// Orient a pair of ports as `(source, target)`: the output port comes first.
/// `None` when both ports face the same way.
pub fn orient_pair(first: PortDirection, second: PortDirection) -> (r: Option<bool>)
    ensures
        r == (if first == second {
            None
        } else {
            Some(first == PortDirection::Output)
        }),
{
    match (first, second) {
        (PortDirection::Output, PortDirection::Input) => Some(true),
        (PortDirection::Input, PortDirection::Output) => Some(false),
        _ => None,
    }
}

/// The law behind every connection gesture: dragging from `a` to `b` or from
/// `b` to `a` is accepted or refused alike.
pub proof fn lemma_ports_connect_symmetric<T: PortType>(
    a_direction: PortDirection,
    a_kind: &T,
    b_direction: PortDirection,
    b_kind: &T,
)
    ensures
        spec_ports_connect(a_direction, a_kind, b_direction, b_kind) == spec_ports_connect(
            b_direction,
            b_kind,
            a_direction,
            a_kind,
        ),
{
}

/// Ports that face the same way never connect, whatever their kinds.
pub proof fn lemma_same_direction_never_connects<T: PortType>(
    direction: PortDirection,
    a_kind: &T,
    b_kind: &T,
)
    ensures
        !spec_ports_connect(direction, a_kind, direction, b_kind),
{
}

} // verus!
