//! The bounded single-producer single-consumer queue between ingress and the
//! engine: `rtrb`'s ring buffer, carrying packets.
//!
//! The two endpoints live on different threads, so what one endpoint sees
//! depends on what the other has done in the meantime. The contracts here
//! state only what holds whatever the other thread did.

use vstd::prelude::*;
use rtrb::{Consumer, Producer};
use crate::order::Packet;

verus! {

/// `rtrb::Producer`, the writing endpoint of a ring buffer. Verus carries it
/// through without looking inside.
#[verifier::external_type_specification]
#[verifier::external_body]
#[verifier::reject_recursive_types(T)]
pub struct ExProducer<T>(rtrb::Producer<T>);

/// `rtrb::Consumer`, the reading endpoint of a ring buffer. Verus carries it
/// through without looking inside.
#[verifier::external_type_specification]
#[verifier::external_body]
#[verifier::reject_recursive_types(T)]
pub struct ExConsumer<T>(rtrb::Consumer<T>);

/// The capacity used when none is configured.
pub const DEFAULT_QUEUE_CAPACITY: usize = 4096;

/// Whether a queue of `capacity` packets can be made: it has at least one
/// slot, and its slots fit in the largest allocation the machine offers.
pub open spec fn capacity_allowed(capacity: usize) -> bool {
    1 <= capacity <= isize::MAX && capacity * vstd::layout::size_of::<Packet>() <= isize::MAX
}

/// Calls `rtrb::RingBuffer::new`, which allocates `capacity` slots and hands
/// out the two endpoints of the new, empty buffer. The allocation panics when
/// the slots take more than `isize::MAX` bytes, and the buffer counts
/// positions up to twice its capacity, so larger capacities are left out.
/// Nothing is claimed of the endpoints.
#[verifier::external_body]
fn ring_buffer(capacity: usize) -> (ends: (Producer<Packet>, Consumer<Packet>))
    requires
        capacity <= isize::MAX,
        capacity * vstd::layout::size_of::<Packet>() <= isize::MAX,
{
    rtrb::RingBuffer::new(capacity)
}

/// Calls `rtrb::Producer::push`, which either moves the packet into the buffer
/// or, when the buffer is full, gives it back as the error. Whether the buffer
/// is full depends on the consumer's thread; the contract states only that
/// the packet given back is the one that was offered.
#[verifier::external_body]
pub(crate) fn push_packet(producer: &mut Producer<Packet>, packet: Packet) -> (pushed: Result<
    (),
    Packet,
>)
    ensures
        pushed matches Err(back) ==> back == packet,
{
    match producer.push(packet) {
        Ok(()) => Ok(()),
        Err(rtrb::PushError::Full(back)) => Err(back),
    }
}

/// Calls `rtrb::Consumer::pop`, which moves the oldest packet out of the
/// buffer, or reports that the buffer is empty. What comes out depends on the
/// producer's thread, so nothing is claimed of it.
#[verifier::external_body]
pub(crate) fn pop_packet(consumer: &mut Consumer<Packet>) -> (popped: Option<Packet>) {
    match consumer.pop() {
        Ok(packet) => Some(packet),
        Err(rtrb::PopError::Empty) => None,
    }
}

/// Opens a queue of `capacity` packets and returns its two endpoints, the
/// producer's for ingress and the consumer's for the engine. Returns `None`
/// for a capacity of zero, and for one whose slots would not fit in memory.
pub fn packet_queue(capacity: usize) -> (ends: Option<(Producer<Packet>, Consumer<Packet>)>)
    ensures
        ends is Some <==> capacity_allowed(capacity),
{
    let width: usize = core::mem::size_of::<Packet>();
    let most: usize = isize::MAX as usize;
    if capacity == 0 || capacity > most {
        return None;
    }
    if width > 0 {
        if capacity > most / width {
            assert(capacity * width > isize::MAX) by (nonlinear_arith)
                requires
                    capacity > most / width,
                    most == isize::MAX,
                    width > 0,
            ;
            return None;
        }
        assert(capacity * width <= isize::MAX) by (nonlinear_arith)
            requires
                capacity <= most / width,
                most == isize::MAX,
                width > 0,
        ;
    } else {
        assert(capacity * width == 0) by (nonlinear_arith)
            requires
                width == 0,
        ;
    }
    Some(ring_buffer(capacity))
}

} // verus!
