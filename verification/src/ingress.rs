//! Ingress: what happens to a submission between the transport and the queue.

use vstd::prelude::*;
use vstd::string::*;
use rtrb::Producer;
use crate::order::{Order, Packet};
use crate::queue::push_packet;

verus! {

/// What ingress did with one submission.
#[derive(Debug)]
pub enum Submission {
    /// The order is in the queue, on its way to the engine.
    Accepted,
    /// The queue was full; the order was not taken. The client may try again.
    Dropped,
    /// The submission was malformed; the order was not taken. The text says
    /// what was wrong.
    Rejected(String),
}

/// Whether the engine takes `order`: its quantity is positive.
pub open spec fn acceptable(order: Order) -> bool {
    order.quantity > 0
}

/// What a client is told of an order without quantity.
pub open spec fn zero_quantity_reason() -> Seq<char> {
    "quantity must be positive"@
}

/// The line that answers a submission.
pub open spec fn response_text(answer: Submission) -> Seq<char> {
    match answer {
        Submission::Accepted => "{\"status\":\"accepted\"}\n"@,
        Submission::Dropped => "{\"status\":\"dropped\",\"reason\":\"buffer_full\"}\n"@,
        Submission::Rejected(reason) => "{\"status\":\"error\",\"reason\":\""@ + reason@
            + "\"}\n"@,
    }
}

/// Checks an order before it may enter the queue: `Ok` exactly for an order
/// with positive quantity, else the reason it is turned away.
pub fn validate(order: &Order) -> (verdict: Result<(), String>)
    ensures
        verdict is Ok <==> acceptable(*order),
        verdict matches Err(reason) ==> reason@ == zero_quantity_reason(),
{
    if order.quantity > 0 {
        Ok(())
    } else {
        Err(String::from_str("quantity must be positive"))
    }
}

/// The answer to a submission that was offered to the queue: accepted if the
/// queue took the packet, dropped if the queue gave it back.
pub fn answer_for(pushed: Result<(), Packet>) -> (answer: Submission)
    ensures
        pushed is Ok ==> answer == Submission::Accepted,
        pushed is Err ==> answer == Submission::Dropped,
{
    match pushed {
        Ok(()) => Submission::Accepted,
        Err(_) => Submission::Dropped,
    }
}

/// Takes one parsed order at ingress. An order without quantity is rejected
/// and the queue is not touched; any other order is offered to the queue once,
/// and is accepted, or dropped if the queue was full.
pub fn submit_order(producer: &mut Producer<Packet>, order: Order) -> (answer: Submission)
    ensures
        !acceptable(order) ==> *final(producer) == *old(producer) && (answer matches Submission::Rejected(
            reason,
        ) && reason@ == zero_quantity_reason()),
        acceptable(order) ==> answer == Submission::Accepted || answer == Submission::Dropped,
{
    match validate(&order) {
        Err(reason) => Submission::Rejected(reason),
        Ok(()) => answer_for(push_packet(producer, Packet::new(order))),
    }
}

/// The line sent back to the client for `answer`, newline included. The reason
/// of a rejection is put between the quotes as it is.
pub fn response_line(answer: &Submission) -> (line: String)
    ensures
        line@ == response_text(*answer),
{
    match answer {
        Submission::Accepted => String::from_str("{\"status\":\"accepted\"}\n"),
        Submission::Dropped => String::from_str(
            "{\"status\":\"dropped\",\"reason\":\"buffer_full\"}\n",
        ),
        Submission::Rejected(reason) => {
            let mut line = String::from_str("{\"status\":\"error\",\"reason\":\"");
            line.append(reason.as_str());
            line.append("\"}\n");
            line
        },
    }
}

} // verus!
