//! The engine: the one consumer of the queue, which applies each packet to the
//! book in the order in which the packets leave the queue.

use vstd::prelude::*;
use rtrb::Consumer;
use crate::book::OrderBook;
use crate::lemmas::lemma_replay_appends;
use crate::model::{replay, submit, Replay};
use crate::order::{Order, Packet, TradeExecution};
use crate::queue::pop_packet;

verus! {

/// The executions of a run of submissions as the model sees them.
pub open spec fn batches_view(batches: Seq<Vec<TradeExecution>>) -> Seq<Seq<TradeExecution>> {
    batches.map_values(|batch: Vec<TradeExecution>| batch@)
}

/// Applies what a poll of the queue gave. On a packet, the order in it is
/// submitted to the book and its executions are returned for publishing; on an
/// empty queue the book is left as it is and there is nothing to publish.
pub fn apply(book: &mut OrderBook, polled: Option<Packet>) -> (published: Option<
    Vec<TradeExecution>,
>)
    ensures
        polled is None ==> published is None && final(book)@ == old(book)@,
        polled matches Some(packet) ==> (published matches Some(executions) && executions@
            == submit(old(book)@, packet.order).executions) && final(book)@ == submit(
            old(book)@,
            packet.order,
        ).book,
{
    match polled {
        None => None,
        Some(packet) => Some(book.add_limit_order(packet.order)),
    }
}

/// Polls the queue once and applies what came. `None` means that the queue
/// was empty: the book is unchanged and the caller may spin, yield or park.
/// Otherwise some order left the queue and was submitted to the book; its
/// executions, possibly none, are returned.
pub fn step(consumer: &mut Consumer<Packet>, book: &mut OrderBook) -> (published: Option<
    Vec<TradeExecution>,
>)
    ensures
        published is None ==> final(book)@ == old(book)@,
        published matches Some(executions) ==> exists|order: Order|
            executions@ == (#[trigger] submit(old(book)@, order)).executions && final(book)@
                == submit(old(book)@, order).book,
{
    let polled = pop_packet(consumer);
    apply(book, polled)
}

/// Applies packets from the queue until it is empty or `limit` packets have
/// been taken. The result holds the executions of each packet, in the order
/// in which the packets left the queue; book and executions are those of
/// submitting the packets' orders one after the other.
pub fn drain(consumer: &mut Consumer<Packet>, book: &mut OrderBook, limit: usize) -> (batches: Vec<
    Vec<TradeExecution>,
>)
    ensures
        batches@.len() <= limit,
        exists|orders: Seq<Order>|
            orders.len() == batches@.len() && (#[trigger] replay(old(book)@, orders)) == (Replay {
                executions: batches_view(batches@),
                book: final(book)@,
            }),
{
    let ghost start = book@;
    let ghost mut taken: Seq<Order> = Seq::empty();
    let mut batches: Vec<Vec<TradeExecution>> = Vec::new();
    assert(batches_view(batches@) =~= Seq::<Seq<TradeExecution>>::empty());
    while batches.len() < limit
        invariant
            taken.len() == batches@.len() <= limit,
            replay(start, taken) == (Replay {
                executions: batches_view(batches@),
                book: book@,
            }),
        decreases limit - batches@.len(),
    {
        match pop_packet(consumer) {
            None => {
                break ;
            },
            Some(packet) => {
                let ghost done = batches_view(batches@);
                let executions = book.add_limit_order(packet.order);
                proof {
                    lemma_replay_appends(start, taken, packet.order);
                    taken = taken.push(packet.order);
                }
                batches.push(executions);
                assert(batches_view(batches@) =~= done.push(executions@));
            },
        }
    }
    batches
}

} // verus!
