//! Bookkeeping of the fan-out server's subscriber list.
//!
//! The server owns a roster of connected subscriber streams. New streams
//! are appended as the accepter hands them over; a subscriber whose pipe
//! broke is removed by index on the following iteration. On each
//! completed event the server writes one whole encoded message to every
//! subscriber in roster order, so no subscriber sees the bytes of two
//! events interleaved, and removing one subscriber leaves every other
//! subscriber its message.
//!
//! The roster is generic in the stream type: the sockets themselves live
//! with the caller, which performs the writes and reports which broke.

use vstd::prelude::*;

verus! {

/// The connected subscribers, in the order they arrived.
pub struct Subscribers<T> {
    pub streams: Vec<T>,
}

impl<T> View for Subscribers<T> {
    type V = Seq<T>;

    open spec fn view(&self) -> Seq<T> {
        self.streams@
    }
}

impl<T> Subscribers<T> {
    pub fn new() -> (r: Subscribers<T>)
        ensures
            r@ == Seq::<T>::empty(),
    {
        Subscribers { streams: Vec::new() }
    }

    pub fn len(&self) -> (n: usize)
        ensures
            n == self@.len(),
    {
        self.streams.len()
    }

    pub fn get(&self, i: usize) -> (s: &T)
        requires
            i < self@.len(),
        ensures
            *s == self@[i as int],
    {
        &self.streams[i]
    }

    /// Appends a newly accepted subscriber behind the existing ones.
    pub fn push_accepted(&mut self, s: T)
        ensures
            final(self)@ == old(self)@.push(s),
    {
        self.streams.push(s);
    }

    /// Removes exactly the subscriber at the given index; every other
    /// subscriber stays, in order.
    pub fn remove_at(&mut self, i: usize) -> (s: T)
        requires
            i < old(self)@.len(),
        ensures
            s == old(self)@[i as int],
            final(self)@ == old(self)@.remove(i as int),
            final(self)@.len() == old(self)@.len() - 1,
            forall|j: int| 0 <= j < i ==> final(self)@[j] == old(self)@[j],
            forall|j: int| i < j < old(self)@.len() ==> final(self)@[j - 1] == old(self)@[j],
    {
        self.streams.remove(i)
    }
}

/// One message per subscriber: each entry of the plan holds the whole
/// encoded event, so a subscriber receives an event's bytes as one unit,
/// never interleaved with another event's.
pub fn broadcast_plan<T>(subs: &Subscribers<T>, msg: &Vec<u8>) -> (plan: Vec<Vec<u8>>)
    ensures
        plan@.len() == subs@.len(),
        forall|i: int| 0 <= i < plan@.len() ==> (#[trigger] plan@[i])@ == msg@,
{
    let n = subs.len();
    let mut plan: Vec<Vec<u8>> = Vec::new();
    let mut i: usize = 0;
    while i < n
        invariant
            i <= n,
            plan@.len() == i,
            forall|j: int| 0 <= j < i ==> (#[trigger] plan@[j])@ == msg@,
        decreases n - i,
    {
        let mut m: Vec<u8> = Vec::new();
        m.extend_from_slice(msg.as_slice());
        proof {
            assert(m@ =~= msg@);
        }
        plan.push(m);
        i = i + 1;
    }
    plan
}

/// Pruning one subscriber loses nothing for the others: all of them are
/// still in the roster afterward, in order, and the next broadcast
/// addresses each of them.
pub proof fn lemma_prune_keeps_others<T>(roster: Seq<T>, i: int)
    requires
        0 <= i < roster.len(),
    ensures
        roster.remove(i).len() == roster.len() - 1,
        forall|j: int| 0 <= j < i ==> roster.remove(i)[j] == roster[j],
        forall|j: int| i < j < roster.len() ==> roster.remove(i)[j - 1] == roster[j],
{
}

} // verus!
