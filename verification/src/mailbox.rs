//! A ground station that leaves messages for satellites in a mailbox, from
//! which each satellite collects the oldest message addressed to it.

use vstd::prelude::*;

verus! {

/// A satellite, known by its identifier.
#[derive(Debug)]
pub struct CubeSat {
    pub id: u64,
}

/// A message for the satellite `to`.
#[derive(Debug)]
pub struct Message {
    pub to: u64,
    pub content: String,
}

/// The messages that wait for collection, oldest first.
#[derive(Debug)]
pub struct Mailbox {
    pub messages: Vec<Message>,
}

/// The station that sends the messages.
pub struct GroundStation;

/// The position of the oldest message for `id`, or the number of messages
/// where none is for it.
pub open spec fn first_for(messages: Seq<Message>, id: u64) -> int
    decreases messages.len(),
{
    if messages.len() == 0 {
        0
    } else if messages[0].to == id {
        0
    } else {
        1 + first_for(messages.drop_first(), id)
    }
}

/// The position that `first_for` gives holds the first message for `id`.
pub proof fn lemma_first_for(messages: Seq<Message>, id: u64)
    ensures
        0 <= first_for(messages, id) <= messages.len(),
        first_for(messages, id) < messages.len() ==> messages[first_for(messages, id)].to == id,
        forall|j: int| 0 <= j < first_for(messages, id) ==> messages[j].to != id,
    decreases messages.len(),
{
    if messages.len() > 0 && messages[0].to != id {
        let rest = messages.drop_first();
        lemma_first_for(rest, id);
        assert forall|j: int| 0 <= j < first_for(messages, id) implies messages[j].to != id by {
            if j > 0 {
                assert(rest[j - 1] == messages[j]);
            }
        }
    }
}

/// The first position with a message for `id` is the one that `first_for` gives.
pub proof fn lemma_first_for_is(messages: Seq<Message>, id: u64, i: int)
    requires
        0 <= i <= messages.len(),
        forall|j: int| 0 <= j < i ==> messages[j].to != id,
        i < messages.len() ==> messages[i].to == id,
    ensures
        first_for(messages, id) == i,
{
    lemma_first_for(messages, id);
    let f = first_for(messages, id);
    if f < i {
        assert(messages[f].to != id);
    }
}

impl Mailbox {
    /// A mailbox without messages.
    pub fn new() -> (mailbox: Mailbox)
        ensures
            mailbox.messages@ == Seq::<Message>::empty(),
    {
        Mailbox { messages: Vec::new() }
    }

    /// Leaves `msg` behind the messages that wait.
    pub fn post(&mut self, msg: Message)
        ensures
            final(self).messages@ == old(self).messages@.push(msg),
    {
        self.messages.push(msg);
    }

    /// Takes the oldest message for `recipient` out of the mailbox. The others
    /// stay in their order; where none is for it, nothing changes.
    pub fn deliver(&mut self, recipient: &CubeSat) -> (msg: Option<Message>)
        ensures
            ({
                let i = first_for(old(self).messages@, recipient.id);
                if i < old(self).messages@.len() {
                    &&& msg == Some(old(self).messages@[i])
                    &&& final(self).messages@ == old(self).messages@.remove(i)
                } else {
                    &&& msg is None
                    &&& final(self).messages@ == old(self).messages@
                }
            }),
    {
        let mut i: usize = 0;
        while i < self.messages.len()
            invariant
                self.messages@ == old(self).messages@,
                i <= self.messages@.len(),
                forall|j: int| 0 <= j < i ==> self.messages@[j].to != recipient.id,
            decreases self.messages@.len() - i,
        {
            if self.messages[i].to == recipient.id {
                proof {
                    lemma_first_for_is(self.messages@, recipient.id, i as int);
                }
                let msg = self.messages.remove(i);
                return Some(msg);
            }
            i += 1;
        }
        proof {
            lemma_first_for_is(self.messages@, recipient.id, i as int);
        }
        None
    }
}

impl GroundStation {
    /// The satellite with the identifier `sat_id`.
    pub fn connect(&self, sat_id: u64) -> (sat: CubeSat)
        ensures
            sat.id == sat_id,
    {
        CubeSat { id: sat_id }
    }

    /// Leaves `msg` in `mailbox`.
    pub fn send(&self, mailbox: &mut Mailbox, msg: Message)
        ensures
            final(mailbox).messages@ == old(mailbox).messages@.push(msg),
    {
        mailbox.post(msg);
    }
}

impl CubeSat {
    /// Collects the oldest message for this satellite from `mailbox`.
    pub fn recv(&self, mailbox: &mut Mailbox) -> (msg: Option<Message>)
        ensures
            ({
                let i = first_for(old(mailbox).messages@, self.id);
                if i < old(mailbox).messages@.len() {
                    &&& msg == Some(old(mailbox).messages@[i])
                    &&& final(mailbox).messages@ == old(mailbox).messages@.remove(i)
                } else {
                    &&& msg is None
                    &&& final(mailbox).messages@ == old(mailbox).messages@
                }
            }),
    {
        mailbox.deliver(self)
    }
}

/// The identifiers of the satellites in orbit.
pub fn fetch_ids() -> (ids: Vec<u64>)
    ensures
        ids@ == seq![1u64, 2u64, 3u64],
{
    let mut ids: Vec<u64> = Vec::new();
    ids.push(1);
    ids.push(2);
    ids.push(3);
    assert(ids@ =~= seq![1u64, 2u64, 3u64]);
    ids
}

} // verus!
