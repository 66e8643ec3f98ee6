//! Fanning encoded metrics out to TCP clients: each client has a queue of messages waiting to be
//! written, and keeps the rest of a partly written message so that it never receives a broken
//! one.
use vstd::prelude::*;

verus! {

/// A client's write queue: the rest of a partly written message, and the messages waiting.
pub struct ClientQueue {
    partial: Option<Vec<u8>>,
    msgs: Vec<Vec<u8>>,
}

/// The byte views of messages.
pub open spec fn messages_view(ms: Seq<Vec<u8>>) -> Seq<Seq<u8>> {
    ms.map_values(|m: Vec<u8>| m@)
}

/// How many waiting messages are dropped to make room for `incoming` new ones, when `waiting`
/// wait and the queue holds `limit`.
pub open spec fn to_drop(waiting: int, incoming: int, limit: int) -> int {
    let available = if waiting < limit {
        limit - waiting
    } else {
        0
    };
    if incoming > available {
        incoming - available
    } else {
        0
    }
}

/// What happened to a write.
pub enum WriteStep {
    /// All of it was written: go on with the next message.
    Continue,
    /// Part of it was written; the rest is kept for later.
    Blocked,
    /// Nothing was written: the client has closed its connection.
    Closed,
}

impl View for ClientQueue {
    type V = (Option<Seq<u8>>, Seq<Seq<u8>>);

    closed spec fn view(&self) -> (Option<Seq<u8>>, Seq<Seq<u8>>) {
        (
            match self.partial {
                Some(p) => Some(p@),
                None => None,
            },
            messages_view(self.msgs@),
        )
    }
}

fn copy_bytes(v: &Vec<u8>, from: usize) -> (r: Vec<u8>)
    requires
        from <= v@.len(),
    ensures
        r@ == v@.skip(from as int),
{
    let mut out: Vec<u8> = Vec::new();
    let mut i = from;
    while i < v.len()
        invariant
            from <= i <= v@.len(),
            out@ == v@.subrange(from as int, i as int),
        decreases v@.len() - i,
    {
        out.push(v[i]);
        proof {
            assert(v@.subrange(from as int, i + 1) =~= v@.subrange(from as int, i as int).push(v@[i as int]));
        }
        i = i + 1;
    }
    proof {
        assert(v@.subrange(from as int, v@.len() as int) =~= v@.skip(from as int));
    }
    out
}

impl ClientQueue {
    /// An empty queue.
    pub fn new() -> (r: ClientQueue)
        ensures
            r@ == (None::<Seq<u8>>, Seq::<Seq<u8>>::empty()),
    {
        let r = ClientQueue { partial: None, msgs: Vec::new() };
        assert(messages_view(r.msgs@) =~= Seq::<Seq<u8>>::empty());
        r
    }

    /// Hands the client new messages, preferring newer ones when it is backed up: as many of the
    /// oldest waiting messages are dropped as needed to make room for the new ones within
    /// `buffer_limit`, then the new ones (at most `buffer_limit` of them) are appended.
    pub fn enqueue(&mut self, incoming: &[Vec<u8>], buffer_limit: usize)
        requires
            to_drop(old(self)@.1.len() as int, incoming@.len() as int, buffer_limit as int)
                <= old(self)@.1.len(),
        ensures
            final(self)@.0 == old(self)@.0,
            final(self)@.1 == old(self)@.1.skip(
                to_drop(old(self)@.1.len() as int, incoming@.len() as int, buffer_limit as int),
            ) + messages_view(incoming@).take(
                if incoming@.len() < buffer_limit {
                    incoming@.len() as int
                } else {
                    buffer_limit as int
                },
            ),
    {
        let waiting = self.msgs.len();
        let available = if waiting < buffer_limit {
            buffer_limit - waiting
        } else {
            0
        };
        let drop_count = if incoming.len() > available {
            incoming.len() - available
        } else {
            0
        };
        let take = if incoming.len() < buffer_limit {
            incoming.len()
        } else {
            buffer_limit
        };
        let ghost old_msgs = messages_view(self.msgs@);
        let mut kept = self.msgs.split_off(drop_count);
        proof {
            assert(messages_view(kept@) =~= old_msgs.skip(drop_count as int));
        }
        let mut j: usize = 0;
        while j < take
            invariant
                j <= take <= incoming@.len(),
                messages_view(kept@) == old_msgs.skip(drop_count as int) + messages_view(
                    incoming@,
                ).take(j as int),
            decreases take - j,
        {
            let copy = copy_bytes(&incoming[j], 0);
            proof {
                assert(copy@ =~= incoming@[j as int]@);
            }
            let ghost before = kept@;
            kept.push(copy);
            proof {
                assert(messages_view(kept@) =~= messages_view(before).push(copy@));
                assert(messages_view(incoming@).take(j + 1) =~= messages_view(incoming@).take(
                    j as int,
                ).push(incoming@[j as int]@));
                assert(messages_view(kept@) =~= old_msgs.skip(drop_count as int) + messages_view(
                    incoming@,
                ).take(j + 1));
            }
            j = j + 1;
        }
        self.msgs = kept;
    }

    /// The next thing to write: the rest of a partly written message if there is one, otherwise
    /// the oldest waiting message, which leaves the queue.
    pub fn next_to_write(&mut self) -> (r: Option<Vec<u8>>)
        ensures
            match old(self)@.0 {
                Some(p) => r matches Some(b) && b@ == p && final(self)@ == (None::<Seq<u8>>, old(
                    self,
                )@.1),
                None => if old(self)@.1.len() == 0 {
                    r is None && final(self)@ == old(self)@
                } else {
                    r matches Some(b) && b@ == old(self)@.1[0] && final(self)@ == (
                        None::<Seq<u8>>,
                        old(self)@.1.drop_first(),
                    )
                },
            },
    {
        if let Some(p) = self.partial.take() {
            return Some(p);
        }
        if self.msgs.len() == 0 {
            return None;
        }
        let first = self.msgs.remove(0);
        proof {
            assert(messages_view(self.msgs@) =~= messages_view(old(self).msgs@).drop_first());
        }
        Some(first)
    }

    /// Records the outcome of writing `written` bytes of `buf`: nothing written means the client
    /// closed its connection; part of it keeps the rest for the next write; all of it goes on.
    pub fn after_write(&mut self, buf: Vec<u8>, written: usize) -> (r: WriteStep)
        requires
            old(self)@.0 is None,
            written <= buf@.len(),
        ensures
            written == 0 ==> r is Closed && final(self)@ == old(self)@,
            0 < written < buf@.len() ==> r is Blocked && final(self)@ == (
                Some(buf@.skip(written as int)),
                old(self)@.1,
            ),
            0 < written && written == buf@.len() ==> r is Continue && final(self)@ == old(self)@,
    {
        if written == 0 {
            WriteStep::Closed
        } else if written < buf.len() {
            let mut head = buf;
            let rest = head.split_off(written);
            self.partial = Some(rest);
            WriteStep::Blocked
        } else {
            WriteStep::Continue
        }
    }
}

/// What to do next when woken for new metrics.
pub enum IntakeStep {
    /// Receive the next metric, if one is waiting.
    Receive,
    /// The buffer is full: stop receiving, and schedule another wake-up to receive the rest.
    Rewake,
}

/// The encoded metrics received on one wake-up, before they are fanned out to the clients.
///
/// At most `buffer_limit` messages are taken in per wake-up: once the buffer holds that many,
/// the rest wait on the channel for the next wake-up.
pub struct MetricIntake {
    buffered: Vec<Vec<u8>>,
    limit: usize,
}

impl View for MetricIntake {
    type V = Seq<Seq<u8>>;

    /// The messages received so far, oldest first.
    closed spec fn view(&self) -> Seq<Seq<u8>> {
        messages_view(self.buffered@)
    }
}

impl MetricIntake {
    /// The most messages taken in per wake-up.
    pub closed spec fn spec_limit(&self) -> usize {
        self.limit
    }

    /// The buffer never holds more than the limit.
    pub closed spec fn wf(&self) -> bool {
        self.buffered@.len() <= self.limit
    }

    /// An empty intake; without a buffer size, the limit is `usize::MAX`.
    pub fn new(buffer_size: Option<usize>) -> (r: MetricIntake)
        ensures
            r.wf(),
            r@ == Seq::<Seq<u8>>::empty(),
            r.spec_limit() == match buffer_size {
                Some(n) => n,
                None => usize::MAX,
            },
    {
        let limit = match buffer_size {
            Some(n) => n,
            None => usize::MAX,
        };
        let r = MetricIntake { buffered: Vec::new(), limit };
        assert(r@ =~= Seq::<Seq<u8>>::empty());
        r
    }

    /// Whether to receive another message, or to stop and wake up again later.
    pub fn next_step(&self) -> (r: IntakeStep)
        ensures
            r is Rewake <==> self@.len() >= self.spec_limit(),
    {
        if self.buffered.len() >= self.limit {
            IntakeStep::Rewake
        } else {
            IntakeStep::Receive
        }
    }

    /// Buffers a received message; only done while there is room.
    pub fn push(&mut self, msg: Vec<u8>)
        requires
            old(self).wf(),
            old(self)@.len() < old(self).spec_limit(),
        ensures
            final(self).wf(),
            final(self)@ == old(self)@.push(msg@),
            final(self).spec_limit() == old(self).spec_limit(),
    {
        let ghost before = self.buffered@;
        self.buffered.push(msg);
        proof {
            assert(messages_view(self.buffered@) =~= messages_view(before).push(msg@));
        }
    }

    /// The buffered messages, for fanning out; the buffer is left empty.
    pub fn take(&mut self) -> (r: Vec<Vec<u8>>)
        requires
            old(self).wf(),
        ensures
            final(self).wf(),
            messages_view(r@) == old(self)@,
            r@.len() <= old(self).spec_limit(),
            final(self)@ == Seq::<Seq<u8>>::empty(),
            final(self).spec_limit() == old(self).spec_limit(),
    {
        let mut out: Vec<Vec<u8>> = Vec::new();
        std::mem::swap(&mut out, &mut self.buffered);
        proof {
            assert(messages_view(self.buffered@) =~= Seq::<Seq<u8>>::empty());
        }
        out
    }
}

/// Fanning out what one wake-up took in keeps a client's queue within the limit, and the new
/// messages are all kept, after the newest of the messages that were waiting.
pub proof fn lemma_fan_out_stays_within_limit(waiting: Seq<Seq<u8>>, incoming: Seq<Seq<u8>>, limit: int)
    requires
        waiting.len() <= limit,
        incoming.len() <= limit,
    ensures
        ({
            let dropped = to_drop(waiting.len() as int, incoming.len() as int, limit);
            let after = waiting.skip(dropped) + incoming;
            &&& 0 <= dropped <= waiting.len()
            &&& after.len() <= limit
            &&& after.skip(after.len() - incoming.len()) == incoming
        }),
{
    let dropped = to_drop(waiting.len() as int, incoming.len() as int, limit);
    let after = waiting.skip(dropped) + incoming;
    assert(after.skip(after.len() - incoming.len()) =~= incoming);
}

} // verus!
