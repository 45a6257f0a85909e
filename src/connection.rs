use vstd::prelude::*;
use crate::event_set::EventSet;

verus! {

/// Size of the scratch chunk that each read of a client socket fills.
pub const CHUNK_SIZE: usize = 1024;

/// What one bounded read of a client socket gave.
pub enum ReadOutcome {
    /// The bytes read, at most `CHUNK_SIZE` of them; fewer than that means
    /// that nothing more is available right now.
    Data(Vec<u8>),
    /// The socket has nothing to hand out right now ("try again later").
    WouldBlock,
    /// The read failed for good.
    Failed,
}

/// The mathematical value of a `ReadOutcome`.
pub enum ReadView {
    Data(Seq<u8>),
    WouldBlock,
    Failed,
}

impl View for ReadOutcome {
    type V = ReadView;

    open spec fn view(&self) -> ReadView {
        match self {
            ReadOutcome::Data(b) => ReadView::Data(b@),
            ReadOutcome::WouldBlock => ReadView::WouldBlock,
            ReadOutcome::Failed => ReadView::Failed,
        }
    }
}

/// Where the drain of a readable socket stands after one read.
#[derive(Clone, Copy, Debug, PartialEq, Eq, Structural)]
pub enum Drain {
    /// A full chunk came in: read again.
    ReadMore,
    /// The drain is over and what came in is queued as one outbound message.
    Complete,
}

/// The read failed: the connection is to be closed.
#[derive(Clone, Copy, Debug, PartialEq, Eq, Structural)]
pub struct ReadFailed;

/// One client connection: its token, the interest it registers with, the
/// outbound queue and the bytes of the drain in progress.
pub struct Connection {
    token: usize,
    interest: EventSet,
    send_queue: Vec<Vec<u8>>,
    inbound: Vec<u8>,
}

/// The mathematical value of a `Connection`.
pub struct ConnectionView {
    pub token: usize,
    pub interest: EventSet,
    pub queue: Seq<Seq<u8>>,
    pub inbound: Seq<u8>,
}

impl View for Connection {
    type V = ConnectionView;

    closed spec fn view(&self) -> ConnectionView {
        ConnectionView {
            token: self.token,
            interest: self.interest,
            queue: self.send_queue@.map_values(|m: Vec<u8>| m@),
            inbound: self.inbound@,
        }
    }
}

/// Writable interest is asserted exactly while the outbound queue is non-empty.
pub open spec fn writable_tracks_queue(v: ConnectionView) -> bool {
    v.interest.writable == (v.queue.len() > 0)
}

/// The state of a freshly accepted connection.
pub open spec fn fresh(token: usize) -> ConnectionView {
    ConnectionView {
        token,
        interest: EventSet { readable: false, writable: false, error: false, hup: true },
        queue: Seq::empty(),
        inbound: Seq::empty(),
    }
}

/// `v` with message `m` appended to the outbound queue and writable asserted.
pub open spec fn queued(v: ConnectionView, m: Seq<u8>) -> ConnectionView {
    ConnectionView {
        queue: v.queue.push(m),
        interest: EventSet { writable: true, ..v.interest },
        ..v
    }
}

/// The effect of one read on a connection, and what the drain does next.
pub open spec fn read_step(v: ConnectionView, r: ReadView) -> (ConnectionView, Result<Drain, ReadFailed>) {
    match r {
        ReadView::Data(b) => if b.len() == CHUNK_SIZE {
            (ConnectionView { inbound: v.inbound + b, ..v }, Ok(Drain::ReadMore))
        } else {
            (queued(ConnectionView { inbound: Seq::empty(), ..v }, v.inbound + b), Ok(Drain::Complete))
        },
        ReadView::WouldBlock =>
            (queued(ConnectionView { inbound: Seq::empty(), ..v }, v.inbound), Ok(Drain::Complete)),
        ReadView::Failed => (ConnectionView { inbound: Seq::empty(), ..v }, Err(ReadFailed)),
    }
}

/// The effect of one writable event: the message handed to the socket, if any.
pub open spec fn write_step(v: ConnectionView) -> (ConnectionView, Option<Seq<u8>>) {
    if v.queue.len() == 0 {
        (v, None)
    } else {
        let q = v.queue.drop_last();
        (ConnectionView { queue: q, interest: EventSet { writable: q.len() > 0 && v.interest.writable, ..v.interest }, ..v },
         Some(v.queue.last()))
    }
}

/// The bytes of an optional message.
pub open spec fn message_view(m: Option<Vec<u8>>) -> Option<Seq<u8>> {
    match m {
        Some(b) => Some(b@),
        None => None,
    }
}

/// Runs a sequence of reads through `read_step`: the final state and the
/// result of each read.
pub open spec fn drain(v: ConnectionView, reads: Seq<ReadView>) -> (ConnectionView, Seq<Result<Drain, ReadFailed>>)
    decreases reads.len(),
{
    if reads.len() == 0 {
        (v, Seq::empty())
    } else {
        let (v1, s1) = read_step(v, reads[0]);
        let (v2, rest) = drain(v1, reads.drop_first());
        (v2, seq![s1] + rest)
    }
}

/// The full-chunk reads that a socket holding `b` gives before its last read.
pub open spec fn chunk_reads(b: Seq<u8>) -> Seq<ReadView>
    decreases b.len(),
{
    if b.len() < CHUNK_SIZE {
        Seq::empty()
    } else {
        seq![ReadView::Data(b.take(CHUNK_SIZE as int))] + chunk_reads(b.skip(CHUNK_SIZE as int))
    }
}

/// What of `b` is left after its full chunks.
pub open spec fn remainder(b: Seq<u8>) -> Seq<u8>
    decreases b.len(),
{
    if b.len() < CHUNK_SIZE {
        b
    } else {
        remainder(b.skip(CHUNK_SIZE as int))
    }
}

/// The last read of a burst `b`: the short read of its remainder or, where
/// the remainder is empty, a read that would block.
pub open spec fn is_last_read(b: Seq<u8>, last: ReadView) -> bool {
    last == ReadView::Data(remainder(b)) || (remainder(b).len() == 0 && last == ReadView::WouldBlock)
}

proof fn lemma_drain_burst(v: ConnectionView, b: Seq<u8>, last: ReadView)
    requires
        is_last_read(b, last),
    ensures
        drain(v, chunk_reads(b).push(last)).0
            == queued(ConnectionView { inbound: Seq::empty(), ..v }, v.inbound + b),
        drain(v, chunk_reads(b).push(last)).1.len() == chunk_reads(b).len() + 1,
        drain(v, chunk_reads(b).push(last)).1.last() == Ok::<Drain, ReadFailed>(Drain::Complete),
        forall|i: int| 0 <= i < chunk_reads(b).len() ==>
            #[trigger] drain(v, chunk_reads(b).push(last)).1[i] == Ok::<Drain, ReadFailed>(Drain::ReadMore),
    decreases b.len(),
{
    let reads = chunk_reads(b).push(last);
    if b.len() < CHUNK_SIZE {
        assert(reads =~= seq![last]);
        assert(reads.drop_first() =~= Seq::<ReadView>::empty());
        reveal_with_fuel(drain, 2);
        if last == ReadView::WouldBlock {
            assert(v.inbound + b =~= v.inbound);
        }
    } else {
        let head = b.take(CHUNK_SIZE as int);
        let rest = b.skip(CHUNK_SIZE as int);
        assert(reads =~= seq![ReadView::Data(head)] + chunk_reads(rest).push(last));
        assert(reads.drop_first() =~= chunk_reads(rest).push(last));
        let v1 = ConnectionView { inbound: v.inbound + head, ..v };
        assert(read_step(v, reads[0]) == (v1, Ok::<Drain, ReadFailed>(Drain::ReadMore)));
        lemma_drain_burst(v1, rest, last);
        assert(v1.inbound + rest =~= v.inbound + b) by {
            assert(b =~= head + rest);
        }
        let d = drain(v1, chunk_reads(rest).push(last));
        assert(drain(v, reads).1 == seq![Ok::<Drain, ReadFailed>(Drain::ReadMore)] + d.1);
        assert forall|i: int| 0 <= i < chunk_reads(b).len() implies
            #[trigger] drain(v, reads).1[i] == Ok::<Drain, ReadFailed>(Drain::ReadMore) by {
            if i > 0 {
                assert(drain(v, reads).1[i] == d.1[i - 1]);
            }
        }
    }
}

/// Echo round trip: whatever bytes `b` a client sends in one burst, the
/// drain of a connection that was not in the middle of one reads the full
/// chunks of `b` (each asking for another read) and then its last read (the
/// short remainder or, where `b` is an exact number of chunks, a read that
/// would block), ends there, and queues exactly `b`; the next writable event
/// hands `b` to the socket.
pub proof fn lemma_echo_round_trip(v: ConnectionView, b: Seq<u8>, last: ReadView)
    requires
        v.inbound.len() == 0,
        is_last_read(b, last),
    ensures
        drain(v, chunk_reads(b).push(last)).0 == queued(v, b),
        drain(v, chunk_reads(b).push(last)).1.last() == Ok::<Drain, ReadFailed>(Drain::Complete),
        forall|i: int| 0 <= i < chunk_reads(b).len() ==>
            #[trigger] drain(v, chunk_reads(b).push(last)).1[i] == Ok::<Drain, ReadFailed>(Drain::ReadMore),
        write_step(drain(v, chunk_reads(b).push(last)).0).1 == Some(b),
{
    lemma_drain_burst(v, b, last);
    assert(v.inbound + b =~= b);
    assert(v.inbound =~= Seq::<u8>::empty());
    assert(ConnectionView { inbound: Seq::empty(), ..v } == v);
    assert(queued(v, b).queue.drop_last() =~= v.queue);
}

impl Connection {
    /// Whether the connection keeps its interest in step with its queue.
    pub open spec fn wf(&self) -> bool {
        writable_tracks_queue(self@)
    }

    /// A connection under `token`, interested in hang-up only, with nothing queued.
    pub fn new(token: usize) -> (r: Connection)
        ensures
            r@ == fresh(token),
            r.wf(),
    {
        let r = Connection {
            token,
            interest: EventSet::hup(),
            send_queue: Vec::new(),
            inbound: Vec::new(),
        };
        assert(r@.queue =~= Seq::empty());
        r
    }

    pub fn token(&self) -> (r: usize)
        ensures
            r == self@.token,
    {
        self.token
    }

    pub fn interest(&self) -> (r: EventSet)
        ensures
            r == self@.interest,
    {
        self.interest
    }

    /// Number of messages waiting to be written.
    pub fn queue_len(&self) -> (r: usize)
        ensures
            r == self@.queue.len(),
    {
        self.send_queue.len()
    }

    /// Appends `message` to the outbound queue and asserts writable interest.
    pub fn send_message(&mut self, message: Vec<u8>)
        ensures
            final(self)@ == queued(old(self)@, message@),
            old(self).wf() ==> final(self).wf(),
    {
        self.send_queue.push(message);
        self.interest.writable = true;
        proof {
            assert(self@.queue =~= old(self)@.queue.push(message@));
        }
    }

    /// Takes in the outcome of one read of the socket during a drain.
    ///
    /// A full chunk is kept and asks for another read. A shorter chunk, or a
    /// read that would block, ends the drain: everything kept, in the order it
    /// came, becomes one outbound message. A failed read drops what was kept
    /// and reports the failure.
    pub fn readable(&mut self, outcome: ReadOutcome) -> (r: Result<Drain, ReadFailed>)
        requires
            outcome matches ReadOutcome::Data(b) ==> b@.len() <= CHUNK_SIZE,
        ensures
            (final(self)@, r) == read_step(old(self)@, outcome@),
            old(self).wf() ==> final(self).wf(),
    {
        match outcome {
            ReadOutcome::Data(b) => {
                let n = b.len();
                append_bytes(&mut self.inbound, &b);
                if n == CHUNK_SIZE {
                    Ok(Drain::ReadMore)
                } else {
                    let message = self.take_inbound();
                    self.send_message(message);
                    Ok(Drain::Complete)
                }
            },
            ReadOutcome::WouldBlock => {
                let message = self.take_inbound();
                self.send_message(message);
                Ok(Drain::Complete)
            },
            ReadOutcome::Failed => {
                self.inbound = Vec::new();
                Err(ReadFailed)
            },
        }
    }

    /// Hands out the bytes kept so far and leaves none.
    fn take_inbound(&mut self) -> (r: Vec<u8>)
        ensures
            r@ == old(self)@.inbound,
            final(self)@ == (ConnectionView { inbound: Seq::empty(), ..old(self)@ }),
    {
        let mut r: Vec<u8> = Vec::new();
        std::mem::swap(&mut r, &mut self.inbound);
        r
    }

    /// Removes the most recently queued message and returns it for writing;
    /// clears writable interest when the queue becomes empty. With nothing
    /// queued it changes nothing and returns `None`.
    pub fn writable(&mut self) -> (r: Option<Vec<u8>>)
        ensures
            (final(self)@, message_view(r)) == write_step(old(self)@),
            old(self).wf() ==> final(self).wf(),
    {
        match self.send_queue.pop() {
            None => {
                assert(old(self)@.queue.len() == 0);
                None
            },
            Some(m) => {
                if self.send_queue.len() == 0 {
                    self.interest.writable = false;
                }
                proof {
                    assert(self@.queue =~= old(self)@.queue.drop_last());
                    let k = old(self).send_queue@.len() - 1;
                    assert(old(self)@.queue[k] == old(self).send_queue@[k]@);
                }
                Some(m)
            },
        }
    }

    /// Asserts readable interest and returns the interest to register the
    /// socket with.
    pub fn register(&mut self) -> (r: EventSet)
        ensures
            final(self)@ == (ConnectionView {
                interest: EventSet { readable: true, ..old(self)@.interest },
                ..old(self)@
            }),
            r == final(self)@.interest,
            old(self).wf() ==> final(self).wf(),
    {
        self.interest.readable = true;
        self.interest
    }

    /// Asserts readable interest again and returns the interest to re-arm
    /// the socket's registration with.
    pub fn reregister(&mut self) -> (r: EventSet)
        ensures
            final(self)@ == (ConnectionView {
                interest: EventSet { readable: true, ..old(self)@.interest },
                ..old(self)@
            }),
            r == final(self)@.interest,
            old(self).wf() ==> final(self).wf(),
    {
        self.interest.readable = true;
        self.interest
    }
}

/// Appends the bytes of `src` to `dst`.
fn append_bytes(dst: &mut Vec<u8>, src: &Vec<u8>)
    ensures
        final(dst)@ == old(dst)@ + src@,
{
    let mut i: usize = 0;
    while i < src.len()
        invariant
            i <= src@.len(),
            dst@ == old(dst)@ + src@.subrange(0, i as int),
        decreases src@.len() - i,
    {
        dst.push(src[i]);
        i += 1;
        proof {
            assert(src@.subrange(0, i as int) =~= src@.subrange(0, i - 1) + seq![src@[i - 1]]);
            assert(dst@ =~= old(dst)@ + src@.subrange(0, i as int));
        }
    }
    proof {
        assert(src@.subrange(0, src@.len() as int) =~= src@);
    }
}

} // verus!
