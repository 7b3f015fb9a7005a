//! Copying between two streams in both directions.

use super::Traffic;
use crate::time::Duration;
use vstd::prelude::*;

verus! {

/// The size of the buffer that all streams of a thread share.
pub const SHARED_BUF_SIZE: usize = 65536;

/// The size of the buffer of a stream that could not be written in time.
pub const PRIVATE_BUF_SIZE: usize = 8192;

/// How many seconds a connection that is closed on one side may go on without
/// traffic.
pub const HALF_CLOSE_SECS: u64 = 60;

/// One of the two streams.
#[derive(Debug, Clone, Copy, PartialEq, Eq, Structural)]
pub enum Side {
    Left,
    Right,
}

impl Side {
    /// The other side.
    pub open spec fn other(self) -> Side {
        match self {
            Side::Left => Side::Right,
            Side::Right => Side::Left,
        }
    }

    /// What the side is called.
    pub fn to_string(&self) -> (s: String)
        ensures
            s@ == match *self {
                Side::Left => "local"@,
                Side::Right => "remote"@,
            },
    {
        match self {
            Side::Left => "local".to_owned(),
            Side::Right => "remote".to_owned(),
        }
    }
}

impl std::ops::Neg for Side {
    type Output = Side;

    fn neg(self) -> (r: Side) {
        match self {
            Side::Left => Side::Right,
            Side::Right => Side::Left,
        }
    }
}

impl vstd::std_specs::ops::NegSpecImpl for Side {
    open spec fn obeys_neg_spec() -> bool {
        true
    }

    open spec fn neg_req(self) -> bool {
        true
    }

    open spec fn neg_spec(self) -> Side {
        self.other()
    }
}

/// What was read from a stream and is still to be written to the other one. It
/// lies in the shared buffer, or in a private one once it could not be written
/// in time.
#[derive(Debug)]
pub struct StreamWithBuffer {
    pub buf: Option<Vec<u8>>,
    pub pos: usize,
    pub cap: usize,
    pub read_eof: bool,
    pub all_done: bool,
}

impl StreamWithBuffer {
    /// The bytes of the buffer that is used.
    pub open spec fn bytes(self, shared: Seq<u8>) -> Seq<u8> {
        match self.buf {
            Some(buf) => buf@,
            None => shared,
        }
    }

    /// Whether what is said of the buffer fits it.
    pub open spec fn is_valid(self, shared: Seq<u8>) -> bool {
        self.pos <= self.cap <= self.bytes(shared).len()
    }

    /// The bytes that are still to be written.
    pub open spec fn pending(self, shared: Seq<u8>) -> Seq<u8> {
        self.bytes(shared).subrange(self.pos as int, self.cap as int)
    }

    /// Nothing was read yet.
    pub fn new() -> (r: StreamWithBuffer)
        ensures
            r.buf is None,
            r.pos == 0,
            r.cap == 0,
            !r.read_eof,
            !r.all_done,
    {
        StreamWithBuffer { buf: None, pos: 0, cap: 0, read_eof: false, all_done: false }
    }

    /// Whether everything was written.
    pub fn is_empty(&self) -> (r: bool)
        ensures
            r == (self.pos == self.cap),
    {
        self.pos == self.cap
    }

    /// Takes the private buffer, to read into it.
    pub fn take_private(&mut self) -> (r: Option<Vec<u8>>)
        ensures
            r == old(self).buf,
            final(self).buf is None,
            final(self).pos == old(self).pos,
            final(self).cap == old(self).cap,
            final(self).read_eof == old(self).read_eof,
            final(self).all_done == old(self).all_done,
    {
        self.buf.take()
    }

    /// Notes that `n` bytes were read into the buffer, of which the private one,
    /// if there is one, is given back.
    pub fn poll_read_to_buffer(&mut self, buf: Option<Vec<u8>>, n: usize)
        ensures
            final(self).buf == buf,
            n == 0 ==> final(self).read_eof && final(self).pos == old(self).pos
                && final(self).cap == old(self).cap,
            n > 0 ==> final(self).read_eof == old(self).read_eof && final(self).pos == 0
                && final(self).cap == n,
            final(self).all_done == old(self).all_done,
            forall|shared: Seq<u8>|
                n > 0 && n <= (#[trigger] final(self).bytes(shared)).len() ==> final(self).is_valid(shared) && final(self).pending(shared) == final(self).bytes(
                    shared,
                ).take(n as int),
    {
        self.buf = buf;
        if n == 0 {
            self.read_eof = true;
        } else {
            self.pos = 0;
            self.cap = n;
        }
        proof {
            let after = *self;
            assert forall|shared: Seq<u8>|
                n > 0 && n <= (#[trigger] after.bytes(shared)).len() implies after.is_valid(
                shared,
            ) && after.pending(shared) == after.bytes(shared).take(n as int) by {
                assert(after.pending(shared) =~= after.bytes(shared).take(n as int));
            }
        }
    }

    /// The bytes to write next.
    pub fn data<'a>(&'a self, shared: &'a [u8]) -> (r: &'a [u8])
        requires
            self.is_valid(shared@),
        ensures
            r@ == self.pending(shared@),
    {
        match &self.buf {
            Some(buf) => vstd::slice::slice_subrange(buf.as_slice(), self.pos, self.cap),
            None => vstd::slice::slice_subrange(shared, self.pos, self.cap),
        }
    }

    /// Notes that `n` bytes were written; none at all is an error.
    pub fn poll_write_buffer_to(&mut self, n: usize) -> (r: Result<usize, ()>)
        requires
            old(self).pos + n <= old(self).cap,
        ensures
            match r {
                Ok(m) => m == n && n > 0,
                Err(_) => n == 0,
            },
            final(self).pos == old(self).pos + n,
            final(self).buf == old(self).buf,
            final(self).cap == old(self).cap,
            final(self).read_eof == old(self).read_eof,
            final(self).all_done == old(self).all_done,
            forall|shared: Seq<u8>| #[trigger]
                old(self).is_valid(shared) ==> final(self).is_valid(shared) && final(self).pending(shared) == old(self).pending(shared).skip(n as int),
    {
        let ghost before = *self;
        self.pos = self.pos + n;
        proof {
            let after = *self;
            assert forall|shared: Seq<u8>| #[trigger]
                before.is_valid(shared) implies after.is_valid(shared) && after.pending(shared)
                == before.pending(shared).skip(n as int) by {
                assert(after.pending(shared) =~= before.pending(shared).skip(n as int));
            }
        }
        if n == 0 {
            Err(())
        } else {
            Ok(n)
        }
    }

    /// Notes that nothing can be written now: what is left in the shared buffer
    /// is kept in a private one.
    pub fn keep_for_later(&mut self, shared: &[u8])
        requires
            old(self).is_valid(shared@),
        ensures
            final(self).buf is Some,
            final(self).is_valid(shared@),
            final(self).pending(shared@) == old(self).pending(shared@),
            forall|other: Seq<u8>| #[trigger]
                final(self).pending(other) == old(self).pending(shared@),
            final(self).read_eof == old(self).read_eof,
            final(self).all_done == old(self).all_done,
            old(self).buf is Some ==> *final(self) == *old(self),
            old(self).buf is None ==> final(self).pos == 0 && final(self).bytes(shared@).len()
                == if old(self).cap - old(self).pos > PRIVATE_BUF_SIZE {
                old(self).cap - old(self).pos
            } else {
                PRIVATE_BUF_SIZE as int
            },
    {
        if self.buf.is_none() {
            let ghost before = *self;
            let n = self.cap - self.pos;
            let size = if n > PRIVATE_BUF_SIZE {
                n
            } else {
                PRIVATE_BUF_SIZE
            };
            let mut buf: Vec<u8> = Vec::new();
            let mut i: usize = 0;
            while i < size
                invariant
                    self.buf is None,
                    self.pos <= self.cap <= shared@.len(),
                    n == self.cap - self.pos,
                    i <= size,
                    n <= size,
                    buf@.len() == i,
                    forall|j: int| 0 <= j < i && j < n ==> buf@[j] == shared@[self.pos + j],
                decreases size - i,
            {
                if i < n {
                    buf.push(shared[self.pos + i]);
                } else {
                    buf.push(0);
                }
                i = i + 1;
            }
            self.pos = 0;
            self.cap = n;
            self.buf = Some(buf);
            assert(self.pending(shared@) =~= before.pending(shared@));
        }
    }

    /// Gives a private buffer its usual size again.
    pub fn shrink_private_buffer_if_need(&mut self)
        requires
            old(self).pos == old(self).cap,
        ensures
            final(self).pos == final(self).cap,
            final(self).read_eof == old(self).read_eof,
            final(self).all_done == old(self).all_done,
            match old(self).buf {
                Some(buf) if buf@.len() > PRIVATE_BUF_SIZE => {
                    &&& final(self).buf matches Some(new_buf)
                    &&& new_buf@ == Seq::new(PRIVATE_BUF_SIZE as nat, |i: int| 0u8)
                    &&& final(self).pos == 0
                },
                _ => *final(self) == *old(self),
            },
            forall|shared: Seq<u8>| #[trigger]
                old(self).is_valid(shared) ==> final(self).is_valid(shared),
    {
        if let Some(buf) = &self.buf {
            if buf.len() > PRIVATE_BUF_SIZE {
                let mut small: Vec<u8> = Vec::new();
                let mut i: usize = 0;
                while i < PRIVATE_BUF_SIZE
                    invariant
                        i <= PRIVATE_BUF_SIZE,
                        small@ == Seq::new(i as nat, |j: int| 0u8),
                    decreases PRIVATE_BUF_SIZE - i,
                {
                    small.push(0);
                    i = i + 1;
                    assert(small@ =~= Seq::new(i as nat, |j: int| 0u8));
                }
                self.buf = Some(small);
                self.pos = 0;
                self.cap = 0;
            }
        }
    }
}

/// What to do for one direction.
#[derive(Debug, Clone, Copy, PartialEq, Eq, Structural)]
pub enum SideAction {
    /// Read from the stream.
    Read,
    /// Write to the other stream.
    Write,
    /// Close the other stream for writing.
    Shutdown,
}

/// What to do for one direction: what was read is written first.
pub open spec fn side_action(s: StreamWithBuffer) -> SideAction {
    if s.pos != s.cap {
        SideAction::Write
    } else if s.read_eof {
        SideAction::Shutdown
    } else {
        SideAction::Read
    }
}

/// How the deadline of a connection that is closed on one side stands.
#[derive(Debug, Clone, Copy, PartialEq, Eq, Structural)]
pub enum HalfClose {
    Unset,
    Running,
    Elapsed,
}

/// What becomes of a connection.
#[derive(Debug, Clone, Copy, PartialEq, Eq, Structural)]
pub enum PipeOutcome {
    /// It goes on.
    Pending,
    /// It goes on, and the deadline is so far from now.
    PendingUntil(Duration),
    /// It is over, with so much traffic.
    Done(Traffic),
}

/// Two streams, each copied to the other.
#[derive(Debug)]
pub struct BiPipe {
    pub left: StreamWithBuffer,
    pub right: StreamWithBuffer,
    pub traffic: Traffic,
}

/// The traffic of `n` bytes that were read from a side.
pub open spec fn traffic_from(side: Side, n: usize) -> Traffic {
    match side {
        Side::Left => Traffic { tx_bytes: n, rx_bytes: 0 },
        Side::Right => Traffic { tx_bytes: 0, rx_bytes: n },
    }
}

/// What becomes of a connection.
pub open spec fn outcome(
    left_done: bool,
    right_done: bool,
    deadline: HalfClose,
    traffic: Traffic,
) -> PipeOutcome {
    if left_done && right_done {
        PipeOutcome::Done(traffic)
    } else if !left_done && !right_done {
        PipeOutcome::Pending
    } else if deadline == HalfClose::Elapsed {
        PipeOutcome::Done(traffic)
    } else {
        PipeOutcome::PendingUntil(Duration { secs: HALF_CLOSE_SECS, nanos: 0 })
    }
}

/// A stream of which nothing was read yet: it has no private buffer, and nothing
/// in the shared one is its own.
pub open spec fn nothing_read() -> StreamWithBuffer {
    StreamWithBuffer { buf: None, pos: 0, cap: 0, read_eof: false, all_done: false }
}

/// Nothing was copied yet.
pub fn pipe() -> (r: BiPipe)
    ensures
        r.traffic == (Traffic { tx_bytes: 0, rx_bytes: 0 }),
        side_action(r.left) == SideAction::Read,
        side_action(r.right) == SideAction::Read,
        r.left == nothing_read(),
        r.right == nothing_read(),
        forall|shared: Seq<u8>| #[trigger]
            r.left.is_valid(shared) && r.left.pending(shared) == Seq::<u8>::empty(),
        forall|shared: Seq<u8>| #[trigger]
            r.right.is_valid(shared) && r.right.pending(shared) == Seq::<u8>::empty(),
{
    BiPipe {
        left: StreamWithBuffer::new(),
        right: StreamWithBuffer::new(),
        traffic: Traffic::default(),
    }
}

impl BiPipe {
    /// What was read from a side.
    pub open spec fn reader(self, side: Side) -> StreamWithBuffer {
        match side {
            Side::Left => self.left,
            Side::Right => self.right,
        }
    }

    /// Says what to do for one direction. A private buffer that is empty gets its
    /// usual size again.
    pub fn poll_one_side(&mut self, side: Side) -> (r: SideAction)
        ensures
            r == side_action(old(self).reader(side)),
            r == side_action(final(self).reader(side)),
            r == SideAction::Write ==> final(self).reader(side) == old(self).reader(side),
            final(self).reader(side.other()) == old(self).reader(side.other()),
            final(self).reader(side).all_done == old(self).reader(side).all_done,
            final(self).traffic == old(self).traffic,
            forall|shared: Seq<u8>| #[trigger]
                old(self).reader(side).is_valid(shared) ==> final(self).reader(side).is_valid(
                    shared,
                ),
    {
        match side {
            Side::Left => {
                if !self.left.is_empty() {
                    return SideAction::Write;
                }
                self.left.shrink_private_buffer_if_need();
                if self.left.read_eof {
                    SideAction::Shutdown
                } else {
                    SideAction::Read
                }
            },
            Side::Right => {
                if !self.right.is_empty() {
                    return SideAction::Write;
                }
                self.right.shrink_private_buffer_if_need();
                if self.right.read_eof {
                    SideAction::Shutdown
                } else {
                    SideAction::Read
                }
            },
        }
    }

    /// Counts `n` bytes that were read from a side, and says what to add to the
    /// traffic of the server.
    pub fn count(&mut self, side: Side, n: usize) -> (r: Traffic)
        requires
            old(self).traffic.tx_bytes + traffic_from(side, n).tx_bytes <= usize::MAX,
            old(self).traffic.rx_bytes + traffic_from(side, n).rx_bytes <= usize::MAX,
        ensures
            r == traffic_from(side, n),
            final(self).traffic.tx_bytes == old(self).traffic.tx_bytes + r.tx_bytes,
            final(self).traffic.rx_bytes == old(self).traffic.rx_bytes + r.rx_bytes,
            final(self).left == old(self).left,
            final(self).right == old(self).right,
    {
        let amt = match side {
            Side::Left => Traffic { tx_bytes: n, rx_bytes: 0 },
            Side::Right => Traffic { tx_bytes: 0, rx_bytes: n },
        };
        self.traffic = self.traffic + amt;
        amt
    }

    /// Notes that the other stream was closed for writing.
    pub fn finish(&mut self, side: Side)
        ensures
            final(self).reader(side) == (StreamWithBuffer {
                all_done: true,
                ..old(self).reader(side)
            }),
            final(self).reader(side.other()) == old(self).reader(side.other()),
            final(self).traffic == old(self).traffic,
    {
        match side {
            Side::Left => {
                self.left.all_done = true;
            },
            Side::Right => {
                self.right.all_done = true;
            },
        }
    }

    /// What becomes of the connection.
    pub fn poll(&self, deadline: HalfClose) -> (r: PipeOutcome)
        ensures
            r == outcome(self.left.all_done, self.right.all_done, deadline, self.traffic),
    {
        match (self.left.all_done, self.right.all_done) {
            (true, true) => PipeOutcome::Done(self.traffic),
            (false, false) => PipeOutcome::Pending,
            _ => match deadline {
                HalfClose::Elapsed => PipeOutcome::Done(self.traffic),
                _ => PipeOutcome::PendingUntil(Duration::from_secs(HALF_CLOSE_SECS)),
            },
        }
    }
}

// ---- laws ----

/// A stream is not closed for writing before all that was read was written.
pub proof fn lemma_nothing_is_lost(s: StreamWithBuffer, shared: Seq<u8>)
    requires
        s.is_valid(shared),
        side_action(s) == SideAction::Shutdown || side_action(s) == SideAction::Read,
    ensures
        s.pending(shared).len() == 0,
{
}

/// A connection ends only when both directions are done, or when one is and the
/// deadline is over.
pub proof fn lemma_end_of_connection(
    left_done: bool,
    right_done: bool,
    deadline: HalfClose,
    traffic: Traffic,
)
    ensures
        outcome(left_done, right_done, deadline, traffic) is Done <==> ((left_done && right_done)
            || ((left_done || right_done) && deadline == HalfClose::Elapsed)),
{
}

/// What was read is written before anything else is done, and the other stream is
/// closed only once there is nothing more to read.
pub proof fn lemma_order_of_work(s: StreamWithBuffer)
    ensures
        side_action(s) == SideAction::Write <==> s.pos != s.cap,
        side_action(s) == SideAction::Shutdown <==> s.pos == s.cap && s.read_eof,
        side_action(s) == SideAction::Read <==> s.pos == s.cap && !s.read_eof,
{
}

/// What is read from the local side is sent, and what is read from the remote
/// side is received.
pub proof fn lemma_direction_of_traffic(n: usize)
    ensures
        traffic_from(Side::Left, n).tx_bytes == n && traffic_from(Side::Left, n).rx_bytes == 0,
        traffic_from(Side::Right, n).rx_bytes == n && traffic_from(Side::Right, n).tx_bytes == 0,
        Side::Left.other() == Side::Right && Side::Right.other() == Side::Left,
{
}

/// A connection that is done in one direction alone has a minute, and the traffic
/// that is told at its end is what was counted.
pub proof fn lemma_half_closed_connection(deadline: HalfClose, traffic: Traffic, left_done: bool)
    ensures
        deadline != HalfClose::Elapsed ==> outcome(left_done, !left_done, deadline, traffic)
            == PipeOutcome::PendingUntil(Duration { secs: 60, nanos: 0 }),
        deadline == HalfClose::Elapsed ==> outcome(left_done, !left_done, deadline, traffic)
            == PipeOutcome::Done(traffic),
        outcome(true, true, deadline, traffic) == PipeOutcome::Done(traffic),
        outcome(false, false, deadline, traffic) == PipeOutcome::Pending,
{
}

/// What is still to be written is what stands between the two marks, in the
/// private buffer where there is one, and else in the shared one.
pub proof fn lemma_what_is_pending(s: StreamWithBuffer, shared: Seq<u8>, i: int)
    requires
        s.is_valid(shared),
        0 <= i < s.cap - s.pos,
    ensures
        s.pending(shared).len() == s.cap - s.pos,
        s.buf is None ==> s.pending(shared)[i] == shared[s.pos + i],
        s.buf matches Some(buf) ==> s.pending(shared)[i] == buf@[s.pos + i],
{
}

} // verus!
