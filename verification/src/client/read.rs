//! Reading with a deadline.

use vstd::prelude::*;

verus! {

/// What a stream says when it is read.
#[derive(Debug, Clone, Copy, PartialEq, Eq, Structural)]
pub enum ReadEvent {
    /// So many bytes were read.
    Ready(usize),
    /// Reading failed.
    Failed,
    /// There is nothing to read yet.
    Pending,
}

/// What becomes of reading.
#[derive(Debug, Clone, Copy, PartialEq, Eq, Structural)]
pub enum ReadOutcome {
    /// It is over, with so many bytes.
    Done(usize),
    /// It has failed.
    Failed,
    /// It goes on.
    Pending,
}

/// Reading from a stream until a deadline.
#[derive(Debug, Clone, Copy, PartialEq, Eq, Structural)]
pub struct Read {
    pub is_done: bool,
}

impl Read {
    /// Nothing was read yet.
    pub fn new() -> (r: Read)
        ensures
            !r.is_done,
    {
        Read { is_done: false }
    }

    /// What becomes of reading: after the deadline it is over without any byte,
    /// whatever the stream says.
    pub fn poll(&mut self, timed_out: bool, event: ReadEvent) -> (r: ReadOutcome)
        requires
            !old(self).is_done,
        ensures
            r == if timed_out {
                ReadOutcome::Done(0)
            } else {
                match event {
                    ReadEvent::Ready(n) => ReadOutcome::Done(n),
                    ReadEvent::Failed => ReadOutcome::Failed,
                    ReadEvent::Pending => ReadOutcome::Pending,
                }
            },
            final(self).is_done == (r is Done),
    {
        if timed_out {
            self.is_done = true;
            return ReadOutcome::Done(0);
        }
        match event {
            ReadEvent::Ready(n) => {
                self.is_done = true;
                ReadOutcome::Done(n)
            },
            ReadEvent::Failed => ReadOutcome::Failed,
            ReadEvent::Pending => ReadOutcome::Pending,
        }
    }
}

} // verus!
