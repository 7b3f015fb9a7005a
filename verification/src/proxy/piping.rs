//! Copying between two streams, each direction on its own.

use super::copy::Side;
use crate::text::push_dec;
use vstd::prelude::*;

verus! {

/// Both directions between two streams: how much was copied, and which
/// direction has ended.
#[derive(Debug, Clone, Copy, PartialEq, Eq, Structural)]
pub struct Piping {
    pub tx: u64,
    pub rx: u64,
    pub is_sent: bool,
    pub is_received: bool,
}

/// What happens in the direction that starts at a side.
#[derive(Debug, Clone, Copy, PartialEq, Eq, Structural)]
pub enum CopyEvent {
    /// So many bytes were copied.
    Copied(u64),
    /// The side has nothing more to say.
    End,
    /// Reading or writing failed.
    Failed,
}

/// What to do.
#[derive(Debug, Clone, Copy, PartialEq, Eq, Structural)]
pub enum CopyAction {
    /// Go on copying.
    Continue,
    /// Close the other side for writing; the other direction goes on.
    Shutdown(Side),
    /// Close the other side for writing; all is done, with so many bytes sent
    /// and received.
    Finish { last: Side, tx: u64, rx: u64 },
    /// Give up both directions.
    GiveUp,
}

/// Starts copying between a local and a remote stream.
pub fn piping() -> (r: Piping)
    ensures
        r == (Piping { tx: 0, rx: 0, is_sent: false, is_received: false }),
{
    Piping { tx: 0, rx: 0, is_sent: false, is_received: false }
}

impl Piping {
    /// Whether the direction that starts at a side has ended.
    pub open spec fn has_ended(self, side: Side) -> bool {
        match side {
            Side::Left => self.is_sent,
            Side::Right => self.is_received,
        }
    }

    /// How much was copied from a side.
    pub open spec fn copied_from(self, side: Side) -> u64 {
        match side {
            Side::Left => self.tx,
            Side::Right => self.rx,
        }
    }

    /// The state and what to do after an event.
    pub open spec fn after(self, side: Side, event: CopyEvent) -> (Piping, CopyAction) {
        match event {
            CopyEvent::Failed => (self, CopyAction::GiveUp),
            CopyEvent::Copied(n) => (
                match side {
                    Side::Left => Piping { tx: (self.tx + n) as u64, ..self },
                    Side::Right => Piping { rx: (self.rx + n) as u64, ..self },
                },
                CopyAction::Continue,
            ),
            CopyEvent::End => (
                match side {
                    Side::Left => Piping { is_sent: true, ..self },
                    Side::Right => Piping { is_received: true, ..self },
                },
                if self.has_ended(side.other()) {
                    CopyAction::Finish { last: side.other(), tx: self.tx, rx: self.rx }
                } else {
                    CopyAction::Shutdown(side.other())
                },
            ),
        }
    }

    /// Takes an event of the direction that starts at a side, and says what to
    /// do.
    pub fn next(&mut self, side: Side, event: CopyEvent) -> (r: CopyAction)
        requires
            !old(self).has_ended(side),
            event matches CopyEvent::Copied(n) ==> old(self).copied_from(side) + n <= u64::MAX,
        ensures
            (*final(self), r) == old(self).after(side, event),
    {
        match event {
            CopyEvent::Failed => CopyAction::GiveUp,
            CopyEvent::Copied(n) => {
                match side {
                    Side::Left => {
                        self.tx = self.tx + n;
                    },
                    Side::Right => {
                        self.rx = self.rx + n;
                    },
                }
                CopyAction::Continue
            },
            CopyEvent::End => match side {
                Side::Left => {
                    self.is_sent = true;
                    if self.is_received {
                        CopyAction::Finish { last: Side::Right, tx: self.tx, rx: self.rx }
                    } else {
                        CopyAction::Shutdown(Side::Right)
                    }
                },
                Side::Right => {
                    self.is_received = true;
                    if self.is_sent {
                        CopyAction::Finish { last: Side::Left, tx: self.tx, rx: self.rx }
                    } else {
                        CopyAction::Shutdown(Side::Left)
                    }
                },
            },
        }
    }
}

/// What is told of a connection that is done.
pub fn summary(tx: u64, rx: u64) -> (s: String)
    ensures
        s@ == "tx "@ + crate::text::dec(tx as nat) + ", rx "@ + crate::text::dec(rx as nat)
            + " bytes"@,
{
    let mut s = "tx ".to_owned();
    push_dec(&mut s, tx);
    s.append(", rx ");
    push_dec(&mut s, rx);
    s.append(" bytes");
    s
}

/// Whichever direction ends first, both sides are closed for writing once, and
/// the bytes of both directions are told at the end.
pub proof fn lemma_both_directions_end(p: Piping, first: Side)
    requires
        !p.is_sent,
        !p.is_received,
    ensures
        ({
            let (q, a) = p.after(first, CopyEvent::End);
            let (_, b) = q.after(first.other(), CopyEvent::End);
            &&& a == CopyAction::Shutdown(first.other())
            &&& b == CopyAction::Finish { last: first, tx: p.tx, rx: p.rx }
        }),
{
}

/// Bytes are counted for the direction that they were copied in, and for no
/// other; an error ends both directions.
pub proof fn lemma_bytes_are_counted(p: Piping, side: Side, n: u64)
    requires
        p.copied_from(side) + n <= u64::MAX,
    ensures
        ({
            let (q, action) = p.after(side, CopyEvent::Copied(n));
            &&& action == CopyAction::Continue
            &&& side == Side::Left ==> q.tx == p.tx + n && q.rx == p.rx
            &&& side == Side::Right ==> q.rx == p.rx + n && q.tx == p.tx
            &&& q.is_sent == p.is_sent && q.is_received == p.is_received
            &&& p.after(side, CopyEvent::Failed).1 == CopyAction::GiveUp
        }),
{
}

} // verus!
