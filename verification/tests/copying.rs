use moproxy::proxy::copy::{
    pipe, HalfClose, PipeOutcome, Side, SideAction, StreamWithBuffer, PRIVATE_BUF_SIZE,
};
use moproxy::proxy::piping::{piping, summary, CopyAction, CopyEvent};
use moproxy::proxy::Traffic;
use moproxy::time::Duration;

#[test]
fn what_is_read_is_written() {
    let mut shared = vec![0u8; 16];
    let mut s = StreamWithBuffer::new();
    assert!(s.is_empty());
    shared[..5].copy_from_slice(b"hello");
    s.poll_read_to_buffer(None, 5);
    assert_eq!(b"hello", s.data(&shared));
    assert_eq!(Ok(2), s.poll_write_buffer_to(2));
    assert_eq!(b"llo", s.data(&shared));
    // nothing can be written now
    s.keep_for_later(&shared);
    let other = vec![9u8; 16];
    assert_eq!(b"llo", s.data(&other));
    assert_eq!(PRIVATE_BUF_SIZE, s.buf.as_ref().unwrap().len());
    assert_eq!(Ok(3), s.poll_write_buffer_to(3));
    assert!(s.is_empty());
    assert_eq!(Err(()), s.poll_write_buffer_to(0));
    let buf = s.take_private();
    assert!(buf.is_some());
    s.poll_read_to_buffer(buf, 0);
    assert!(s.read_eof);
}

#[test]
fn large_private_buffers_shrink() {
    let shared = vec![1u8; PRIVATE_BUF_SIZE + 1];
    let mut s = StreamWithBuffer::new();
    s.poll_read_to_buffer(None, shared.len());
    s.keep_for_later(&shared);
    assert_eq!(shared.len(), s.buf.as_ref().unwrap().len());
    assert_eq!(Ok(shared.len()), s.poll_write_buffer_to(shared.len()));
    s.shrink_private_buffer_if_need();
    assert_eq!(PRIVATE_BUF_SIZE, s.buf.as_ref().unwrap().len());
    assert!(s.is_empty());
}

#[test]
fn pipes_go_through_their_stages() {
    let mut p = pipe();
    assert_eq!(SideAction::Read, p.poll_one_side(Side::Left));
    p.left.poll_read_to_buffer(None, 7);
    assert_eq!(Traffic { tx_bytes: 7, rx_bytes: 0 }, p.count(Side::Left, 7));
    assert_eq!(SideAction::Write, p.poll_one_side(Side::Left));
    assert_eq!(SideAction::Read, p.poll_one_side(Side::Right));
    assert_eq!(Ok(7), p.left.poll_write_buffer_to(7));
    p.left.poll_read_to_buffer(None, 0);
    assert_eq!(SideAction::Shutdown, p.poll_one_side(Side::Left));
    assert_eq!(PipeOutcome::Pending, p.poll(HalfClose::Unset));
    p.finish(Side::Left);
    assert_eq!(
        PipeOutcome::PendingUntil(Duration::from_secs(60)),
        p.poll(HalfClose::Unset)
    );
    assert_eq!(Traffic { tx_bytes: 0, rx_bytes: 3 }, p.count(Side::Right, 3));
    let all = Traffic { tx_bytes: 7, rx_bytes: 3 };
    assert_eq!(PipeOutcome::Done(all), p.poll(HalfClose::Elapsed));
    p.finish(Side::Right);
    assert_eq!(PipeOutcome::Done(all), p.poll(HalfClose::Running));
    assert_eq!(Side::Right, -Side::Left);
    assert_eq!("local", Side::Left.to_string());
    assert_eq!("remote", Side::Right.to_string());
}

#[test]
fn directions_end_on_their_own() {
    let mut p = piping();
    assert_eq!(CopyAction::Continue, p.next(Side::Left, CopyEvent::Copied(5)));
    assert_eq!(CopyAction::Continue, p.next(Side::Right, CopyEvent::Copied(2)));
    assert_eq!(CopyAction::Shutdown(Side::Left), p.next(Side::Right, CopyEvent::End));
    assert_eq!(CopyAction::Continue, p.next(Side::Left, CopyEvent::Copied(1)));
    assert_eq!(
        CopyAction::Finish { last: Side::Right, tx: 6, rx: 2 },
        p.next(Side::Left, CopyEvent::End)
    );
    assert_eq!(CopyAction::GiveUp, piping().next(Side::Left, CopyEvent::Failed));
    assert_eq!("tx 6, rx 2 bytes", summary(6, 2));
}

#[test]
fn only_the_counted_side_has_to_have_room() {
    let mut p = pipe();
    p.traffic = Traffic { tx_bytes: usize::MAX, rx_bytes: 1 };
    assert_eq!(Traffic { tx_bytes: 0, rx_bytes: 5 }, p.count(Side::Right, 5));
    assert_eq!(Traffic { tx_bytes: usize::MAX, rx_bytes: 6 }, p.traffic);
}
