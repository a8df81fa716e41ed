use tokio::sync::mpsc;
use wmux::client::{Client, Fate, Offered, ServerMsg};

/// A client whose queue holds so many messages, and the end that reads it.
fn client(room: usize) -> (Client, mpsc::Sender<ServerMsg>, mpsc::Receiver<ServerMsg>) {
    let (tx, rx) = mpsc::channel::<ServerMsg>(room);
    let mut c = Client::connected(1, 0);
    c.outbox.in_step = true;
    (c, tx, rx)
}

fn hand(tx: &mpsc::Sender<ServerMsg>, m: ServerMsg) -> Offered {
    match tx.try_send(m) {
        Ok(()) => Offered::Taken,
        Err(mpsc::error::TrySendError::Full(m)) => Offered::Full(m),
        Err(mpsc::error::TrySendError::Closed(_)) => Offered::Closed,
    }
}

#[test]
fn lagging_client_forces_full_redraw() {
    let (mut c, tx, mut rx) = client(1);
    let offer = |m: ServerMsg| hand(&tx, m);
    c.outbox.send_output(b"frame1".to_vec(), &offer);
    assert!(c.outbox.in_step, "first frame queued, diff state kept");
    c.outbox.send_output(b"frame2".to_vec(), &offer);
    assert!(!c.outbox.in_step, "dropped frame invalidates the diff base");
    // Only the first frame is in the queue; nothing else was allocated.
    assert!(matches!(rx.try_recv(), Ok(ServerMsg::Output(b)) if b == b"frame1"));
    assert!(rx.try_recv().is_err());
}

#[test]
fn control_messages_survive_a_full_queue_in_order() {
    let (mut c, tx, mut rx) = client(1);
    let offer = |m: ServerMsg| hand(&tx, m);
    c.outbox.send_output(b"frame1".to_vec(), &offer);
    c.outbox.send(ServerMsg::SetMouse(false), &offer);
    c.outbox.send(ServerMsg::Detached { reason: "x".into() }, &offer);
    assert_eq!(c.outbox.pending.len(), 2);
    // A frame must not overtake pending control messages.
    c.outbox.in_step = true;
    c.outbox.send_output(b"frame2".to_vec(), &offer);
    assert!(!c.outbox.in_step);
    assert!(!c.outbox.flush_pending(&offer), "queue still full");
    // The client drains one slot at a time; each drain lets one message through.
    assert!(matches!(rx.try_recv(), Ok(ServerMsg::Output(_))));
    assert!(!c.outbox.flush_pending(&offer));
    assert!(matches!(rx.try_recv(), Ok(ServerMsg::SetMouse(false))));
    assert!(c.outbox.flush_pending(&offer));
    assert!(matches!(rx.try_recv(), Ok(ServerMsg::Detached { .. })));
    assert!(rx.try_recv().is_err());
}

#[test]
fn a_message_for_a_client_that_is_gone_is_lost() {
    let (mut c, tx, rx) = client(1);
    drop(rx);
    let offer = |m: ServerMsg| hand(&tx, m);
    assert_eq!(c.outbox.send(ServerMsg::Raise, &offer), Fate::Lost);
    assert!(c.outbox.pending.is_empty());
}
