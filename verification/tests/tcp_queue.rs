use metrics_exporters::tcp::{ClientQueue, IntakeStep, MetricIntake, WriteStep};

fn msgs(ms: &[&str]) -> Vec<Vec<u8>> {
    ms.iter().map(|m| m.as_bytes().to_vec()).collect()
}

fn drain_all(q: &mut ClientQueue) -> Vec<Vec<u8>> {
    let mut out = Vec::new();
    while let Some(m) = q.next_to_write() {
        out.push(m);
    }
    out
}

#[test]
fn queue_keeps_newest_messages_when_backed_up() {
    let mut q = ClientQueue::new();
    q.enqueue(&msgs(&["a", "b", "c"]), 4);
    // One slot left: two of the oldest are dropped to make room for three new ones.
    q.enqueue(&msgs(&["d", "e", "f"]), 4);
    assert_eq!(drain_all(&mut q), msgs(&["c", "d", "e", "f"]));
}

#[test]
fn queue_with_room_keeps_everything() {
    let mut q = ClientQueue::new();
    q.enqueue(&msgs(&["a"]), 8);
    q.enqueue(&msgs(&["b", "c"]), 8);
    assert_eq!(drain_all(&mut q), msgs(&["a", "b", "c"]));
}

#[test]
fn partial_write_keeps_the_rest_first() {
    let mut q = ClientQueue::new();
    q.enqueue(&msgs(&["hello", "world"]), 8);
    let first = q.next_to_write().unwrap();
    assert!(matches!(q.after_write(first, 2), WriteStep::Blocked));
    assert_eq!(q.next_to_write().unwrap(), b"llo".to_vec());
    let second = q.next_to_write().unwrap();
    assert!(matches!(q.after_write(second, 5), WriteStep::Continue));
    assert!(q.next_to_write().is_none());
}

#[test]
fn zero_write_means_closed() {
    let mut q = ClientQueue::new();
    q.enqueue(&msgs(&["x"]), 1);
    let m = q.next_to_write().unwrap();
    assert!(matches!(q.after_write(m, 0), WriteStep::Closed));
}

#[test]
fn intake_stops_at_the_buffer_limit() {
    let mut intake = MetricIntake::new(Some(2));
    assert!(matches!(intake.next_step(), IntakeStep::Receive));
    intake.push(b"a".to_vec());
    assert!(matches!(intake.next_step(), IntakeStep::Receive));
    intake.push(b"b".to_vec());
    assert!(matches!(intake.next_step(), IntakeStep::Rewake));
    assert_eq!(intake.take(), msgs(&["a", "b"]));
    assert!(matches!(intake.next_step(), IntakeStep::Receive));
}

#[test]
fn intake_without_buffer_size_is_unbounded() {
    let mut intake = MetricIntake::new(None);
    for _ in 0..100 {
        assert!(matches!(intake.next_step(), IntakeStep::Receive));
        intake.push(b"m".to_vec());
    }
    assert_eq!(intake.take().len(), 100);
}
