use rust_lin::bus::{HealthProvider, MetricsProvider, SubQueue, Subscribers};
use rust_lin::error::Error;
use rust_lin::frame::{calc_checksum, protect_id, ChecksumType, Filter, Frame, ScheduleEntry};
use rust_lin::master::MasterNode;
use rust_lin::mock::MockState;
use rust_lin::relay::{BackPressurePolicy, HealthStatus, SubscriberOptions};
use rust_lin::slave::SlaveRegistry;
use rust_lin::virtual_bus::VirtualBusState;
use std::sync::Arc;

fn frame(id: u8, data: Vec<u8>) -> Frame {
    Frame { id, data, checksum: 0, checksum_type: ChecksumType::Classic }
}

fn all() -> Vec<Filter> {
    vec![Filter { id: 0, all: true }]
}

#[test]
fn sub_inner_push_pop() {
    let mut inner = SubQueue::new(4, BackPressurePolicy::DropNewest, 0);
    assert!(inner.push(frame(0x10, vec![1, 2])));
    let got = inner.pop().unwrap();
    assert_eq!(got.id, 0x10);
}

#[test]
fn sub_inner_drop_newest() {
    let mut inner = SubQueue::new(2, BackPressurePolicy::DropNewest, 0);
    assert!(inner.push(frame(1, vec![1])));
    assert!(inner.push(frame(2, vec![2])));
    assert!(!inner.push(frame(3, vec![3])));
    assert_eq!(inner.pop().unwrap().id, 1);
    assert_eq!(inner.pop().unwrap().id, 2);
    assert!(inner.pop().is_none());
}

#[test]
fn sub_queue_drop_oldest_and_block() {
    let mut q = SubQueue::new(2, BackPressurePolicy::DropOldest, 0);
    for id in 1..=3u8 {
        assert!(q.push(frame(id, vec![id])));
    }
    assert_eq!(q.len(), 2);
    assert_eq!(q.pop().unwrap().id, 2);
    let mut b = SubQueue::new(1, BackPressurePolicy::Block, 0);
    assert!(b.push(frame(1, vec![1])));
    assert!(b.push(frame(2, vec![2])));
    assert_eq!(b.len(), 2);
    b.close();
    assert!(b.is_closed());
    assert!(!b.is_empty());
}

#[test]
fn sub_queue_rate_limit_counts_the_window() {
    let mut q = SubQueue::new(10, BackPressurePolicy::DropNewest, 2);
    assert!(q.push(frame(1, vec![1])));
    assert!(q.push(frame(2, vec![2])));
    assert!(!q.push(frame(3, vec![3])));
    assert_eq!(q.len(), 2);
}

#[test]
fn subscribers_deliver_by_filter() {
    let mut subs = Subscribers::new();
    let a = subs.add(vec![Filter { id: 0x10, all: false }], SubscriberOptions::default()).unwrap();
    let b = subs.add(vec![], SubscriberOptions::default()).unwrap();
    assert_eq!((a, b), (0, 1));
    // No filters means every frame.
    assert_eq!(subs.deliver(&frame(0x20, vec![1]), true), (1, 0));
    assert_eq!(subs.deliver(&frame(0x10, vec![1]), true), (2, 0));
    assert_eq!(subs.pop(a).unwrap().id, 0x10);
    assert!(subs.pop(a).is_none());
    assert_eq!(subs.pop(b).unwrap().id, 0x20);
    assert_eq!(subs.deliver(&frame(0x20, vec![1]), false), (2, 0));
    subs.close_one(a);
    assert!(subs.is_closed(a));
    // A closed subscription stays until what it queued is taken.
    subs.gc();
    assert_eq!(subs.len(), 2);
    assert_eq!(subs.pop(a).unwrap().id, 0x20);
    subs.gc();
    assert_eq!(subs.len(), 1);
    assert!(subs.is_closed(a));
    subs.close_all();
    assert!(subs.is_closed(b));
    assert_eq!(subs.pop(b).unwrap().id, 0x10);
    assert_eq!(subs.pop(b).unwrap().id, 0x20);
    subs.gc();
    assert_eq!(subs.len(), 0);
}

#[test]
fn new_returns_initialised_bus() {
    let bus = VirtualBusState::new();
    let m = bus.metrics();
    assert_eq!(m.write_count, 0);
    assert!(bus.health().status == HealthStatus::Healthy);
}

#[test]
fn send_header_returns_frame_with_correct_pid_and_checksum() {
    let mut bus = VirtualBusState::new();
    let mut subs = Subscribers::new();
    let rx = bus.subscribe(&mut subs, all(), SubscriberOptions::default()).unwrap();
    bus.publish(0x10, Some(vec![0x01, 0x02])).unwrap();
    let f = bus.send_header(&mut subs, 0x10).unwrap();
    assert_eq!(f.id, 0x10);
    assert_eq!(f.data, vec![0x01, 0x02]);
    let expected = calc_checksum(protect_id(0x10), &[0x01, 0x02], ChecksumType::Enhanced);
    assert_eq!(f.checksum, expected);
    assert_eq!(subs.pop(rx).unwrap().id, 0x10);
}

#[test]
fn publish_none_removes_response() {
    let mut bus = VirtualBusState::new();
    let mut subs = Subscribers::new();
    bus.publish(0x10, Some(vec![0x01])).unwrap();
    bus.publish(0x10, None).unwrap();
    assert!(matches!(bus.send_header(&mut subs, 0x10), Err(Error::NoResponse)));
}

#[test]
fn virtual_publish_rejects_id_overflow() {
    let mut bus = VirtualBusState::new();
    assert!(matches!(bus.publish(0x40, Some(vec![1])), Err(Error::InvalidFrame { .. })));
}

#[test]
fn publish_after_close_returns_error() {
    let mut bus = VirtualBusState::new();
    let mut subs = Subscribers::new();
    bus.close(&mut subs).unwrap();
    assert!(matches!(bus.publish(0x10, Some(vec![1])), Err(Error::Closed)));
}

#[test]
fn virtual_send_header_no_response() {
    let mut bus = VirtualBusState::new();
    let mut subs = Subscribers::new();
    assert!(matches!(bus.send_header(&mut subs, 0x10), Err(Error::NoResponse)));
}

#[test]
fn virtual_send_header_rejects_id_overflow() {
    let mut bus = VirtualBusState::new();
    let mut subs = Subscribers::new();
    assert!(matches!(bus.send_header(&mut subs, 0x40), Err(Error::InvalidFrame { .. })));
}

#[test]
fn subscribe_exact_filter_isolates_by_id() {
    let mut bus = VirtualBusState::new();
    let mut subs = Subscribers::new();
    let rx = bus
        .subscribe(&mut subs, vec![Filter { id: 0x10, all: false }], SubscriberOptions::default())
        .unwrap();
    bus.publish(0x20, Some(vec![1])).unwrap();
    bus.publish(0x10, Some(vec![2])).unwrap();
    bus.send_header(&mut subs, 0x20).unwrap();
    bus.send_header(&mut subs, 0x10).unwrap();
    assert_eq!(subs.pop(rx).unwrap().id, 0x10);
    assert!(subs.pop(rx).is_none());
}

#[test]
fn full_subscriber_drops_frames_without_blocking() {
    let mut bus = VirtualBusState::new();
    let mut subs = Subscribers::new();
    let opts = SubscriberOptions { channel_depth: 1, back_pressure: BackPressurePolicy::DropNewest, rate_limit_per_sec: 0 };
    bus.subscribe(&mut subs, all(), opts).unwrap();
    bus.publish(0x10, Some(vec![1])).unwrap();
    for _ in 0..5 {
        let _ = bus.send_header(&mut subs, 0x10);
    }
    let m = bus.metrics();
    assert_eq!(m.deliver_count, 1);
    assert_eq!(m.drop_count, 4);
}

#[test]
fn multiple_subscribers_receive_independently() {
    let mut bus = VirtualBusState::new();
    let mut subs = Subscribers::new();
    let a = bus.subscribe(&mut subs, all(), SubscriberOptions::default()).unwrap();
    let b = bus.subscribe(&mut subs, all(), SubscriberOptions::default()).unwrap();
    bus.publish(0x10, Some(vec![1])).unwrap();
    bus.send_header(&mut subs, 0x10).unwrap();
    assert_eq!(subs.pop(a).unwrap().id, 0x10);
    assert_eq!(subs.pop(b).unwrap().id, 0x10);
}

#[test]
fn virtual_close_is_idempotent() {
    let mut bus = VirtualBusState::new();
    let mut subs = Subscribers::new();
    bus.close(&mut subs).unwrap();
    bus.close(&mut subs).unwrap();
    let h = bus.health();
    assert_eq!(h.status, HealthStatus::Down);
    assert_eq!(h.message, "bus is closed");
}

#[test]
fn send_header_after_close_returns_error() {
    let mut bus = VirtualBusState::new();
    let mut subs = Subscribers::new();
    bus.close(&mut subs).unwrap();
    assert!(matches!(bus.send_header(&mut subs, 0x10), Err(Error::Closed)));
}

#[test]
fn publish_stores_defensive_copy() {
    let mut bus = VirtualBusState::new();
    let mut subs = Subscribers::new();
    let mut data = vec![0x01, 0x02];
    bus.publish(0x10, Some(data.clone())).unwrap();
    data[0] = 0xFF;
    let f = bus.send_header(&mut subs, 0x10).unwrap();
    assert_eq!(f.data[0], 0x01);
}

#[test]
fn metrics_tracking() {
    let mut bus = VirtualBusState::new();
    let mut subs = Subscribers::new();
    bus.subscribe(&mut subs, all(), SubscriberOptions::default()).unwrap();
    bus.publish(0x10, Some(vec![1, 2])).unwrap();
    bus.send_header(&mut subs, 0x10).unwrap();
    let m = bus.metrics();
    assert_eq!(m.write_count, 1);
    assert_eq!(m.deliver_count, 1);
    assert_eq!(m.bytes_written, 2);
    assert_eq!(m.bytes_delivered, 2);
}

#[test]
fn set_schedule_validates_ids() {
    let mut bus = VirtualBusState::new();
    assert!(bus.set_schedule(vec![ScheduleEntry { id: 0x40, delay_ms: 10 }]).is_err());
    assert!(bus.set_schedule(vec![ScheduleEntry { id: 0x10, delay_ms: 10 }]).is_ok());
    assert_eq!(bus.schedule().len(), 1);
}

#[test]
fn publish_classic_uses_classic_checksum() {
    let mut bus = VirtualBusState::new();
    let mut subs = Subscribers::new();
    bus.publish_classic(0x3C, vec![1, 2]).unwrap();
    let f = bus.send_header(&mut subs, 0x3C).unwrap();
    assert_eq!(f.checksum_type, ChecksumType::Classic);
    assert_eq!(f.checksum, calc_checksum(protect_id(0x3C), &[1, 2], ChecksumType::Classic));
}

#[test]
fn records_published_responses() {
    let mut bus = MockState::new();
    bus.publish(0x10, Some(vec![0x01, 0x02])).unwrap();
    let published = bus.published_responses();
    assert_eq!(published.len(), 1);
    assert_eq!(published[0].0, 0x10);
}

#[test]
fn mock_send_header_no_response() {
    let mut bus = MockState::new();
    let mut subs = Subscribers::new();
    assert!(matches!(bus.send_header(&mut subs, 0x10), Err(Error::NoResponse)));
}

#[test]
fn send_header_returns_frame() {
    let mut bus = MockState::new();
    let mut subs = Subscribers::new();
    bus.publish(0x10, Some(vec![0x01, 0x02])).unwrap();
    let f = bus.send_header(&mut subs, 0x10).unwrap();
    assert_eq!(f.id, 0x10);
    assert_eq!(f.data, vec![0x01, 0x02]);
    assert_eq!(bus.sent_header_ids(), vec![0x10]);
}

#[test]
fn inject_delivers_to_subscribers() {
    let bus = MockState::new();
    let mut subs = Subscribers::new();
    let rx = bus.subscribe(&mut subs, vec![], SubscriberOptions::default()).unwrap();
    bus.inject(&mut subs, &frame(0x20, vec![3]));
    assert_eq!(subs.pop(rx).unwrap().id, 0x20);
}

#[test]
fn mock_close_is_idempotent() {
    let mut bus = MockState::new();
    let mut subs = Subscribers::new();
    bus.close(&mut subs).unwrap();
    bus.close(&mut subs).unwrap();
    assert!(bus.is_closed());
}

#[test]
fn send_after_close_returns_error() {
    let mut bus = MockState::new();
    let mut subs = Subscribers::new();
    bus.close(&mut subs).unwrap();
    assert!(matches!(bus.publish(0x10, Some(vec![1])), Err(Error::Closed)));
}

#[test]
fn mock_reset_clears_records() {
    let mut bus = MockState::new();
    let mut subs = Subscribers::new();
    bus.publish(0x10, None).unwrap();
    let _ = bus.send_header(&mut subs, 0x10);
    bus.reset();
    assert!(bus.published_responses().is_empty());
    assert!(bus.sent_header_ids().is_empty());
}

#[test]
fn set_schedule_rejects_empty() {
    let r = MasterNode::<VirtualBusState>::check_schedule(&vec![]);
    assert!(matches!(r, Err(Error::Other(ref m)) if m == "schedule must not be empty"));
}

#[test]
fn set_schedule_rejects_invalid_id() {
    let r = MasterNode::<VirtualBusState>::check_schedule(&vec![
        ScheduleEntry { id: 0x10, delay_ms: 1 },
        ScheduleEntry { id: 0x41, delay_ms: 1 },
    ]);
    assert!(matches!(r, Err(Error::InvalidFrame { .. })));
}

#[test]
fn run_returns_error_for_empty_schedule() {
    let node = MasterNode::new(Arc::new(VirtualBusState::new()));
    assert!(node.check_runnable().is_err());
}

#[test]
fn master_schedule_cycles_through_slots() {
    let mut node = MasterNode::new(Arc::new(VirtualBusState::new()));
    let entries = vec![ScheduleEntry { id: 1, delay_ms: 5 }, ScheduleEntry { id: 2, delay_ms: 5 }];
    assert!(MasterNode::<VirtualBusState>::check_schedule(&entries).is_ok());
    node.install_schedule(entries);
    assert!(node.check_runnable().is_ok());
    let mut i = 0;
    let mut ids = Vec::new();
    for _ in 0..5 {
        ids.push(node.slot(i).id);
        i = node.next_slot(i);
    }
    assert_eq!(ids, vec![1, 2, 1, 2, 1]);
}

#[test]
fn new_returns_ready_node() {
    let s = SlaveRegistry::new();
    assert!(s.registered_ids().is_empty());
}

#[test]
fn registered_ids_multiple() {
    let mut s = SlaveRegistry::new();
    for id in [3u8, 1, 2] {
        SlaveRegistry::check_id(id).unwrap();
        s.record(id, true);
    }
    assert_eq!(s.registered_ids(), vec![1, 2, 3]);
}

#[test]
fn set_response_nil_removes() {
    let mut s = SlaveRegistry::new();
    s.record(0x10, true);
    s.record(0x10, false);
    assert!(s.registered_ids().is_empty());
}

#[test]
fn set_response_rejects_invalid_id() {
    let e = SlaveRegistry::check_id(0x40).unwrap_err();
    assert_eq!(e.to_string(), "lin: invalid frame: frame ID 0x40 exceeds LIN_MAX_ID 0x3F");
}

#[test]
fn set_response_overwrites_previous() {
    let mut s = SlaveRegistry::new();
    s.record(0x10, true);
    s.record(0x10, true);
    assert_eq!(s.registered_ids(), vec![0x10]);
}

#[test]
fn spec_version_constant() {
    assert_eq!(rust_lin::SPEC_VERSION, "1.10");
    assert_eq!(rust_lin::RELAY_SPEC_VERSION, "1.10");
}

#[test]
fn exchanged_frames_pass_validation() {
    let mut bus = VirtualBusState::new();
    let mut subs = Subscribers::new();
    for id in [0x00u8, 0x10, 0x3F] {
        bus.publish(id, Some(vec![id, 1, 2])).unwrap();
        let f = bus.send_header(&mut subs, id).unwrap();
        assert!(rust_lin::validate_frame(&f).is_ok());
    }
    bus.publish(0x11, Some(vec![])).unwrap();
    assert!(matches!(bus.send_header(&mut subs, 0x11), Err(Error::InvalidFrame { .. })));
}

#[test]
fn publish_keeps_other_ids() {
    let mut bus = VirtualBusState::new();
    let mut subs = Subscribers::new();
    bus.publish(0x01, Some(vec![1])).unwrap();
    bus.publish(0x02, Some(vec![2])).unwrap();
    bus.publish(0x02, None).unwrap();
    assert_eq!(bus.send_header(&mut subs, 0x01).unwrap().data, vec![1]);
}

#[test]
fn send_bus_payload_too_large_propagates() {
    let mut bus = MockState::new();
    let err = bus.publish(0x10, Some(vec![0u8; 9])).unwrap_err();
    assert!(matches!(err, Error::PayloadTooLarge));
    assert!(bus.published_responses().is_empty());
    let mut subs = Subscribers::new();
    assert!(matches!(bus.send_header(&mut subs, 0x10), Err(Error::NoResponse)));
    bus.publish(0x10, Some(vec![0u8; 8])).unwrap();
    assert_eq!(bus.published_responses().len(), 1);
}

#[test]
fn filtered_frames_arrive_in_exchange_order() {
    let mut bus = VirtualBusState::new();
    let mut subs = Subscribers::new();
    let filters = vec![Filter { id: 0x10, all: false }, Filter { id: 0x11, all: false }];
    let rx = bus.subscribe(&mut subs, filters, SubscriberOptions::default()).unwrap();
    bus.publish(0x10, Some(vec![1])).unwrap();
    bus.publish(0x11, Some(vec![2])).unwrap();
    bus.publish(0x20, Some(vec![3])).unwrap();
    for id in [0x11, 0x20, 0x10, 0x20, 0x11] {
        bus.send_header(&mut subs, id).unwrap();
    }
    let got: Vec<u8> = std::iter::from_fn(|| subs.pop(rx)).map(|f| f.id).collect();
    assert_eq!(got, vec![0x11, 0x10, 0x11]);
}

#[test]
fn rate_window_admits_at_most_the_limit() {
    let mut q = SubQueue::new(100, BackPressurePolicy::Block, 3);
    let accepted = (0..10u8).filter(|i| q.push(frame(*i, vec![*i]))).count();
    assert_eq!(accepted, 3);
    assert_eq!(q.len(), 3);
}
