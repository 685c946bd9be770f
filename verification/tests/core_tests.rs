use jsonrpc_client::client::{
    ClientCore, CoreConfig, IdKind, NotifOutcome, TimeoutOutcome,
};
use jsonrpc_client::json::Json;
use jsonrpc_client::response::Id;

fn small_core(cap: usize, buf: usize, timeout: u64) -> ClientCore {
    ClientCore::new(CoreConfig {
        id_kind: IdKind::Number,
        max_concurrent_requests: cap,
        max_buffer_capacity_per_subscription: buf,
        request_timeout_ms: timeout,
    })
}

#[test]
fn admission_respects_the_cap() {
    let mut core = small_core(2, 8, 100);
    let a = core.try_begin_call(0).unwrap();
    let b = core.try_begin_call(0).unwrap();
    assert_eq!(a.1, Id::Number(0));
    assert_eq!(b.1, Id::Number(1));
    // the third concurrent call is not admitted: nothing for the transport
    assert!(core.try_begin_call(0).is_none());
    assert_eq!(core.in_flight(), 2);
    // resolving one frees the slot and the next call is admitted
    assert_eq!(core.on_response(&Id::Number(0)), Some(0));
    let c = core.try_begin_call(5).unwrap();
    assert_eq!(c.1, Id::Number(2));
    assert_eq!(core.in_flight(), 2);
}

#[test]
fn string_id_policy_generates_decimal_strings() {
    let mut core = ClientCore::new(CoreConfig {
        id_kind: IdKind::Str,
        max_concurrent_requests: 16,
        max_buffer_capacity_per_subscription: 8,
        request_timeout_ms: 100,
    });
    for _ in 0..12 {
        core.try_begin_call(0).unwrap();
    }
    let (key, id) = core.try_begin_call(0).unwrap();
    assert_eq!(key, 12);
    assert_eq!(id, Id::Str(b"12".to_vec()));
    assert_eq!(core.on_response(&Id::Str(b"12".to_vec())), Some(12));
    // an id of the wrong kind matches nothing
    assert_eq!(core.on_response(&Id::Number(3)), None);
}

#[test]
fn timeout_is_terminal_and_late_response_is_dropped() {
    let mut core = small_core(4, 8, 50);
    let (key, id) = core.try_begin_call(1000).unwrap();
    // before the deadline nothing happens
    assert_eq!(core.on_timeout(key, 1049), TimeoutOutcome::NotDue);
    assert_eq!(core.in_flight(), 1);
    // at the deadline the call resolves as timed out and the table is clean
    assert_eq!(core.on_timeout(key, 1050), TimeoutOutcome::TimedOut);
    assert_eq!(core.in_flight(), 0);
    // a response arriving after the timeout has no observable effect
    assert_eq!(core.on_response(&id), None);
    assert_eq!(core.in_flight(), 0);
    // and the timeout itself is not reported twice
    assert_eq!(core.on_timeout(key, 2000), TimeoutOutcome::Unknown);
}

#[test]
fn duplicate_response_is_rejected() {
    let mut core = small_core(4, 8, 50);
    let (_, id) = core.try_begin_call(0).unwrap();
    assert_eq!(core.on_response(&id), Some(0));
    // single fulfillment: the second response for the same id is dropped
    assert_eq!(core.on_response(&id), None);
}

#[test]
fn cancellation_releases_slot_and_entry() {
    let mut core = small_core(1, 8, 50);
    let (key, _) = core.try_begin_call(0).unwrap();
    assert!(core.try_begin_call(0).is_none());
    assert!(core.cancel(key));
    assert!(!core.cancel(key));
    assert!(core.try_begin_call(0).is_some());
}

#[test]
fn notifications_are_delivered_in_arrival_order() {
    let mut core = small_core(4, 8, 50);
    assert!(core.subscribe(7));
    assert!(!core.subscribe(7));
    assert_eq!(core.on_notification(7, Json::Int(1)), NotifOutcome::Enqueued);
    assert_eq!(core.on_notification(7, Json::Int(2)), NotifOutcome::Enqueued);
    assert_eq!(core.on_notification(9, Json::Int(3)), NotifOutcome::UnknownSub);
    assert_eq!(core.next_notification(7), Some(Json::Int(1)));
    assert_eq!(core.next_notification(7), Some(Json::Int(2)));
    assert_eq!(core.next_notification(7), None);
}

#[test]
fn overflow_drops_oldest_deterministically() {
    for _ in 0..3 {
        let mut core = small_core(4, 2, 50);
        assert!(core.subscribe(1));
        assert_eq!(core.on_notification(1, Json::Int(10)), NotifOutcome::Enqueued);
        assert_eq!(core.on_notification(1, Json::Int(11)), NotifOutcome::Enqueued);
        // the queue is full: the oldest payload is dropped, repeatably
        assert_eq!(core.on_notification(1, Json::Int(12)), NotifOutcome::DroppedOldest);
        assert_eq!(core.next_notification(1), Some(Json::Int(11)));
        assert_eq!(core.next_notification(1), Some(Json::Int(12)));
        assert_eq!(core.next_notification(1), None);
    }
}

#[test]
fn unsubscribe_destroys_the_queue() {
    let mut core = small_core(4, 4, 50);
    assert!(core.subscribe(3));
    core.on_notification(3, Json::Null);
    assert!(core.unsubscribe(3));
    assert!(!core.unsubscribe(3));
    assert_eq!(core.next_notification(3), None);
    assert_eq!(core.on_notification(3, Json::Null), NotifOutcome::UnknownSub);
}

#[test]
fn deadline_saturates_near_the_end_of_time() {
    let mut core = small_core(2, 2, 1000);
    let (key, _) = core.try_begin_call(u64::MAX - 10).unwrap();
    // the deadline saturates instead of wrapping: not yet due...
    assert_eq!(core.on_timeout(key, u64::MAX - 1), TimeoutOutcome::NotDue);
    // ...and due exactly at the end of time
    assert_eq!(core.on_timeout(key, u64::MAX), TimeoutOutcome::TimedOut);
}

#[test]
fn close_resolves_every_pending_call_and_subscription() {
    let mut core = small_core(8, 4, 50);
    let (k0, _) = core.try_begin_call(0).unwrap();
    let (k1, _) = core.try_begin_call(0).unwrap();
    let (k2, _) = core.try_begin_call(0).unwrap();
    assert!(core.subscribe(40));
    assert!(core.subscribe(41));
    let (calls, subs) = core.on_close();
    assert_eq!(calls, vec![k0, k1, k2]);
    assert_eq!(subs, vec![40, 41]);
    assert_eq!(core.in_flight(), 0);
    // nothing is left: every later event is a no-op
    assert_eq!(core.on_response(&Id::Number(k1)), None);
    assert_eq!(core.on_notification(40, Json::Null), NotifOutcome::UnknownSub);
}
