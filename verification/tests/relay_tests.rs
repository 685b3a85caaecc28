use identity_bridge::pallet::Event;
use identity_bridge::relay::{Relay, Outcome, MAX_ATTEMPTS};

fn digest(b: u8) -> [u8; 32] {
    [b; 32]
}

fn issued(b: u8, index: u64, root_byte: u8) -> Event {
    Event::IdentityIssued { did: digest(b), index, root: digest(root_byte) }
}

#[test]
fn updates_reach_a_spoke_in_production_order() {
    let r1 = digest(0x11);
    let r2 = digest(0x22);
    let mut relay = Relay::new(1);
    relay.observe(&issued(1, 0, 0x11));
    relay.observe(&issued(2, 1, 0x22));
    assert_eq!(relay.cursor, 2);

    // the proof for the later root finishes first; it must still wait
    relay.proof_ready(0, &r2);
    assert_eq!(relay.next_action(0), None);

    relay.proof_ready(0, &r1);
    assert_eq!(relay.next_action(0), Some(r1));
    relay.dispatched(0);
    // nothing else goes out while the first update is in flight
    assert_eq!(relay.next_action(0), None);
    relay.submission_result(0, Outcome::Ack);
    assert_eq!(relay.next_action(0), Some(r2));
    relay.dispatched(0);
    relay.submission_result(0, Outcome::Ack);
    assert_eq!(relay.next_action(0), None);
    assert_eq!(relay.spokes[0].acked, 2);
}

#[test]
fn events_without_a_root_only_move_the_cursor() {
    let mut relay = Relay::new(2);
    relay.observe(&Event::IdentityRevoked { did: digest(1) });
    relay.observe(&Event::IssuerAdded { issuer: digest(2) });
    assert_eq!(relay.cursor, 2);
    assert_eq!(relay.spokes[0].pending.len(), 0);
    assert_eq!(relay.spokes[1].pending.len(), 0);
}

#[test]
fn each_spoke_gets_its_own_queue() {
    let r1 = digest(0x11);
    let mut relay = Relay::new(2);
    relay.observe(&issued(1, 0, 0x11));
    relay.proof_ready(0, &r1);
    // one spoke's backlog does not gate the other
    assert_eq!(relay.next_action(0), Some(r1));
    assert_eq!(relay.next_action(1), None);
    relay.proof_ready(1, &r1);
    assert_eq!(relay.next_action(1), Some(r1));
}

#[test]
fn transient_failures_back_off_then_escalate() {
    let r1 = digest(0x11);
    let mut relay = Relay::new(1);
    relay.observe(&issued(1, 0, 0x11));
    relay.proof_ready(0, &r1);

    assert_eq!(relay.backoff_delay(0), 250);
    let mut expected: u64 = 250;
    for attempt in 0..MAX_ATTEMPTS {
        assert_eq!(relay.next_action(0), Some(r1));
        relay.dispatched(0);
        relay.submission_result(0, Outcome::Transient);
        if attempt + 1 < MAX_ATTEMPTS {
            if attempt < 6 {
                expected *= 2;
            }
            assert_eq!(relay.backoff_delay(0), expected);
        }
    }
    // retries exhausted: the spoke is faulted, the update stays visible
    assert!(relay.spokes[0].faulted);
    assert_eq!(relay.next_action(0), None);
    assert_eq!(relay.spokes[0].pending[0].root, r1);
    assert_eq!(relay.spokes[0].acked, 0);
}

#[test]
fn permanent_failures_fault_at_once() {
    let r1 = digest(0x11);
    let mut relay = Relay::new(1);
    relay.observe(&issued(1, 0, 0x11));
    relay.proof_ready(0, &r1);
    relay.dispatched(0);
    relay.submission_result(0, Outcome::Permanent);
    assert!(relay.spokes[0].faulted);
    assert_eq!(relay.next_action(0), None);
    // the failed update is surfaced, not skipped
    assert_eq!(relay.spokes[0].pending[0].root, r1);
}
