use storescp::accumulator::Accumulator;
use storescp::pdu::{Channel, PduItem};

fn item(channel: Channel, is_terminal: bool, payload: &[u8]) -> PduItem {
    PduItem { context_id: 1, channel, is_terminal, payload: payload.to_vec() }
}

#[test]
fn reassembles_ordered_split_exactly_once() {
    let mut acc = Accumulator::new();
    assert_eq!(acc.feed(&item(Channel::Data, false, b"he")), None);
    assert_eq!(acc.feed(&item(Channel::Data, false, b"ll")), None);
    let out = acc.feed(&item(Channel::Data, true, b"o!"));
    assert_eq!(out, Some(b"hello!".to_vec()));
    // the buffer was cleared: a following message starts fresh
    let out2 = acc.feed(&item(Channel::Data, true, b"next"));
    assert_eq!(out2, Some(b"next".to_vec()));
}

#[test]
fn single_terminal_fragment_is_the_whole_message() {
    let mut acc = Accumulator::new();
    assert_eq!(acc.feed(&item(Channel::Command, true, b"whole")), Some(b"whole".to_vec()));
}

#[test]
fn tolerates_empty_payloads() {
    let mut acc = Accumulator::new();
    assert_eq!(acc.feed(&item(Channel::Data, false, b"")), None);
    assert_eq!(acc.feed(&item(Channel::Data, false, b"abc")), None);
    assert_eq!(acc.feed(&item(Channel::Data, false, b"")), None);
    // terminal item with empty payload completes what was buffered
    assert_eq!(acc.feed(&item(Channel::Data, true, b"")), Some(b"abc".to_vec()));
}

#[test]
fn empty_message_from_lone_empty_terminal() {
    let mut acc = Accumulator::new();
    assert_eq!(acc.feed(&item(Channel::Command, true, b"")), Some(Vec::new()));
}

#[test]
fn channels_accumulate_independently() {
    let mut acc = Accumulator::new();
    // interleave command and data fragments in arbitrary order
    assert_eq!(acc.feed(&item(Channel::Command, false, b"CMD-")), None);
    assert_eq!(acc.feed(&item(Channel::Data, false, b"DAT-")), None);
    assert_eq!(acc.feed(&item(Channel::Data, false, b"A")), None);
    assert_eq!(acc.feed(&item(Channel::Command, false, b"B")), None);
    // terminate each channel independently; no cross-contamination
    assert_eq!(acc.feed(&item(Channel::Command, true, b"!")), Some(b"CMD-B!".to_vec()));
    assert_eq!(acc.feed(&item(Channel::Data, true, b"?")), Some(b"DAT-A?".to_vec()));
}

#[test]
fn completing_one_channel_leaves_the_other_buffering() {
    let mut acc = Accumulator::new();
    assert_eq!(acc.feed(&item(Channel::Data, false, b"half")), None);
    assert_eq!(acc.feed(&item(Channel::Command, true, b"cmd")), Some(b"cmd".to_vec()));
    assert_eq!(acc.feed(&item(Channel::Data, true, b"-done")), Some(b"half-done".to_vec()));
}
