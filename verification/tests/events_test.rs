use modular_agent_core::events::{
    error_cursor, output_cursor, EventRing, DEFAULT_POLL_LIMIT, RING_CAPACITY,
};

#[test]
fn event_ring_caps_and_pages() {
    let mut ring: EventRing<u32> = EventRing::new();
    for i in 0..(RING_CAPACITY + 10) {
        ring.push_error(0, Some("p1".into()), format!("a{i}"), "boom".into());
    }
    assert_eq!(ring.error_count(), RING_CAPACITY);

    // Oldest surviving record has seq 11; paging resumes after a cursor.
    let page = ring.collect_errors(None, 0, 5);
    assert_eq!(page.len(), 5);
    assert_eq!(page[0].seq, 11);
    assert_eq!(page[4].seq, 15);
    let next = ring.collect_errors(None, page[4].seq, 5);
    assert_eq!(next[0].seq, page[4].seq + 1);

    // Preset filter drops non-matching records.
    assert!(ring.collect_errors(Some("other"), 0, 10).is_empty());
}

#[test]
fn outputs_and_errors_share_one_sequence() {
    let mut ring: EventRing<String> = EventRing::new();
    ring.push_output(5, "out".into(), "v1".to_string());
    ring.push_error(6, None, "a".into(), "boom".into());
    ring.push_output(7, "other".into(), "v2".to_string());
    assert_eq!(ring.seq(), 3);
    let outs = ring.collect_outputs(None, 0, DEFAULT_POLL_LIMIT);
    assert_eq!(outs.len(), 2);
    assert_eq!(outs[0].seq, 1);
    assert_eq!(outs[0].value, "v1");
    assert_eq!(outs[1].seq, 3);
    assert_eq!(outs[1].time_ms, 7);
    let only = ring.collect_outputs(Some("out"), 0, DEFAULT_POLL_LIMIT);
    assert_eq!(only.len(), 1);
    assert_eq!(only[0].channel, "out");
    let errs = ring.collect_errors(None, 0, DEFAULT_POLL_LIMIT);
    assert_eq!(errs.len(), 1);
    assert_eq!(errs[0].seq, 2);
    assert_eq!(errs[0].preset_id, None);
    // An error without a preset is filtered out by a preset filter.
    assert!(ring.collect_errors(Some("p"), 0, 10).is_empty());
}

#[test]
fn cursors_follow_the_last_returned_record() {
    let mut ring: EventRing<u8> = EventRing::new();
    for i in 0..3u8 {
        ring.push_output(0, "c".into(), i);
    }
    let page = ring.collect_outputs(None, 0, 2);
    assert_eq!(output_cursor(&page, 0), 2);
    let rest = ring.collect_outputs(None, output_cursor(&page, 0), 2);
    assert_eq!(rest.len(), 1);
    assert_eq!(rest[0].value, 2);
    let empty = ring.collect_outputs(None, 3, 2);
    assert_eq!(output_cursor(&empty, 3), 3);
    assert_eq!(error_cursor(&Vec::new(), 9), 9);
    // A zero limit returns nothing.
    assert!(ring.collect_outputs(None, 0, 0).is_empty());
}

#[test]
fn dropped_events_are_counted() {
    let mut ring: EventRing<u8> = EventRing::new();
    assert_eq!(ring.dropped(), 0);
    ring.add_dropped(4);
    ring.add_dropped(3);
    assert_eq!(ring.dropped(), 7);
    ring.add_dropped(u64::MAX);
    assert_eq!(ring.dropped(), 6);
}

#[test]
fn output_buffer_evicts_oldest() {
    let mut ring: EventRing<usize> = EventRing::new();
    for i in 0..(RING_CAPACITY + 1) {
        ring.push_output(0, "c".into(), i);
    }
    assert_eq!(ring.output_count(), RING_CAPACITY);
    let first = ring.collect_outputs(None, 0, 1);
    assert_eq!(first[0].seq, 2);
    assert_eq!(first[0].value, 1);
}
