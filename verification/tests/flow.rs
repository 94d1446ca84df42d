use veil::trace::flow::{seq_lt, Gap, Reassembler};

#[test]
fn in_order_segments_pass_straight_through() {
    let mut r = Reassembler::default();
    assert_eq!(r.push(100, b"abc", 1.0).unwrap().bytes, b"abc");
    assert_eq!(r.push(103, b"de", 2.0).unwrap().bytes, b"de");
}

/// A retransmit must not duplicate bytes: duplicated bytes become phantom TLS records, and a
/// phantom record is exactly the kind of artefact that would look like padding.
#[test]
fn a_full_retransmit_is_dropped() {
    let mut r = Reassembler::default();
    r.push(100, b"abc", 1.0).unwrap();
    assert!(r.push(100, b"abc", 1.5).is_none());
    assert_eq!(r.push(103, b"d", 2.0).unwrap().bytes, b"d");
}

/// A partial retransmit overlaps the stream; only the new tail may be emitted.
#[test]
fn a_partial_retransmit_contributes_only_its_new_bytes() {
    let mut r = Reassembler::default();
    r.push(100, b"abc", 1.0).unwrap();
    assert_eq!(r.push(102, b"cde", 2.0).unwrap().bytes, b"de");
}

/// Reordering is the case where a naive parser silently truncates. The held segment must be
/// released once its predecessor arrives, in stream order.
#[test]
fn a_reordered_segment_is_held_and_then_released_in_order() {
    let mut r = Reassembler::default();
    r.push(100, b"ab", 0.5).unwrap(); // establish the stream first: see the test below
    assert!(r.push(105, b"fg", 1.0).is_none(), "arrived early, nothing contiguous yet");
    let out = r.push(102, b"cde", 2.0).unwrap();
    assert_eq!(out.bytes, b"cdefg", "both runs, in stream order");
    assert_eq!(out.timestamp, 2.0, "timed by the packet that made them available");
}

/// Overlap between a held segment and the one that fills the hole must not duplicate.
#[test]
fn a_held_segment_overlapping_the_hole_is_trimmed() {
    let mut r = Reassembler::default();
    r.push(100, b"ab", 0.5).unwrap();
    r.push(104, b"efg", 1.0);
    assert_eq!(r.push(102, b"cde", 2.0).unwrap().bytes, b"cdefg");
}

/// An unfillable hole must stop the stream rather than concatenate across it: silently
/// joining the two sides would shift every later record boundary.
#[test]
fn an_unfillable_hole_stops_the_direction() {
    let mut r = Reassembler::default();
    r.push(100, b"a", 1.0).unwrap();
    let huge = vec![0u8; Reassembler::MAX_HELD_BYTES + 1];
    assert!(r.push(1_000, &huge, 2.0).is_none());
    assert_eq!(r.gap(), Some(Gap::Missing { at: 101 }));
    assert!(r.push(101, b"b", 3.0).is_none(), "a broken direction stays broken");
}

/// Captures start mid-connection all the time, and the first segment of a direction is
/// genuinely ambiguous: "the capture began here" and "this packet overtook its predecessor"
/// look identical. The first segment seen is taken as the origin.
#[test]
fn a_capture_started_mid_stream_begins_at_the_first_segment() {
    let mut r = Reassembler::default();
    assert_eq!(r.push(9_999, b"xy", 1.0).unwrap().bytes, b"xy");
}

#[test]
fn sequence_comparison_survives_the_wrap() {
    assert!(seq_lt(u32::MAX, 0));
    assert!(!seq_lt(0, u32::MAX));
    // Two bytes at MAX-1 and MAX leave the stream expecting 0: the wrap must be a
    // continuation, not a hole of four billion bytes.
    let mut r = Reassembler::default();
    r.push(u32::MAX - 1, b"ab", 1.0).unwrap();
    assert_eq!(r.push(0, b"cd", 2.0).unwrap().bytes, b"cd");
}

#[test]
fn several_held_runs_are_released_together() {
    let mut r = Reassembler::default();
    r.push(0, b"a", 0).unwrap();
    assert!(r.push(5, b"fg", 1).is_none());
    assert!(r.push(3, b"def", 2).is_none());
    assert!(r.push(9, b"jk", 3).is_none());
    assert_eq!(r.push(1, b"bc", 4).unwrap().bytes, b"bcdefg");
    assert_eq!(r.push(7, b"hi", 5).unwrap().bytes, b"hijk");
    assert_eq!(r.gap(), None);
}

/// A resend of a held segment that reaches further is not lost, and a shorter one changes nothing.
#[test]
fn the_longer_run_held_at_a_sequence_number_is_kept() {
    let mut r = Reassembler::default();
    r.push(100, b"ab", 0.0).unwrap();
    assert!(r.push(105, b"f", 1.0).is_none());
    assert!(r.push(105, b"fgh", 2.0).is_none());
    assert!(r.push(105, b"fg", 2.5).is_none());
    let out = r.push(102, b"cde", 3.0).unwrap();
    assert_eq!(out.bytes, b"cdefgh");
    assert_eq!(out.timestamp, 3.0);
}

#[test]
fn an_empty_segment_changes_nothing() {
    let mut r = Reassembler::default();
    assert!(r.push(77, b"", 0).is_none());
    assert_eq!(r.push(5, b"xy", 1).unwrap().bytes, b"xy", "it was not taken as the origin");
}

/// The limit is on the bytes that are held: a retransmit does not count twice.
#[test]
fn a_resent_held_segment_does_not_count_twice() {
    let mut r = Reassembler::default();
    r.push(100, b"a", 1.0).unwrap();
    let run = vec![0u8; 600_000];
    assert!(r.push(1000, &run, 2.0).is_none());
    assert!(r.push(1000, &run, 3.0).is_none());
    assert_eq!(r.gap(), None);
}

#[test]
fn exactly_the_limit_can_be_held() {
    let mut r = Reassembler::default();
    r.push(0, b"a", 0).unwrap();
    let half = vec![0u8; Reassembler::MAX_HELD_BYTES / 2];
    assert!(r.push(1_000, &half, 1).is_none());
    assert!(r.push(1_000 + half.len() as u32, &half, 2).is_none());
    assert_eq!(r.gap(), None);
    assert!(r.push(500, b"x", 3).is_none());
    assert_eq!(r.gap(), Some(Gap::Missing { at: 1 }));
}

/// What was released no longer counts.
#[test]
fn released_bytes_make_room_again() {
    let mut r = Reassembler::default();
    let run = vec![7u8; Reassembler::MAX_HELD_BYTES];
    r.push(0, b"a", 0).unwrap();
    assert!(r.push(2, &run, 1).is_none());
    assert_eq!(r.push(1, b"b", 2).unwrap().bytes.len(), run.len() + 1);
    let next = 2 + run.len() as u32;
    assert!(r.push(next + 1, &run, 3).is_none());
    assert_eq!(r.gap(), None);
}

/// Bytes from before the capture began are cut off, whatever they are.
#[test]
fn what_lies_before_the_first_segment_is_cut_off() {
    let mut r = Reassembler::default();
    r.push(100, b"cd", 0).unwrap();
    assert!(r.push(90, b"????????", 1).is_none());
    assert_eq!(r.push(98, b"??cde", 2).unwrap().bytes, b"e");
}

/// Pieces in any order, repeated and overlapping: together they give the stream, once.
#[test]
fn all_pushes_together_give_the_stream() {
    let stream: Vec<u8> = (0..40).collect();
    let origin: u32 = u32::MAX - 15;
    let pieces = [(0, 4), (30, 40), (8, 12), (8, 20), (2, 6), (25, 31), (4, 9), (0, 40), (12, 26)];
    let mut r = Reassembler::default();
    let mut out = Vec::new();
    for (from, to) in pieces {
        let seq = origin.wrapping_add(from as u32);
        if let Some(segment) = r.push(seq, &stream[from..to], from) {
            assert!(!segment.bytes.is_empty());
            assert_eq!(segment.timestamp, from);
            out.extend(segment.bytes);
        }
        assert_eq!(out, &stream[..out.len()]);
    }
    assert_eq!(out, stream);
}

/// Runs that wait on both sides of the wrap are released in stream order all the same.
#[test]
fn held_runs_on_both_sides_of_the_wrap_are_released() {
    let mut r = Reassembler::default();
    r.push(u32::MAX - 7, b"ab", 0).unwrap();
    assert!(r.push(1, b"jk", 1).is_none());
    assert!(r.push(u32::MAX - 3, b"efghi", 2).is_none());
    assert_eq!(r.push(u32::MAX - 5, b"cd", 3).unwrap().bytes, b"cdefghijk");
    assert_eq!(r.push(3, b"l", 4).unwrap().bytes, b"l");
}
