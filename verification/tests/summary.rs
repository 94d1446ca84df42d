use veil::trace::capture::TracedRecord;
use veil::trace::ratio::Ratio;
use veil::trace::records::{Direction, Record};
use veil::trace::sorting::sort_stably;
use veil::trace::summary::{bar_length, by_connection, features, summarise, tally};

fn traced(conn: u32, t: i64, len: usize, dir: Direction, ct: u8) -> TracedRecord<i64> {
    TracedRecord { conn, record: Record { t, dir, len, ct } }
}

fn value(r: Ratio) -> f64 {
    r.num as f64 / r.den as f64
}

fn sample() -> Vec<TracedRecord<i64>> {
    vec![
        traced(7, 3_000_000, 100, Direction::Up, 23),
        traced(2, 5_000_000, 50, Direction::Down, 23),
        traced(7, 1_000_000, 100, Direction::Up, 23),
        traced(7, 0, 4_000, Direction::Down, 22),
        traced(2, 6_000_000, 70, Direction::Up, 23),
        traced(9, 1, 10, Direction::Up, 22),
    ]
}

#[test]
fn a_trace_is_grouped_by_connection_and_ordered_by_time() {
    let groups = by_connection(&sample());
    assert_eq!(groups.iter().map(|g| g.0).collect::<Vec<_>>(), vec![2, 7, 9]);
    assert_eq!(groups[1].1.iter().map(|r| r.t).collect::<Vec<_>>(), vec![0, 1_000_000, 3_000_000]);
    assert!(by_connection(&[]).is_empty());
}

#[test]
fn records_of_one_time_keep_their_order() {
    let list = vec![
        traced(1, 5, 1, Direction::Up, 23),
        traced(1, 4, 2, Direction::Up, 23),
        traced(1, 5, 3, Direction::Up, 23),
        traced(1, 4, 4, Direction::Up, 23),
    ];
    let groups = by_connection(&list);
    assert_eq!(groups[0].1.iter().map(|r| r.len).collect::<Vec<_>>(), vec![2, 4, 1, 3]);
}

#[test]
fn only_connections_with_enough_records_have_features() {
    let all = features(&by_connection(&sample()));
    assert_eq!(all.len(), 2);
    assert_eq!(all[0].bytes, 120);
    assert_eq!(all[1].bytes, 200);
    assert_eq!(value(all[1].median_gap), 2.0);
}

#[test]
fn sizes_are_counted_most_frequent_first() {
    let counts = tally(&[5, 9, 5, 1, 9, 5, 7, 1]);
    let pairs: Vec<(usize, usize)> = counts.iter().map(|c| (c.size, c.count)).collect();
    assert_eq!(pairs, vec![(5, 3), (1, 2), (9, 2), (7, 1)]);
    assert!(tally(&[]).is_empty());
}

#[test]
fn a_summary_says_what_there_is() {
    let s = summarise(&by_connection(&sample())).unwrap();
    assert_eq!((s.connections, s.records, s.bytes), (3, 4, 320));
    let up = s.up.unwrap();
    assert_eq!(up.records, 3);
    assert_eq!(up.sizes.iter().map(|c| (c.size, c.count)).collect::<Vec<_>>(), vec![(100, 2), (70, 1)]);
    assert_eq!(up.shown().len(), 2);
    assert_eq!(up.more(), 0);
    assert_eq!(s.down.unwrap().records, 1);
    let gaps: Vec<(u32, f64)> = s.gaps.iter().map(|g| (g.0, value(g.1))).collect();
    assert_eq!(gaps, vec![(5, 1.05), (25, 1.25), (50, 1.5), (75, 1.75), (95, 1.95)]);
}

#[test]
fn a_trace_without_application_data_has_nothing_to_describe() {
    assert!(summarise(&by_connection(&[traced(1, 0, 10, Direction::Up, 22)])).is_none());
    assert!(summarise(&[]).is_none());
}

#[test]
fn a_single_record_has_no_gaps_and_no_other_direction() {
    let s = summarise(&by_connection(&[traced(1, 0, 10, Direction::Up, 23)])).unwrap();
    assert!(s.gaps.is_empty());
    assert!(s.down.is_none());
}

#[test]
fn only_the_first_sizes_are_shown() {
    let sizes: Vec<TracedRecord<i64>> =
        (0..11).map(|i| traced(1, i, 100 + i as usize, Direction::Down, 23)).collect();
    let down = summarise(&by_connection(&sizes)).unwrap().down.unwrap();
    assert_eq!(down.sizes.len(), 11);
    assert_eq!(down.shown().len(), 8);
    assert_eq!(down.more(), 3);
}

#[test]
fn bars_grow_from_nothing_to_twenty() {
    let bar = |num, den| bar_length(&Ratio { num, den });
    assert_eq!(bar(1, 2), 0);
    assert_eq!(bar(1, 4), 0);
    assert_eq!(bar(1, 1), 20);
    assert_eq!(bar(3, 4), 10);
    assert_eq!(bar(41, 80), 1, "half a step is rounded up");
    assert_eq!(bar(102, 200), 0);
}

#[test]
fn sorting_keeps_every_item() {
    assert_eq!(sort_stably(&[3i64, -1, 2, -1, 7]), vec![-1, -1, 2, 3, 7]);
    assert_eq!(sort_stably::<usize>(&[]), Vec::<usize>::new());
}
