use veil::trace::ratio::{Ratio, Standing};
use veil::trace::records::{Direction, Record, CT_APPLICATION_DATA};
use veil::trace::stats::{auc, quantile, separations, ConnectionFeatures, Support};

fn rec(t: f64, len: usize, dir: Direction) -> Record<i64> {
    Record { t: (t * 1_000_000.0).round() as i64, dir, len, ct: CT_APPLICATION_DATA }
}

fn value(r: Ratio) -> f64 {
    r.num as f64 / r.den as f64
}

fn whole(values: &[i128]) -> Vec<Ratio> {
    values.iter().map(|n| Ratio::whole(*n)).collect()
}

#[test]
fn a_metronome_has_no_spread_in_its_gaps() {
    let records: Vec<Record<i64>> =
        (0..20).map(|i| rec(i as f64 * 0.5, 261, Direction::Up)).collect();

    let f = ConnectionFeatures::from_records(&records).unwrap();

    assert_eq!(value(f.median_gap), 0.5);
    assert_eq!(value(f.gap_iqr), 0.0, "a fixed cadence is exactly this");
    assert_eq!(f.distinct_sizes, 1);
    assert_eq!(value(f.modal_size_share), 1.0);
}

/// The shape the rig is meant to catch: bucketed sizes concentrate, ordinary traffic spreads.
#[test]
fn bucketing_shows_up_as_few_distinct_sizes() {
    let bucketed: Vec<Record<i64>> =
        (0..30).map(|i| rec(i as f64, [261, 1029][i % 2], Direction::Up)).collect();
    let web: Vec<Record<i64>> =
        (0..30).map(|i| rec(i as f64, 200 + i * 37, Direction::Up)).collect();

    let b = ConnectionFeatures::from_records(&bucketed).unwrap();
    let w = ConnectionFeatures::from_records(&web).unwrap();

    assert_eq!(b.distinct_sizes, 2);
    assert_eq!(w.distinct_sizes, 30);
    assert!(value(b.modal_size_share) > value(w.modal_size_share));
}

/// One record is not a connection: no gaps exist, so no timing feature does either.
#[test]
fn a_connection_with_one_record_yields_nothing() {
    assert!(ConnectionFeatures::from_records(&[rec(1.0, 261, Direction::Up)]).is_none());
}

/// Handshake records must not be mixed in: a large certificate would dominate the size
/// distribution of an otherwise tiny session.
#[test]
fn handshake_records_are_left_out_of_the_shape() {
    let records = vec![
        Record { t: 0, dir: Direction::Down, len: 4000, ct: 22 },
        rec(1.0, 261, Direction::Up),
        rec(2.0, 261, Direction::Up),
    ];

    let f = ConnectionFeatures::from_records(&records).unwrap();

    assert_eq!(f.records, 2);
    assert_eq!(f.bytes, 522, "the certificate is not part of the session's shape");
}

#[test]
fn perfectly_separated_groups_score_one_and_overlapping_ones_score_half() {
    assert_eq!(value(auc(&whole(&[3, 4, 5]), &whole(&[0, 1, 2]))), 1.0);
    assert_eq!(value(auc(&whole(&[0, 1, 2]), &whole(&[3, 4, 5]))), 0.0);
    assert_eq!(value(auc(&whole(&[1, 2]), &whole(&[1, 2]))), 0.5);
}

/// A feature that predicts backwards is just as useful to an adversary, so separation folds
/// the AUC around 0.5 rather than rewarding the direction we happened to label.
#[test]
fn separation_is_symmetric_so_a_backwards_feature_still_counts() {
    let quiet: Vec<ConnectionFeatures> = (0..5)
        .map(|i| {
            ConnectionFeatures::from_records(
                &(0..10).map(|j| rec(j as f64, 261 + i, Direction::Up)).collect::<Vec<_>>(),
            )
            .unwrap()
        })
        .collect();
    let loud: Vec<ConnectionFeatures> = (0..5)
        .map(|i| {
            ConnectionFeatures::from_records(
                &(0..10)
                    .map(|j| rec(j as f64 * 0.01, 9000 + i * 11, Direction::Up))
                    .collect::<Vec<_>>(),
            )
            .unwrap()
        })
        .collect();

    let ranked = separations(&quiet, &loud);

    assert!(value(ranked[0].separation) > 0.99, "these two are trivially separable");
    assert!(ranked.iter().all(|f| value(f.separation) >= 0.5 - 1e-9));

    let back = separations(&loud, &quiet);
    for f in &ranked {
        let same = back.iter().find(|g| g.feature == f.feature).unwrap();
        assert_eq!(value(same.separation), value(f.separation));
    }
}

/// A handful of captures must announce itself as a handful.
#[test]
fn a_small_sample_is_flagged_as_suggestive() {
    assert!(Support { connections_a: 4, connections_b: 400 }.is_suggestive_only());
    assert!(!Support { connections_a: 20, connections_b: 20 }.is_suggestive_only());
}

#[test]
fn quantiles_interpolate_and_survive_degenerate_input() {
    assert_eq!(value(quantile(&[], 1, 2)), 0.0);
    assert_eq!(value(quantile(&[7], 9, 10)), 7.0);
    assert_eq!(value(quantile(&[0, 1, 2, 3], 1, 2)), 1.5);
}

#[test]
fn quantiles_reach_from_the_first_value_to_the_last() {
    let sorted = [-10, 0, 30, 31, 1_000];
    assert_eq!(value(quantile(&sorted, 0, 1)), -10.0);
    assert_eq!(value(quantile(&sorted, 1, 1)), 1_000.0);
    assert_eq!(value(quantile(&sorted, 1, 4)), 0.0);
    assert_eq!(value(quantile(&sorted, 1, 8)), -5.0);
}

#[test]
fn every_feature_has_its_formula() {
    let records = vec![
        rec(10.0, 100, Direction::Up),
        rec(11.0, 50, Direction::Down),
        rec(13.0, 100, Direction::Up),
        rec(18.0, 100, Direction::Up),
    ];
    let f = ConnectionFeatures::from_records(&records).unwrap();
    assert_eq!((f.records, f.bytes, f.duration), (4, 350, 8_000_000));
    assert_eq!((f.up_records, f.down_records, f.distinct_sizes), (3, 1, 2));
    assert_eq!(value(f.modal_size_share), 0.25, "one record in four is of the smallest size");
    assert_eq!(value(f.median_gap), 2.0);
    assert_eq!(value(f.gap_iqr), 2.0, "from 1.5 to 3.5 seconds");
    assert_eq!(value(f.bytes_per_second), 43.75);

    let named = f.named();
    let names: Vec<&str> = named.iter().map(|n| n.0).collect();
    assert_eq!(
        names,
        vec![
            "records",
            "bytes",
            "duration",
            "up_down_ratio",
            "modal_size_share",
            "distinct_sizes",
            "median_gap",
            "gap_iqr",
            "bytes_per_second"
        ]
    );
    let values: Vec<f64> = named.iter().map(|n| value(n.1)).collect();
    assert_eq!(values, vec![4.0, 350.0, 8.0, 3.0, 0.25, 2.0, 2.0, 2.0, 43.75]);
}

#[test]
fn a_connection_of_one_moment_or_one_direction_divides_by_nothing() {
    let records = vec![rec(1.0, 10, Direction::Up), rec(1.0, 20, Direction::Up)];
    let f = ConnectionFeatures::from_records(&records).unwrap();
    assert_eq!(value(f.bytes_per_second), 0.0);
    assert_eq!(value(f.named()[3].1), 2.0);
}

#[test]
fn auc_counts_ties_half_and_empty_groups_as_a_coin_flip() {
    let r = auc(&whole(&[1, 2]), &whole(&[1, 1, 3]));
    assert_eq!((r.num, r.den), (6, 12));
    assert_eq!(value(auc(&[], &whole(&[1]))), 0.5);
    assert_eq!(value(auc(&whole(&[1]), &[])), 0.5);
}

#[test]
fn swapping_the_groups_turns_auc_around() {
    let (a, b) = (whole(&[1, 5, 9]), whole(&[2, 5, 5, 7]));
    assert_eq!(value(auc(&a, &b)) + value(auc(&b, &a)), 1.0);
}

#[test]
fn features_are_ranked_best_first_and_ties_keep_their_order() {
    let a = vec![
        ConnectionFeatures::from_records(&[
            rec(0.0, 10, Direction::Up),
            rec(1.0, 10, Direction::Up),
        ])
        .unwrap(),
    ];
    let b = vec![
        ConnectionFeatures::from_records(&[
            rec(0.0, 30, Direction::Up),
            rec(1.0, 10, Direction::Up),
        ])
        .unwrap(),
    ];
    let ranked = separations(&a, &b);
    let names: Vec<&str> = ranked.iter().map(|f| f.feature).collect();
    assert_eq!(
        names,
        vec![
            "bytes",
            "modal_size_share",
            "distinct_sizes",
            "bytes_per_second",
            "records",
            "duration",
            "up_down_ratio",
            "median_gap",
            "gap_iqr"
        ]
    );
    assert!(ranked[..4].iter().all(|f| value(f.separation) == 1.0));
    assert!(ranked[4..].iter().all(|f| value(f.separation) == 0.5));
    assert!(separations(&[], &[]).is_empty());
    assert_eq!(separations(&a, &[]).len(), 9);
}

#[test]
fn a_set_is_not_separated_from_itself() {
    let a: Vec<ConnectionFeatures> = (1..4)
        .map(|i| {
            ConnectionFeatures::from_records(&[
                rec(0.0, 10 * i, Direction::Up),
                rec(i as f64, 7, Direction::Down),
            ])
            .unwrap()
        })
        .collect();
    assert!(separations(&a, &a).iter().all(|f| value(f.separation) == 0.5));
}

#[test]
fn fractions_are_compared_exactly() {
    let r = |num, den| Ratio { num, den };
    assert_eq!(r(1, 3).compare(&r(2, 6)), Standing::Level);
    assert_eq!(r(-1, 3).compare(&r(-1, 4)), Standing::Below);
    assert_eq!(r(-1, 3).compare(&r(0, 9)), Standing::Below);
    assert_eq!(r(5, 1).compare(&r(-5, 1)), Standing::Above);
    assert_eq!(r(i128::MAX, 1).compare(&r(i128::MAX, 2)), Standing::Above);
    assert_eq!(r(i128::MIN, u64::MAX).compare(&r(i128::MIN, u64::MAX - 1)), Standing::Above);
    assert_eq!(r(u64::MAX as i128, u64::MAX).compare(&r(1, 1)), Standing::Level);
}
