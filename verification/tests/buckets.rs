use candle_generator::{truncate_to_tf, Timeframe, MAX_TIMESTAMP, MIN_TIMESTAMP};

#[test]
fn bucket_start_of_a_recent_instant() {
    assert_eq!(truncate_to_tf(1700001234567, &Timeframe::m1), 1700001180000);
    assert_eq!(truncate_to_tf(1700001234567, &Timeframe::m5), 1700001000000);
    assert_eq!(truncate_to_tf(1700001234567, &Timeframe::m15), 1700001000000);
    assert_eq!(truncate_to_tf(1700001234567, &Timeframe::m30), 1700001000000);
    assert_eq!(truncate_to_tf(1700001234567, &Timeframe::h1), 1699999200000);
    assert_eq!(truncate_to_tf(1700001234567, &Timeframe::h4), 1699992000000);
    assert_eq!(truncate_to_tf(1700001234567, &Timeframe::d1), 1699920000000);
}

#[test]
fn bucket_start_before_the_epoch() {
    assert_eq!(truncate_to_tf(-1234567890123, &Timeframe::m1), -1234567920000);
    assert_eq!(truncate_to_tf(-1234567890123, &Timeframe::m5), -1234568100000);
    assert_eq!(truncate_to_tf(-1234567890123, &Timeframe::m15), -1234568700000);
    assert_eq!(truncate_to_tf(-1234567890123, &Timeframe::m30), -1234569600000);
    assert_eq!(truncate_to_tf(-1234567890123, &Timeframe::h1), -1234569600000);
    assert_eq!(truncate_to_tf(-1234567890123, &Timeframe::h4), -1234569600000);
    assert_eq!(truncate_to_tf(-1234567890123, &Timeframe::d1), -1234569600000);
}

#[test]
fn bucket_start_one_millisecond_before_the_epoch() {
    assert_eq!(truncate_to_tf(-1, &Timeframe::m1), -60000);
    assert_eq!(truncate_to_tf(-1, &Timeframe::m5), -300000);
    assert_eq!(truncate_to_tf(-1, &Timeframe::m15), -900000);
    assert_eq!(truncate_to_tf(-1, &Timeframe::m30), -1800000);
    assert_eq!(truncate_to_tf(-1, &Timeframe::h1), -3600000);
    assert_eq!(truncate_to_tf(-1, &Timeframe::h4), -14400000);
    assert_eq!(truncate_to_tf(-1, &Timeframe::d1), -86400000);
}

#[test]
fn bucket_start_of_an_aligned_instant_is_itself() {
    let day = 1_699_920_000_000;
    assert_eq!(truncate_to_tf(day, &Timeframe::m1), day);
    assert_eq!(truncate_to_tf(day, &Timeframe::m5), day);
    assert_eq!(truncate_to_tf(day, &Timeframe::m15), day);
    assert_eq!(truncate_to_tf(day, &Timeframe::m30), day);
    assert_eq!(truncate_to_tf(day, &Timeframe::h1), day);
    assert_eq!(truncate_to_tf(day, &Timeframe::h4), day);
    assert_eq!(truncate_to_tf(day, &Timeframe::d1), day);
}

#[test]
fn bucket_start_at_the_ends_of_the_range() {
    assert_eq!(truncate_to_tf(MIN_TIMESTAMP, &Timeframe::m1), MIN_TIMESTAMP);
    assert_eq!(truncate_to_tf(MIN_TIMESTAMP, &Timeframe::m5), MIN_TIMESTAMP);
    assert_eq!(truncate_to_tf(MIN_TIMESTAMP, &Timeframe::m15), MIN_TIMESTAMP);
    assert_eq!(truncate_to_tf(MIN_TIMESTAMP, &Timeframe::m30), MIN_TIMESTAMP);
    assert_eq!(truncate_to_tf(MIN_TIMESTAMP, &Timeframe::h1), MIN_TIMESTAMP);
    assert_eq!(truncate_to_tf(MIN_TIMESTAMP, &Timeframe::h4), MIN_TIMESTAMP);
    assert_eq!(truncate_to_tf(MIN_TIMESTAMP, &Timeframe::d1), MIN_TIMESTAMP);
    assert_eq!(truncate_to_tf(MAX_TIMESTAMP, &Timeframe::m1), 7776000000000000);
    assert_eq!(truncate_to_tf(MAX_TIMESTAMP, &Timeframe::m5), 7776000000000000);
    assert_eq!(truncate_to_tf(MAX_TIMESTAMP, &Timeframe::m15), 7776000000000000);
    assert_eq!(truncate_to_tf(MAX_TIMESTAMP, &Timeframe::m30), 7776000000000000);
    assert_eq!(truncate_to_tf(MAX_TIMESTAMP, &Timeframe::h1), 7776000000000000);
    assert_eq!(truncate_to_tf(MAX_TIMESTAMP, &Timeframe::h4), 7776000000000000);
    assert_eq!(truncate_to_tf(MAX_TIMESTAMP, &Timeframe::d1), 7776000000000000);
}

#[test]
fn hierarchy_table() {
    assert_eq!(Timeframe::m1.parent_of(), Some(Timeframe::m5));
    assert_eq!(Timeframe::m5.parent_of(), Some(Timeframe::m15));
    assert_eq!(Timeframe::m15.parent_of(), Some(Timeframe::m30));
    assert_eq!(Timeframe::m30.parent_of(), Some(Timeframe::h1));
    assert_eq!(Timeframe::h1.parent_of(), Some(Timeframe::h4));
    assert_eq!(Timeframe::h4.parent_of(), Some(Timeframe::d1));
    assert_eq!(Timeframe::d1.parent_of(), None);
    assert_eq!(Timeframe::m1.ratio(), None);
    assert_eq!(Timeframe::m5.ratio(), Some(5));
    assert_eq!(Timeframe::m15.ratio(), Some(3));
    assert_eq!(Timeframe::m30.ratio(), Some(2));
    assert_eq!(Timeframe::h1.ratio(), Some(2));
    assert_eq!(Timeframe::h4.ratio(), Some(4));
    assert_eq!(Timeframe::d1.ratio(), Some(6));
}

#[test]
fn interval_lengths_multiply_up_the_hierarchy() {
    let order = [
        Timeframe::m1,
        Timeframe::m5,
        Timeframe::m15,
        Timeframe::m30,
        Timeframe::h1,
        Timeframe::h4,
        Timeframe::d1,
    ];
    assert_eq!(Timeframe::m1.duration_ms(), 60_000);
    assert_eq!(Timeframe::d1.duration_ms(), 86_400_000);
    for (rank, tf) in order.iter().enumerate() {
        assert_eq!(tf.index(), rank);
        if let Some(up) = tf.parent_of() {
            assert_eq!(up.duration_ms(), tf.duration_ms() * up.ratio().unwrap() as i64);
        }
    }
}
