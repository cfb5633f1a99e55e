use eigenlog::error::Error;
use eigenlog::id::{
    slice_be_to_u128, timestamp_ms, u128_to_key, ulid_ceiling, ulid_floor, IdGenerator, Timestamp,
};
use eigenlog::identity::{App, Host};
use eigenlog::inventory::detail;
use eigenlog::level::Level;

const SPAN: u128 = 1u128 << 80;

#[test]
fn a_key_is_the_sixteen_bytes_of_the_identifier_most_significant_first() {
    let id: u128 = 0x0102_0304_0506_0708_090a_0b0c_0d0e_0f10;
    assert_eq!(
        u128_to_key(id),
        vec![1, 2, 3, 4, 5, 6, 7, 8, 9, 10, 11, 12, 13, 14, 15, 16]
    );
    assert_eq!(u128_to_key(0), vec![0u8; 16]);
    assert_eq!(u128_to_key(u128::MAX), vec![0xffu8; 16]);
    assert_eq!(u128_to_key(1)[15], 1);
    assert_eq!(u128_to_key(256)[14], 1);
}

#[test]
fn a_key_reads_back_as_its_identifier() {
    for id in [0u128, 1, 255, 256, 0xdead_beef, SPAN - 1, SPAN, SPAN + 1, u128::MAX - 1, u128::MAX] {
        let key = u128_to_key(id);
        assert_eq!(key.len(), 16);
        assert_eq!(slice_be_to_u128(&key).unwrap(), id);
        assert_eq!(id.to_be_bytes().to_vec(), key);
    }
}

#[test]
fn a_key_of_another_length_is_refused_with_its_length() {
    for n in [0usize, 1, 15, 17, 32] {
        let bytes = vec![7u8; n];
        match slice_be_to_u128(&bytes) {
            Err(Error::InvalidLengthBytesForUlid(m)) => assert_eq!(m, n),
            _ => panic!("a key of {} bytes was not refused", n),
        }
    }
}

#[test]
fn the_order_of_the_keys_is_the_order_of_the_identifiers() {
    let ids = [0u128, 1, 255, 256, 257, 65_535, 65_536, SPAN - 1, SPAN, 5 * SPAN + 3, u128::MAX];
    for a in ids {
        for b in ids {
            assert_eq!(a < b, u128_to_key(a) < u128_to_key(b));
        }
    }
}

#[test]
fn the_floor_keeps_the_time_and_clears_the_rest() {
    let id: u128 = 0x0102_0304_0506_0708_090a_0b0c_0d0e_0f10;
    assert_eq!(ulid_floor(id), 0x0102_0304_0506_0000_0000_0000_0000_0000);
    assert_eq!(
        u128_to_key(ulid_floor(id)),
        vec![1, 2, 3, 4, 5, 6, 0, 0, 0, 0, 0, 0, 0, 0, 0, 0]
    );
    assert_eq!(ulid_floor(0), 0);
    assert_eq!(ulid_floor(SPAN - 1), 0);
    assert_eq!(ulid_floor(SPAN), SPAN);
    assert_eq!(ulid_floor(u128::MAX), u128::MAX - (SPAN - 1));
}

#[test]
fn the_ceiling_keeps_the_time_and_fills_the_rest() {
    let id: u128 = 0x0102_0304_0506_0708_090a_0b0c_0d0e_0f10;
    assert_eq!(ulid_ceiling(id), 0x0102_0304_0506_ffff_ffff_ffff_ffff_ffff);
    assert_eq!(
        u128_to_key(ulid_ceiling(id)),
        vec![1, 2, 3, 4, 5, 6, 255, 255, 255, 255, 255, 255, 255, 255, 255, 255]
    );
    assert_eq!(ulid_ceiling(0), SPAN - 1);
    assert_eq!(ulid_ceiling(SPAN - 1), SPAN - 1);
    assert_eq!(ulid_ceiling(SPAN), 2 * SPAN - 1);
    assert_eq!(ulid_ceiling(u128::MAX), u128::MAX);
}

#[test]
fn every_identifier_of_a_millisecond_lies_between_its_floor_and_its_ceiling() {
    let at: u128 = (1_700_000_000_123u128 << 80) | 0x1234_5678;
    let lo = ulid_floor(at);
    let hi = ulid_ceiling(at);
    for low in [0u128, 1, 0x1234_5678, SPAN / 2, SPAN - 1] {
        let id = (1_700_000_000_123u128 << 80) | low;
        assert!(lo <= id && id <= hi);
    }
    let before = (1_700_000_000_122u128 << 80) | (SPAN - 1);
    let after = 1_700_000_000_124u128 << 80;
    assert!(before < lo);
    assert!(after > hi);
}

#[test]
fn the_bounds_of_a_time_are_those_of_its_millisecond() {
    let t = Timestamp::from_millis(1_700_000_000_123).unwrap();
    assert_eq!(t.millis(), 1_700_000_000_123);
    assert_eq!(t.floor(), 1_700_000_000_123u128 << 80);
    assert_eq!(t.ceiling(), (1_700_000_000_123u128 << 80) + (SPAN - 1));
    let zero = Timestamp::from_millis(0).unwrap();
    assert_eq!(zero.floor(), 0);
    assert_eq!(zero.ceiling(), SPAN - 1);
    let last = Timestamp::from_millis((1u64 << 48) - 1).unwrap();
    assert_eq!(last.floor(), u128::MAX - (SPAN - 1));
    assert_eq!(last.ceiling(), u128::MAX);
}

#[test]
fn a_time_has_to_fit_the_forty_eight_bits() {
    assert!(Timestamp::from_millis((1u64 << 48) - 1).is_some());
    assert!(Timestamp::from_millis(1u64 << 48).is_none());
    assert!(Timestamp::from_millis(u64::MAX).is_none());
}

#[test]
fn the_timestamp_is_the_high_forty_eight_bits() {
    assert_eq!(timestamp_ms(0), 0);
    assert_eq!(timestamp_ms(SPAN - 1), 0);
    assert_eq!(timestamp_ms(SPAN), 1);
    assert_eq!(timestamp_ms((1_700_000_000_123u128 << 80) | 99), 1_700_000_000_123);
    assert_eq!(timestamp_ms(u128::MAX), (1u64 << 48) - 1);
    assert_eq!(Timestamp::of_id((42u128 << 80) | 7).millis(), 42);
}

fn day_of(id: u128) -> i32 {
    let host = Host::parse("h").unwrap();
    let app = App::parse("a").unwrap();
    let d = detail(&host, &app, Level::Info, &vec![u128_to_key(id)]).unwrap();
    assert_eq!(d.row_detail.len(), 1);
    assert_eq!(d.row_detail[0].1, 1);
    d.row_detail[0].0
}

#[test]
fn the_day_of_an_identifier_is_its_day_in_utc() {
    // 1 January 1970 is day 719 163 of the calendar
    assert_eq!(day_of(0), 719_163);
    assert_eq!(day_of(86_399_999u128 << 80), 719_163);
    assert_eq!(day_of(86_400_000u128 << 80), 719_164);
    // 1 January 2021, 00:00:00 UTC
    assert_eq!(day_of(1_609_459_200_000u128 << 80), 719_163 + 18_628);
    // the last millisecond of 31 December 2020
    assert_eq!(day_of((1_609_459_199_999u128 << 80) | 5), 719_163 + 18_627);
    // the last millisecond that an identifier can hold
    assert_eq!(day_of(u128::MAX), 719_163 + (((1u64 << 48) - 1) / 86_400_000) as i32);
}

#[test]
fn a_generator_hands_out_rising_identifiers() {
    let mut gen = IdGenerator::new();
    let mut last = 0u128;
    for _ in 0..1000 {
        let id = gen.generate().unwrap();
        assert!(id > last);
        last = id;
    }
}

#[test]
fn a_generator_makes_identifiers_of_the_present_time() {
    let mut gen = IdGenerator::new();
    let id = gen.generate().unwrap();
    // after 2020 and before 2100
    assert!(timestamp_ms(id) > 1_577_836_800_000);
    assert!(timestamp_ms(id) < 4_102_444_800_000);
}

#[test]
fn a_generator_refuses_what_does_not_rise() {
    let mut gen = IdGenerator::new();
    assert_eq!(gen.accept(10).unwrap(), 10);
    match gen.accept(10) {
        Err(e) => assert_eq!(e.message(), "Ulid: the identifier is not larger than the last one"),
        Ok(_) => panic!("the identifier was accepted twice"),
    }
    assert!(matches!(gen.accept(9), Err(Error::Ulid(_))));
    assert_eq!(gen.accept(11).unwrap(), 11);
    assert!(matches!(gen.accept(0), Err(Error::Ulid(_))));
}

#[test]
fn an_identifier_is_written_in_base_32() {
    assert_eq!(
        Error::MissingEntity(0).message(),
        "Missing entity with id: 00000000000000000000000000"
    );
    assert_eq!(
        Error::MissingEntity(1).message(),
        "Missing entity with id: 00000000000000000000000001"
    );
    assert_eq!(
        Error::MissingEntity(u128::MAX).message(),
        "Missing entity with id: 7ZZZZZZZZZZZZZZZZZZZZZZZZZ"
    );
}

#[test]
fn a_new_identifier_of_a_time_is_of_that_millisecond() {
    let t = Timestamp::from_millis(1_700_000_000_123).unwrap();
    let a = eigenlog::id::from_datetime(&t);
    let b = eigenlog::id::from_datetime(&t);
    assert_eq!(timestamp_ms(a), 1_700_000_000_123);
    assert_eq!(timestamp_ms(b), 1_700_000_000_123);
    assert!(t.floor() <= a && a <= t.ceiling());
    assert!(t.floor() <= b && b <= t.ceiling());
    assert_eq!(ulid_floor(a), t.floor());
    assert_eq!(ulid_ceiling(b), t.ceiling());
}

#[test]
fn a_time_outside_the_forty_eight_bits_is_wrapped() {
    let span: i64 = 1 << 48;
    assert_eq!(Timestamp::from_millis_wrapped(0).millis(), 0);
    assert_eq!(Timestamp::from_millis_wrapped(1_700_000_000_123).millis(), 1_700_000_000_123);
    assert_eq!(Timestamp::from_millis_wrapped(span - 1).millis(), (span - 1) as u64);
    assert_eq!(Timestamp::from_millis_wrapped(span).millis(), 0);
    assert_eq!(Timestamp::from_millis_wrapped(span + 5).millis(), 5);
    assert_eq!(Timestamp::from_millis_wrapped(-1).millis(), (span - 1) as u64);
    assert_eq!(Timestamp::from_millis_wrapped(-span).millis(), 0);
    assert_eq!(Timestamp::from_millis_wrapped(-span - 1).millis(), (span - 1) as u64);
    for m in [i64::MIN, i64::MIN + 1, -12_345, i64::MAX] {
        assert_eq!(
            Timestamp::from_millis_wrapped(m).millis(),
            (m as u64) & ((1u64 << 48) - 1)
        );
    }
}
