use rolling_stats::BigEndian;
use rolling_stats::ConverterFromRaw;
use rolling_stats::LittleEndian;
use rolling_stats::RawConversionError;
use rolling_stats::RollingStats;

fn mean<E: ConverterFromRaw<i32>, const W: usize>(roller: &RollingStats<i32, E, W>) -> f32 {
    (roller.window_sum() as f32) / (roller.mean_divisor() as f32)
}

fn std_dev<E: ConverterFromRaw<i32>, const W: usize>(roller: &RollingStats<i32, E, W>) -> f32 {
    let mean = mean(roller);
    let sum = roller
        .values()
        .iter()
        .fold(0.0f32, |acc, item| acc + (*item as f32 - mean).powi(2));
    (sum / roller.std_dev_divisor() as f32).sqrt()
}

fn assert_close(left: f32, right: f32) {
    assert!((left - right).abs() < 1e-6, "{left} != {right}");
}

#[test]
fn test_basic_functionality() {
    let mut roller = RollingStats::<i32, LittleEndian, 3>::default();
    let _ = roller
        .write(&[5, 0, 0, 0, 5, 0, 0, 0, 5, 0, 0, 0])
        .unwrap();

    assert_close(mean(&roller), 5.0);
}

#[test]
fn test_partial_data() {
    let mut roller = RollingStats::<i32, BigEndian, 3>::default();
    let _ = roller.write(&[0, 0, 0]);

    assert_eq!(roller.len(), 0);
    assert_close(mean(&roller), 0.0);

    let _ = roller.write(&[1]);

    assert_eq!(roller.len(), 1);
    assert_close(mean(&roller), 1.0);

    let _ = roller.write(&[0, 0, 0, 2, 0]);

    assert_eq!(roller.len(), 2);
    assert_close(mean(&roller), 1.5);

    let _ = roller.write(&[0, 0, 3]);

    assert_eq!(roller.len(), 3);
    assert_close(mean(&roller), 2.0);
}

#[test]
fn test_mean() {
    let mut roller = RollingStats::<i32, BigEndian, 3>::default();
    let _ = roller
        .write(&[0, 0, 0, 1, 0, 0, 0, 2, 0, 0, 0, 3, 0, 0, 0, 4])
        .unwrap();
    assert_close(mean(&roller), 3.0);
}

#[test]
fn test_std_dev() {
    let mut roller = RollingStats::<i32, BigEndian, 3>::default();
    let _ = roller
        .write(&[0, 0, 0, 1, 0, 0, 0, 2, 0, 0, 0, 3, 0, 0, 0, 4])
        .unwrap();
    assert_close(std_dev(&roller), 1.0);
}

#[test]
fn empty_window_mean_is_zero() {
    let roller = RollingStats::<i32, BigEndian, 3>::new();
    assert_eq!(roller.len(), 0);
    assert_eq!(roller.window_sum(), 0);
    assert_eq!(roller.mean_divisor(), 1);
    assert_close(mean(&roller), 0.0);
}

#[test]
fn std_dev_divisor_is_floored() {
    let mut roller = RollingStats::<i32, BigEndian, 3>::new();
    assert_eq!(roller.std_dev_divisor(), 1);
    let _ = roller.write(&[0, 0, 0, 9]).unwrap();
    assert_eq!(roller.std_dev_divisor(), 1);
    let _ = roller.write(&[0, 0, 0, 9]).unwrap();
    assert_eq!(roller.std_dev_divisor(), 1);
    let _ = roller.write(&[0, 0, 0, 9]).unwrap();
    assert_eq!(roller.std_dev_divisor(), 2);
}

#[test]
fn window_keeps_only_most_recent_values() {
    let mut roller = RollingStats::<i32, BigEndian, 3>::new();
    let _ = roller
        .write(&[0, 0, 0, 1, 0, 0, 0, 2, 0, 0, 0, 3, 0, 0, 0, 4, 0, 0, 0, 5])
        .unwrap();
    assert_eq!(roller.len(), 3);
    assert_eq!(roller.values(), vec![3, 4, 5]);
}

#[test]
fn split_writes_match_single_write() {
    let stream: Vec<u8> = vec![0, 0, 0, 7, 0, 0];

    let mut whole = RollingStats::<i32, BigEndian, 3>::new();
    let _ = whole.write(&stream).unwrap();

    let mut parts = RollingStats::<i32, BigEndian, 3>::new();
    let _ = parts.write(&stream[..3]).unwrap();
    assert_eq!(parts.len(), 0);
    let _ = parts.write(&stream[3..4]).unwrap();
    assert_eq!(parts.len(), 1);
    let _ = parts.write(&stream[4..]).unwrap();

    assert_eq!(parts.len(), whole.len());
    assert_eq!(parts.values(), whole.values());
    assert_eq!(parts.values(), vec![7]);
}

#[test]
fn write_accepts_every_byte() {
    let mut roller = RollingStats::<i32, LittleEndian, 2>::new();
    let chunks: [&[u8]; 4] = [&[1, 0], &[], &[0, 0, 2], &[0, 0, 0, 3]];
    let mut accepted: usize = 0;
    for chunk in chunks {
        accepted += roller.write(chunk).unwrap();
    }
    assert_eq!(accepted, 9);
    assert_eq!(roller.values(), vec![1, 2]);
}

#[test]
fn round_trip_little_endian() {
    for value in [0i32, 1, -1, 42, -123456789, i32::MAX, i32::MIN] {
        let decoded = LittleEndian::from_raw(&value.to_le_bytes()).unwrap();
        assert_eq!(decoded, value);
    }
}

#[test]
fn round_trip_big_endian() {
    for value in [0i32, 1, -1, 42, -123456789, i32::MAX, i32::MIN] {
        let decoded = BigEndian::from_raw(&value.to_be_bytes()).unwrap();
        assert_eq!(decoded, value);
    }
}

#[test]
fn from_raw_rejects_short_input() {
    let short = [1u8, 2, 3];
    assert_eq!(
        <LittleEndian as ConverterFromRaw<i32>>::from_raw(&short),
        Err(RawConversionError::NotEnoughData)
    );
    assert_eq!(
        <BigEndian as ConverterFromRaw<i32>>::from_raw(&short),
        Err(RawConversionError::NotEnoughData)
    );
}

#[test]
fn from_raw_ignores_excess_bytes() {
    let raw = [1u8, 0, 0, 0, 0xFF, 0xFF];
    assert_eq!(LittleEndian::from_raw(&raw), Ok(1));
}
