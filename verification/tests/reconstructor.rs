use rolling_stats::reconstructor::Reconstructor;
use rolling_stats::BigEndian;
use rolling_stats::LittleEndian;

#[test]
fn reconstructor_works() {
    let mut reconstructor = Reconstructor::<i32, BigEndian>::new();
    let _ = reconstructor
        .write(&[0, 0, 0, 1, 0, 0, 0, 2, 0, 0, 0, 3, 0, 0, 0, 4])
        .unwrap();

    assert_eq!(reconstructor.raw_data(), &[1, 2, 3, 4]);
}

#[test]
fn partial_data_leading() {
    let mut reconstructor = Reconstructor::<i32, BigEndian>::new();
    let _ = reconstructor.write(&[0, 0]).unwrap();
    let _ = reconstructor
        .write(&[0, 1, 0, 0, 0, 2, 0, 0, 0, 3, 0, 0, 0, 4])
        .unwrap();

    assert_eq!(reconstructor.raw_data(), &[1, 2, 3, 4]);
}

#[test]
fn partial_data_trailing() {
    let mut reconstructor = Reconstructor::<i32, BigEndian>::new();
    let _ = reconstructor.write(&[0, 0, 0, 1, 0, 0]).unwrap();
    let _ = reconstructor
        .write(&[0, 2, 0, 0, 0, 3, 0, 0, 0, 4])
        .unwrap();

    assert_eq!(reconstructor.raw_data(), &[1, 2, 3, 4]);
}

#[test]
fn chunked_writes_match_single_write() {
    let stream: Vec<u8> = vec![0, 0, 0, 1, 0, 0, 0, 2, 0, 0, 0, 3, 0, 0];

    let mut whole = Reconstructor::<i32, BigEndian>::new();
    let _ = whole.write(&stream).unwrap();

    for split_a in 0..stream.len() {
        for split_b in split_a..stream.len() {
            let mut parts = Reconstructor::<i32, BigEndian>::new();
            let _ = parts.write(&stream[..split_a]).unwrap();
            let _ = parts.write(&stream[split_a..split_b]).unwrap();
            let _ = parts.write(&stream[split_b..]).unwrap();
            assert_eq!(parts.raw_data(), whole.raw_data());
            assert_eq!(parts.leftover_len(), whole.leftover_len());
        }
    }
}

#[test]
fn flush_keeps_leftover() {
    let mut reconstructor = Reconstructor::<i32, LittleEndian>::new();
    let _ = reconstructor.write(&[5, 0, 0, 0, 7, 0]).unwrap();
    assert_eq!(reconstructor.data(), vec![5]);
    assert_eq!(reconstructor.leftover_len(), 2);

    reconstructor.flush();
    assert!(reconstructor.raw_data().is_empty());
    assert_eq!(reconstructor.leftover_len(), 2);

    let _ = reconstructor.write(&[0, 0]).unwrap();
    assert_eq!(reconstructor.raw_data(), &[7]);
    assert_eq!(reconstructor.leftover_len(), 0);
}
