use rolling_stats::partial_data_buffer::PartialDataBuffer;
use rolling_stats::LittleEndian;

#[test]
fn partial_data_buffer_works() {
    let mut buffer = PartialDataBuffer::<i32, LittleEndian>::default();
    let empty: &[u8] = &[];

    let data = [0x1, 0x0];
    let (item, rest) = buffer.consume(&data);
    assert!(item.is_none());
    assert_eq!(rest, empty);
    assert_eq!(buffer.leftover_len(), 2);

    let data = [0x00, 0x00];
    let (item, rest) = buffer.consume(&data);
    assert!(item.is_some());
    assert_eq!(rest, empty);
    assert_eq!(buffer.leftover_len(), 0);

    let data = [0x01, 0x00, 0x00, 0x00, 0x02, 0x00];
    let (item, rest) = buffer.consume(&data);
    assert!(item.is_none());
    assert_eq!(rest.len(), 4);
    assert_eq!(buffer.leftover_len(), 2);

    let data = [0x01, 0x00, 0x00, 0x00, 0x02, 0x00];
    let (item, rest) = buffer.consume(&data);
    assert!(item.is_some());
    assert_eq!(rest.len(), 4);
    assert_eq!(buffer.leftover_len(), 0);

    let data = [0x01, 0x00, 0x00, 0x00, 0x02, 0x00];
    let (item, rest) = buffer.consume(&data);
    assert!(item.is_none());
    assert_eq!(rest.len(), 4);
    assert_eq!(buffer.leftover_len(), 2);
}

#[test]
fn completed_value_is_decoded() {
    let mut buffer = PartialDataBuffer::<i32, LittleEndian>::default();

    let (item, rest) = buffer.consume(&[0x2A, 0x00]);
    assert!(item.is_none());
    assert!(rest.is_empty());

    let (item, rest) = buffer.consume(&[0x00, 0x00]);
    assert_eq!(item, Some(42));
    assert!(rest.is_empty());
    assert_eq!(buffer.leftover_len(), 0);
}

#[test]
fn leftover_always_shorter_than_width() {
    let mut buffer = PartialDataBuffer::<i32, LittleEndian>::default();
    let stream: Vec<u8> = (0u8..23).collect();
    for chunk in stream.chunks(3) {
        let _ = buffer.consume(chunk);
        assert!(buffer.leftover_len() < buffer.type_size());
    }
}

#[test]
fn type_size_matches_width() {
    let buffer = PartialDataBuffer::<i32, LittleEndian>::default();
    assert_eq!(buffer.type_size(), 4);
}

#[test]
fn clear_discards_leftover() {
    let mut buffer = PartialDataBuffer::<i32, LittleEndian>::default();
    let (item, _) = buffer.consume(&[0x1, 0x2, 0x3]);
    assert!(item.is_none());
    assert_eq!(buffer.leftover_len(), 3);
    buffer.clear();
    assert_eq!(buffer.leftover_len(), 0);
}
