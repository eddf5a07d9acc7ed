use markable_io::{ByteSource, MarkableReader, MarkerStream, MemorySource, ReadError};

#[test]
fn markable_reader_test_basic_read() {
    let input_data = vec![0, 1, 2, 3];
    let data = MemorySource::new(input_data.clone());
    let mut reader = MarkableReader::new(data);

    let mut read_buf = vec![0; input_data.len()];
    reader
        .read_exact(&mut read_buf)
        .expect("should be able to read bytes back");
    assert_eq!(
        input_data, read_buf,
        "read buffer and input buffer should match"
    );
}

#[test]
fn markable_reader_test_marked_read() {
    let input_data = vec![0, 1, 2, 3];
    let data = MemorySource::new(input_data.clone());
    let mut reader = MarkableReader::new(data);

    let mut single_byte_buf = vec![0];
    reader
        .read_exact(&mut single_byte_buf)
        .expect("should be able to read single byte");

    assert_eq!(0, reader.mark(), "no bytes should be wasted");

    let mut rest_of_buf = vec![0; input_data.len() - 1];
    reader
        .read_exact(&mut rest_of_buf)
        .expect("should be able to read rest of buffer");

    reader.reset();
    rest_of_buf = vec![0; input_data.len() - 1];

    reader
        .read_exact(&mut rest_of_buf)
        .expect("should be able to read rest of buffer again after reset");

    assert_eq!(
        input_data[1..],
        rest_of_buf,
        "buffer should be last 3 bytes"
    );
}

#[test]
fn markable_reader_test_back_buffer_and_read_buffer_read() {
    let input_data = vec![0, 1, 2, 3];
    let data = MemorySource::new(input_data.clone());
    let mut reader = MarkableReader::new(data);

    let mut half_buf = vec![0; input_data.len() / 2];
    reader.mark();
    reader
        .read_exact(&mut half_buf)
        .expect("should be able to read half the buffer");

    reader.reset();
    let mut whole_buf = vec![0; input_data.len()];

    reader
        .read_exact(&mut whole_buf)
        .expect("should be able to whole buffer");

    assert_eq!(
        input_data, whole_buf,
        "input data and whole buf should match"
    );
}

#[test]
fn test_read_with_popping_bytes() {
    let input_data = vec![0, 1, 2, 3, 4, 5, 6, 7, 8, 9];
    let data = MemorySource::new(input_data.clone());
    let mut reader = MarkableReader::new(data);
    let mut single_byte_buffer = vec![0_u8; 1];

    // Marking drops the byte still queued from the previous reset, so each
    // round starts two bytes further on.
    for i in 0..input_data.len() / 2 {
        let dropped = reader.mark();
        assert_eq!(if i == 0 { 0 } else { 1 }, dropped);
        let expected = input_data[2 * i..2 * i + 2].to_vec();
        let mut actual = [0_u8; 2];
        reader
            .read_exact(&mut actual)
            .expect("should always be able to read 2 bytes");
        assert_eq!(
            expected, actual,
            "bytes at index {i} should be {expected:?} but were {actual:?}"
        );

        reader.reset();
        reader
            .read_exact(&mut single_byte_buffer)
            .expect("should be able to read single byte");
        assert_eq!(
            single_byte_buffer[0], input_data[2 * i],
            "popped byte at index {i} should be {} but was {}",
            2 * i,
            single_byte_buffer[0]
        );
    }
}

#[test]
fn reset_replays_the_bytes_after_the_mark() {
    let mut reader = MarkableReader::new(MemorySource::new(vec![0, 1, 2, 3]));
    let mut one = vec![0u8; 1];
    reader.read_exact(&mut one).unwrap();
    assert_eq!(vec![0], one);
    assert_eq!(0, reader.mark());
    let mut first = vec![0u8; 3];
    reader.read_exact(&mut first).unwrap();
    reader.reset();
    let mut second = vec![0u8; 3];
    reader.read_exact(&mut second).unwrap();
    assert_eq!(vec![1, 2, 3], first);
    assert_eq!(vec![1, 2, 3], second);
}

#[test]
fn mark_before_first_read_restores_whole_stream() {
    let mut reader = MarkableReader::new(MemorySource::new(vec![0, 1, 2, 3]));
    reader.mark();
    let mut two = vec![0u8; 2];
    reader.read_exact(&mut two).unwrap();
    reader.reset();
    let mut all = vec![0u8; 4];
    reader.read_exact(&mut all).unwrap();
    assert_eq!(vec![0, 1, 2, 3], all);
}

#[test]
fn unmarked_reset_changes_nothing() {
    let data = vec![5, 6, 7, 8, 9];
    let mut plain = MarkableReader::new(MemorySource::new(data.clone()));
    let mut reset = MarkableReader::new(MemorySource::new(data.clone()));
    let mut a = vec![0u8; 2];
    let mut b = vec![0u8; 2];
    plain.read_exact(&mut a).unwrap();
    reset.read_exact(&mut b).unwrap();
    reset.reset();
    reset.reset();
    let mut rest_a = vec![0u8; 3];
    let mut rest_b = vec![0u8; 3];
    plain.read_exact(&mut rest_a).unwrap();
    reset.read_exact(&mut rest_b).unwrap();
    assert_eq!(rest_a, rest_b);
    assert_eq!(vec![7, 8, 9], rest_b);
}

#[test]
fn exhausted_reader_reports_end_of_stream() {
    let mut reader = MarkableReader::new(MemorySource::new(vec![1, 2]));
    let mut buf = vec![0u8; 4];
    assert_eq!(2, reader.read(&mut buf).unwrap());
    assert!(matches!(reader.read(&mut buf), Err(ReadError::EndOfStream)));
    assert!(matches!(reader.read(&mut buf), Err(ReadError::EndOfStream)));
    assert_eq!(0, reader.read(&mut []).unwrap());
}

#[test]
fn empty_source_reports_end_of_stream() {
    let mut reader = MarkableReader::new(MemorySource::new(vec![]));
    let mut buf = vec![0u8; 1];
    assert!(matches!(reader.read(&mut buf), Err(ReadError::EndOfStream)));
    assert!(matches!(reader.read_exact(&mut buf), Err(ReadError::EndOfStream)));
}

#[test]
fn read_exact_past_the_end_fails() {
    let mut reader = MarkableReader::new(MemorySource::new(vec![1, 2, 3]));
    let mut buf = vec![0u8; 5];
    assert!(matches!(reader.read_exact(&mut buf), Err(ReadError::EndOfStream)));
    assert_eq!(vec![1, 2, 3, 0, 0], buf);
}

#[test]
fn limited_record_refuses_marked_reads_past_the_limit() {
    let mut reader =
        MarkableReader::new_with_limited_back_buffer(MemorySource::new(vec![1, 2, 3, 4, 5]), 2);
    reader.mark();
    let mut buf = vec![0u8; 4];
    assert!(matches!(reader.read(&mut buf), Err(ReadError::CapacityExceeded)));
    assert_eq!(vec![0, 0, 0, 0], buf);
    let mut two = vec![0u8; 2];
    assert_eq!(2, reader.read(&mut two).unwrap());
    assert_eq!(vec![1, 2], two);
    let mut one = vec![0u8; 1];
    assert!(matches!(reader.read(&mut one), Err(ReadError::CapacityExceeded)));
    reader.reset();
    let mut all = vec![0u8; 5];
    reader.read_exact(&mut all).unwrap();
    assert_eq!(vec![1, 2, 3, 4, 5], all);
}

#[test]
fn mark_drops_queued_bytes() {
    let mut reader = MarkableReader::new(MemorySource::new(vec![1, 2, 3, 4, 5]));
    reader.mark();
    let mut three = vec![0u8; 3];
    reader.read_exact(&mut three).unwrap();
    reader.reset();
    let mut one = vec![0u8; 1];
    reader.read_exact(&mut one).unwrap();
    assert_eq!(vec![1], one);
    assert_eq!(2, reader.mark());
    let mut rest = vec![0u8; 2];
    reader.read_exact(&mut rest).unwrap();
    assert_eq!(vec![4, 5], rest);
}

#[test]
fn short_read_only_at_the_end() {
    let mut reader = MarkableReader::new(MemorySource::new(vec![1, 2, 3]));
    let mut buf = vec![0u8; 2];
    assert_eq!(2, reader.read(&mut buf).unwrap());
    assert_eq!(1, reader.read(&mut buf).unwrap());
    assert_eq!(vec![3, 2], buf);
}

#[test]
fn remark_drops_the_bytes_before_it() {
    let mut reader =
        MarkableReader::new_with_capacity_and_limit(MemorySource::new(vec![1, 2, 3, 4, 5, 6]), 4, 4);
    reader.mark();
    let mut buf = vec![0u8; 3];
    reader.read_exact(&mut buf).unwrap();
    assert_eq!(3, reader.mark());
    let mut two = vec![0u8; 2];
    reader.read_exact(&mut two).unwrap();
    reader.reset();
    let mut again = vec![0u8; 3];
    reader.read_exact(&mut again).unwrap();
    assert_eq!(vec![4, 5, 6], again);
}

#[test]
fn clear_buffer_drops_queued_bytes() {
    let mut reader = MarkableReader::new(MemorySource::new(vec![1, 2, 3, 4]));
    reader.mark();
    let mut two = vec![0u8; 2];
    reader.read_exact(&mut two).unwrap();
    reader.reset();
    reader.clear_buffer();
    let mut rest = vec![0u8; 2];
    reader.read_exact(&mut rest).unwrap();
    assert_eq!(vec![3, 4], rest);
}

#[test]
fn into_inner_returns_the_source_where_it_stands() {
    let mut reader = MarkableReader::new(MemorySource::new(vec![1, 2, 3]));
    let mut one = vec![0u8; 1];
    reader.read_exact(&mut one).unwrap();
    let mut inner = reader.into_inner();
    let mut rest = vec![0u8; 4];
    assert_eq!(2, inner.read(&mut rest).unwrap());
    assert_eq!(vec![2, 3, 0, 0], rest);
}

#[test]
fn memory_source_hands_out_its_bytes_in_order() {
    let mut source = MemorySource::new(vec![1, 2, 3]);
    let mut buf = vec![9u8; 2];
    assert_eq!(2, source.read(&mut buf).unwrap());
    assert_eq!(vec![1, 2], buf);
    assert_eq!(1, source.read(&mut buf).unwrap());
    assert_eq!(vec![3, 2], buf);
    assert_eq!(0, source.read(&mut buf).unwrap());
}

#[test]
fn marked_read_past_the_end_fails_and_keeps_the_record() {
    let mut reader = MarkableReader::new(MemorySource::new(vec![1, 2, 3]));
    reader.mark();
    let mut buf = vec![0u8; 5];
    assert!(matches!(reader.read(&mut buf), Err(ReadError::EndOfStream)));
    assert_eq!(vec![1, 2, 3, 0, 0], buf);
    reader.reset();
    let mut again = vec![0u8; 3];
    reader.read_exact(&mut again).unwrap();
    assert_eq!(vec![1, 2, 3], again);
}
