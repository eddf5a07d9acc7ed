use markable_io::{Buffer, CapacityExceeded};

#[test]
fn test_simple_read() {
    let mut buffer = Buffer::new(10, None);
    let values: Vec<u8> = vec![0, 1, 2, 3, 4];
    buffer.append(&values).unwrap();

    let mut read_buf = vec![0];

    for (p, v) in values.iter().enumerate() {
        assert_eq!(1, buffer.read_into(&mut read_buf, 0));
        assert_eq!(
            read_buf[0], *v,
            "value at [{p}] should be {v}, but was {}",
            read_buf[0]
        );
    }
}

#[test]
fn test_exceeding_limit() {
    let mut buffer = Buffer::new(2, Some(2));
    let values = vec![0, 1, 2];

    match buffer.append(&values) {
        Err(err) => {
            assert_eq!(CapacityExceeded, err, "should have had an out of memory error");
        }
        _ => {
            panic!("should have failed")
        }
    }
}

#[test]
fn test_reusing_space() {
    let mut buffer = Buffer::new(2, Some(2));
    let mut values = vec![0];
    buffer.append(&values).unwrap();

    assert_eq!(1, buffer.read_into(&mut values, 0), "should be able to read value");
    values = vec![0, 1];
    buffer
        .append(&values)
        .expect("should now have space for 2 values");
    assert_eq!(
        2,
        buffer.read_into(&mut values, 0),
        "should be able to read two values back"
    );
    assert_eq!(vec![0, 1], values, "values should be [0, 1]");
}

#[test]
fn test_dynamic_growing() {
    let mut buffer = Buffer::new(2, None);
    let values = vec![0, 1, 2, 3];
    buffer.append(&values).expect(
        "with no limit imposed, the internal buffer should grow to accomodate additional capacity",
    );
}

#[test]
fn test_use_after_clear() {
    let mut buffer = Buffer::new(2, Some(5));
    let values = vec![0, 1, 2, 3];
    buffer
        .append(&values)
        .expect("should be able to write 4 items");

    assert_eq!(
        values.len(),
        buffer.clear(),
        "should have dropped all values",
    );

    buffer
        .append(&values)
        .expect("should be able to write 4 items");
    let mut read_buffer = vec![0; 4];
    assert_eq!(
        4,
        buffer.read_into(&mut read_buffer, 0),
        "should be able to fill the buffer with values"
    );

    assert_eq!(
        values, read_buffer,
        "values and read buffer should be identical"
    );
}

#[test]
fn buffer_round_trip_through_interleaved_writes_and_reads() {
    let mut buffer = Buffer::new(3, Some(4));
    let mut out: Vec<u8> = Vec::new();
    let mut written: Vec<u8> = Vec::new();
    let mut next: u8 = 0;
    for round in 0..20usize {
        let size = round % 4 + 1;
        let chunk: Vec<u8> = (0..size).map(|i| next.wrapping_add(i as u8)).collect();
        if buffer.len() + chunk.len() <= 4 {
            buffer.append(&chunk).expect("write within the limit");
            written.extend_from_slice(&chunk);
            next = next.wrapping_add(size as u8);
        }
        let mut region = vec![0u8; round % 3 + 1];
        let n = buffer.read_into(&mut region, 0);
        out.extend_from_slice(&region[..n]);
    }
    let mut rest = vec![0u8; 8];
    let n = buffer.read_into(&mut rest, 0);
    out.extend_from_slice(&rest[..n]);
    assert_eq!(written, out);
    assert_eq!(0, buffer.len());
}

#[test]
fn refused_append_leaves_pending_bytes() {
    let mut buffer = Buffer::new(4, Some(3));
    buffer.append(&[7, 8]).unwrap();
    assert_eq!(Err(CapacityExceeded), buffer.append(&[9, 10]));
    assert_eq!(2, buffer.len());
    let mut out = vec![0u8; 4];
    assert_eq!(2, buffer.read_into(&mut out, 0));
    assert_eq!(vec![7, 8, 0, 0], out);
    buffer.append(&[9, 10, 11]).expect("room again after reading");
}

#[test]
fn clear_reports_the_pending_count() {
    let mut buffer = Buffer::new(8, None);
    buffer.append(&[1, 2, 3, 4, 5]).unwrap();
    let mut out = vec![0u8; 2];
    buffer.read_into(&mut out, 0);
    assert_eq!(3, buffer.clear());
    assert_eq!(0, buffer.len());
    assert_eq!(0, buffer.clear());
    assert_eq!(0, buffer.read_into(&mut out, 0));
}

#[test]
fn read_into_respects_offset() {
    let mut buffer = Buffer::new(8, None);
    buffer.append(&[1, 2, 3]).unwrap();
    let mut out = vec![9u8; 4];
    assert_eq!(2, buffer.read_into(&mut out, 2));
    assert_eq!(vec![9, 9, 1, 2], out);
    assert_eq!(0, buffer.read_into(&mut out, 4));
    assert_eq!(0, buffer.read_into(&mut out, 7));
    assert_eq!(1, buffer.len());
}

#[test]
fn available_space_counts_read_prefix_and_tail() {
    let mut buffer = Buffer::new(6, Some(6));
    assert_eq!(6, buffer.get_available_space());
    buffer.append(&[1, 2, 3, 4]).unwrap();
    assert_eq!(2, buffer.get_available_space());
    let mut out = vec![0u8; 3];
    buffer.read_into(&mut out, 0);
    assert_eq!(5, buffer.get_available_space());
    buffer.append(&[5, 6, 7, 8, 9]).expect("compaction makes room");
    assert_eq!(6, buffer.len());
    assert_eq!(0, buffer.get_available_space());
    let mut all = vec![0u8; 6];
    assert_eq!(6, buffer.read_into(&mut all, 0));
    assert_eq!(vec![4, 5, 6, 7, 8, 9], all);
}

#[test]
fn unbounded_buffer_grows() {
    let mut buffer = Buffer::new(1, None);
    buffer.append(&[1, 2, 3]).unwrap();
    assert_eq!(0, buffer.get_available_space());
    let mut out = vec![0u8; 1];
    buffer.read_into(&mut out, 0);
    assert_eq!(1, buffer.get_available_space());
    buffer.append(&[4, 5]).unwrap();
    assert_eq!(4, buffer.len());
    let mut all = vec![0u8; 4];
    buffer.read_into(&mut all, 0);
    assert_eq!(vec![2, 3, 4, 5], all);
}
