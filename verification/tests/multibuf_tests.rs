use ipagg::multibuf::{MultiBuf, BUF_CAPACITY};

#[test]
fn write_buffers_until_capacity() {
    let mut buf = MultiBuf::new();
    for i in 0..BUF_CAPACITY {
        assert!(buf.write(format!("line {}", i)).is_none());
    }
    let batch = buf.write(String::from("overflow")).unwrap();
    assert_eq!(batch.len(), BUF_CAPACITY);
    assert_eq!(batch[0], "line 0");
    assert_eq!(batch[BUF_CAPACITY - 1], format!("line {}", BUF_CAPACITY - 1));
    let rest = buf.flush();
    assert_eq!(rest, vec![String::from("overflow")]);
}

#[test]
fn flush_drains_in_order() {
    let mut buf = MultiBuf::new();
    assert!(buf.write(String::from("a")).is_none());
    assert!(buf.write(String::from("b")).is_none());
    let drained = buf.flush();
    assert_eq!(drained, vec![String::from("a"), String::from("b")]);
    assert_eq!(buf.flush(), Vec::<String>::new());
}

#[test]
fn no_line_is_lost_or_duplicated() {
    let mut buf = MultiBuf::new();
    let mut written: Vec<String> = Vec::new();
    for i in 0..(2 * BUF_CAPACITY + 5) {
        if let Some(batch) = buf.write(format!("{}", i)) {
            written.extend(batch);
        }
    }
    written.extend(buf.flush());
    let expected: Vec<String> = (0..(2 * BUF_CAPACITY + 5)).map(|i| format!("{}", i)).collect();
    assert_eq!(written, expected);
}
