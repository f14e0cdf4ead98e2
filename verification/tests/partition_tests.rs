use ipagg::split::{partition_key, split, split_one, SinkPool, SplitOutput};
use ipagg::RunError;

#[test]
fn key_of_plain_ipv4() {
    assert_eq!(partition_key("1.2.3.4").unwrap(), "1");
    assert_eq!(partition_key("12.3.4.5").unwrap(), "12");
    assert_eq!(partition_key("192.168.0.1").unwrap(), "19");
}

#[test]
fn key_of_ipv6() {
    assert_eq!(partition_key("::1").unwrap(), ":");
    assert_eq!(partition_key("2001:db8::1").unwrap(), "20");
    assert_eq!(partition_key("a:b::c").unwrap(), "a");
}

#[test]
fn key_of_empty_is_none() {
    assert!(partition_key("").is_none());
    assert!(partition_key("\nx").is_none());
}

#[test]
fn key_is_deterministic() {
    let a = partition_key("8.8.8.8").unwrap();
    let b = partition_key("8.8.8.8").unwrap();
    assert_eq!(a, b);
}

#[test]
fn sink_process_joins_fields() {
    let mut sink = SplitOutput::new("8.");
    let data = vec![
        String::from("8.8.8.8"),
        String::from("2016-02-02"),
        String::from("3"),
        String::from("ssh"),
    ];
    sink.process(&data);
    assert_eq!(sink.lines.len(), 1);
    assert_eq!(sink.lines[0], "8.8.8.8,2016-02-02,3,ssh");
}

#[test]
fn sink_lines_parse_back_into_records() {
    let mut sink = SplitOutput::new("8.");
    let data = vec![
        String::from("8.8.8.8"),
        String::from("2016-02-02"),
        String::from("3"),
        String::from("ssh"),
    ];
    sink.process(&data);
    let rec = ipagg::record::parse_record(&sink.lines[0]).unwrap();
    assert_eq!(rec.ip, "8.8.8.8");
    assert_eq!(rec.date, "2016-02-02");
    assert_eq!(rec.cnt, 3);
    assert_eq!(rec.kind, "ssh");
}

#[test]
fn get_or_create_creates_once() {
    let mut pool = SinkPool::new();
    let i = pool.get_or_create("8.");
    let j = pool.get_or_create("8.");
    assert_eq!(i, j);
    assert_eq!(pool.sinks.len(), 1);
    assert_eq!(pool.sinks[0].name, "8.");
    let k = pool.get_or_create("9.");
    assert_ne!(i, k);
    assert_eq!(pool.sinks.len(), 2);
}

#[test]
fn split_one_routes_by_key() {
    let mut pool = SinkPool::new();
    let lines = vec![
        String::from("1.2.3.4,2016-02-02,3,ssh"),
        String::from("99.9.9.9,2016-01-01,2,ssh"),
        String::from("1.2.3.4,2016-12-02,1,telnet"),
    ];
    split_one(&mut pool, &lines).unwrap();
    assert_eq!(pool.sinks.len(), 2);
    assert_eq!(pool.sinks[0].name, "1");
    assert_eq!(
        pool.sinks[0].lines,
        vec![
            String::from("1.2.3.4,2016-02-02,3,ssh"),
            String::from("1.2.3.4,2016-12-02,1,telnet"),
        ]
    );
    assert_eq!(pool.sinks[1].name, "99");
    assert_eq!(pool.sinks[1].lines, vec![String::from("99.9.9.9,2016-01-01,2,ssh")]);
}

#[test]
fn routed_lines_match_their_key() {
    let mut pool = SinkPool::new();
    let lines = vec![
        String::from("1.2.3.4,2016-02-02,3,ssh"),
        String::from("1.9.9.9,2016-01-01,2,ssh"),
        String::from("10.0.0.1,2016-01-01,2,ssh"),
    ];
    split_one(&mut pool, &lines).unwrap();
    for sink in &pool.sinks {
        for line in &sink.lines {
            let ip = line.split(',').next().unwrap();
            assert_eq!(partition_key(ip).unwrap(), sink.name);
        }
    }
}

#[test]
fn split_one_rejects_wrong_field_count() {
    let mut pool = SinkPool::new();
    let lines = vec![String::from("1.2.3.4,2016-02-02,3")];
    assert_eq!(split_one(&mut pool, &lines), Err(RunError::UnparsableRecord));
}

#[test]
fn split_one_rejects_empty_ip() {
    let mut pool = SinkPool::new();
    let lines = vec![String::from(",2016-02-02,3,ssh")];
    assert_eq!(split_one(&mut pool, &lines), Err(RunError::UnmatchedPartitionKey));
}

#[test]
fn split_merges_files_into_one_pool() {
    let files = vec![
        vec![String::from("1.2.3.4,2016-02-02,3,ssh")],
        vec![String::from("1.5.6.7,2016-02-03,1,ssh")],
    ];
    let pool = split(&files).unwrap();
    assert_eq!(pool.sinks.len(), 1);
    assert_eq!(pool.sinks[0].name, "1");
    assert_eq!(pool.sinks[0].lines.len(), 2);
}
