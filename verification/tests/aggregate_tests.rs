use ipagg::aggregate::aggregate;
use ipagg::record::parse_record;
use ipagg::summary::Summary;
use ipagg::RunError;

fn lines(rows: &[&str]) -> Vec<String> {
    rows.iter().map(|r| String::from(*r)).collect()
}

#[test]
fn merges_consecutive_records_of_one_ip() {
    let out = aggregate(&lines(&[
        "1.2.3.4,2016-02-02,3,ssh",
        "1.2.3.4,2016-12-02,1,telnet",
    ]))
    .unwrap();
    assert_eq!(out.len(), 1);
    assert_eq!(
        out[0],
        "1.2.3.4\t{\"ssh\":{\"2016-02-02\":3},\"telnet\":{\"2016-12-02\":1}}"
    );
}

#[test]
fn sums_duplicate_kind_and_date() {
    let out = aggregate(&lines(&[
        "1.2.3.4,2016-02-02,3,ssh",
        "1.2.3.4,2016-02-02,4,ssh",
    ]))
    .unwrap();
    assert_eq!(out.len(), 1);
    assert_eq!(out[0], "1.2.3.4\t{\"ssh\":{\"2016-02-02\":7}}");
}

#[test]
fn drops_inadmissible_ip() {
    let out = aggregate(&lines(&["192.168.0.1,2016-02-02,3,ssh"])).unwrap();
    assert_eq!(out.len(), 0);
    let out = aggregate(&lines(&["8.8.8.8,2016-02-02,3,ssh"])).unwrap();
    assert_eq!(out.len(), 1);
    assert_eq!(out[0], "8.8.8.8\t{\"ssh\":{\"2016-02-02\":3}}");
}

#[test]
fn dropped_record_does_not_flush() {
    let out = aggregate(&lines(&[
        "1.2.3.4,2016-02-02,3,ssh",
        "192.168.0.1,2016-02-02,9,ssh",
        "1.2.3.4,2016-02-02,4,ssh",
    ]))
    .unwrap();
    assert_eq!(out.len(), 1);
    assert_eq!(out[0], "1.2.3.4\t{\"ssh\":{\"2016-02-02\":7}}");
}

#[test]
fn boundary_splits_runs_of_one_ip() {
    let out = aggregate(&lines(&[
        "1.2.3.4,2016-02-02,3,ssh",
        "5.6.7.8,2016-02-02,1,ssh",
        "1.2.3.4,2016-02-02,4,ssh",
    ]))
    .unwrap();
    assert_eq!(out.len(), 3);
    assert_eq!(out[0], "1.2.3.4\t{\"ssh\":{\"2016-02-02\":3}}");
    assert_eq!(out[1], "5.6.7.8\t{\"ssh\":{\"2016-02-02\":1}}");
    assert_eq!(out[2], "1.2.3.4\t{\"ssh\":{\"2016-02-02\":4}}");
}

#[test]
fn stream_end_flushes_last_ip() {
    let out = aggregate(&lines(&[
        "5.6.7.8,2016-02-02,1,ssh",
        "9.9.9.9,2016-03-03,2,telnet",
    ]))
    .unwrap();
    assert_eq!(out.len(), 2);
    assert_eq!(out[1], "9.9.9.9\t{\"telnet\":{\"2016-03-03\":2}}");
}

#[test]
fn empty_stream_emits_nothing() {
    let out = aggregate(&lines(&[])).unwrap();
    assert_eq!(out.len(), 0);
}

#[test]
fn rejects_wrong_field_count() {
    assert_eq!(
        aggregate(&lines(&["1.2.3.4,2016-02-02,3"])),
        Err(RunError::UnparsableRecord)
    );
    assert_eq!(
        aggregate(&lines(&["1.2.3.4,2016-02-02,3,ssh,extra"])),
        Err(RunError::UnparsableRecord)
    );
}

#[test]
fn rejects_unreadable_count() {
    assert_eq!(
        aggregate(&lines(&["1.2.3.4,2016-02-02,many,ssh"])),
        Err(RunError::UnparsableRecord)
    );
    assert_eq!(
        aggregate(&lines(&["1.2.3.4,2016-02-02,4294967296,ssh"])),
        Err(RunError::UnparsableRecord)
    );
}

#[test]
fn rejects_unreadable_ip() {
    assert_eq!(
        aggregate(&lines(&["nonsense,2016-02-02,3,ssh"])),
        Err(RunError::UnparsableIp)
    );
}

#[test]
fn accepts_plus_signed_count() {
    let rec = parse_record("1.2.3.4,2016-02-02,+3,ssh").unwrap();
    assert_eq!(rec.cnt, 3);
    let rec = parse_record("1.2.3.4,2016-02-02,4294967295,ssh").unwrap();
    assert_eq!(rec.cnt, 4294967295);
}

#[test]
fn renders_ipv6_ips_canonically() {
    let out = aggregate(&lines(&["2001:0db8:0000:0000:0000:0000:0000:0001,2016-02-02,3,ssh"]))
        .unwrap();
    assert_eq!(out.len(), 1);
    assert_eq!(out[0], "2001:db8::1\t{\"ssh\":{\"2016-02-02\":3}}");
}

#[test]
fn summary_escapes_json_strings() {
    let mut sum = Summary::new();
    sum.add("a\"b\\c", "2016-02-02", 1);
    assert_eq!(sum.to_json(), "{\"a\\\"b\\\\c\":{\"2016-02-02\":1}}");
    let mut sum = Summary::new();
    sum.add("tab\tkind", "d", 2);
    assert_eq!(sum.to_json(), "{\"tab\\u0009kind\":{\"d\":2}}");
}

#[test]
fn summary_accumulates_by_kind_then_date() {
    let mut sum = Summary::new();
    sum.add("ssh", "2016-02-02", 3);
    sum.add("ssh", "2016-02-03", 2);
    sum.add("telnet", "2016-02-02", 1);
    sum.add("ssh", "2016-02-02", 4);
    assert_eq!(
        sum.to_json(),
        "{\"ssh\":{\"2016-02-02\":7,\"2016-02-03\":2},\"telnet\":{\"2016-02-02\":1}}"
    );
}

#[test]
fn empty_summary_is_empty_object() {
    let sum = Summary::new();
    assert_eq!(sum.to_json(), "{}");
}
