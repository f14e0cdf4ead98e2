//! The streaming aggregation phase: one pass over an IP-sorted record
//! stream, merging the counts of consecutive records that share an IP and
//! emitting one `ip<TAB>json` line per run of equal admissible IPs.
//!
//! The state is a two-state machine: either no IP is accumulating, or
//! exactly the current one is, with its summary. A run boundary (a record
//! with a different admissible IP) flushes the summary; so does the end of
//! the stream. Because only the current IP's state is held, two separate
//! runs of the same IP yield two separate output lines — the intended
//! consequence of relying on the external sort for adjacency.

use vstd::prelude::*;

use crate::ip::{Ip, ip_allow, ip_str, ip_text, parse_ip, spec_ip_allow, spec_parse_ip};
use crate::record::{parse_record, spec_parse_record};
use crate::strutil::views_of;
use crate::summary::{Summary, SummaryModel, spec_add, summary_json};
use crate::RunError;

verus! {

/// One output line: the canonical IP text, a tab, and the summary JSON.
pub open spec fn flush_line(ip: Ip, m: SummaryModel) -> Seq<char> {
    ip_str(ip) + seq!['\t'] + summary_json(m)
}

/// The state transition for one admissible record: a record of the
/// accumulating IP only grows the summary; any other record first flushes
/// the summary (if an IP was accumulating at all) and then opens a fresh
/// one for its own IP.
pub open spec fn spec_observe(
    last: Option<Ip>,
    sum: SummaryModel,
    ip: Ip,
    kind: Seq<char>,
    date: Seq<char>,
    cnt: u32,
) -> (Option<Ip>, SummaryModel, Seq<Seq<char>>) {
    if last == Some(ip) {
        (last, spec_add(sum, kind, date, cnt), Seq::<Seq<char>>::empty())
    } else {
        let out = match last {
            Option::Some(prev) => seq![flush_line(prev, sum)],
            Option::None => Seq::<Seq<char>>::empty(),
        };
        (Some(ip), spec_add(Seq::empty(), kind, date, cnt), out)
    }
}

/// What one input line does to the state: a malformed record or an
/// unreadable IP is fatal; an inadmissible IP is dropped without touching
/// the state; an admissible one steps the machine.
pub open spec fn spec_agg_step(last: Option<Ip>, sum: SummaryModel, line: Seq<char>) -> Result<
    (Option<Ip>, SummaryModel, Seq<Seq<char>>),
    RunError,
> {
    match spec_parse_record(line) {
        Result::Err(e) => Err(e),
        Result::Ok(rec) => match spec_parse_ip(rec.ip) {
            Option::None => Err(RunError::UnparsableIp),
            Option::Some(ip) => if !spec_ip_allow(ip) {
                Ok((last, sum, Seq::<Seq<char>>::empty()))
            } else {
                Ok(spec_observe(last, sum, ip, rec.kind, rec.date, rec.cnt))
            },
        },
    }
}

/// The whole aggregation of a sorted stream from a given state: the lines
/// emitted along the way, closed by an unconditional final flush.
pub open spec fn spec_aggregate(
    last: Option<Ip>,
    sum: SummaryModel,
    lines: Seq<Seq<char>>,
) -> Result<Seq<Seq<char>>, RunError>
    decreases lines.len(),
{
    if lines.len() == 0 {
        match last {
            Option::Some(ip) => Ok(seq![flush_line(ip, sum)]),
            Option::None => Ok(Seq::<Seq<char>>::empty()),
        }
    } else {
        match spec_agg_step(last, sum, lines[0]) {
            Result::Err(e) => Err(e),
            Result::Ok(st) => match spec_aggregate(st.0, st.1, lines.drop_first()) {
                Result::Ok(rest) => Ok(st.2 + rest),
                Result::Err(e) => Err(e),
            },
        }
    }
}

/// The aggregation state machine: the IP currently accumulating, if any,
/// and its summary.
pub struct Aggregator {
    pub last: Option<Ip>,
    pub sum: Summary,
}

impl Aggregator {
    /// The initial state: nothing accumulating.
    pub fn new() -> (a: Aggregator)
        ensures
            a.last is None,
            a.sum@ == SummaryModel::empty(),
    {
        let a = Aggregator { last: None, sum: Summary::new() };
        a
    }

    /// If an IP is accumulating, renders its output line and resets the
    /// summary; the accumulating IP itself is left for the caller to
    /// overwrite or discard.
    pub fn json_output(&mut self) -> (r: Option<String>)
        ensures
            final(self).last == old(self).last,
            match old(self).last {
                Option::Some(ip) => r is Some && r.unwrap()@ == flush_line(ip, old(self).sum@)
                    && final(self).sum@ == SummaryModel::empty(),
                Option::None => r is None && final(self).sum@ == old(self).sum@,
            },
    {
        match self.last {
            None => None,
            Some(ip) => {
                let mut line = ip_text(&ip);
                line.append("\t");
                let js = self.sum.to_json();
                line.append(js.as_str());
                self.sum = Summary::new();
                proof {
                    reveal_strlit("\t");
                    assert(line@ =~= flush_line(ip, old(self).sum@));
                }
                Some(line)
            },
        }
    }

    /// Feeds one admissible record into the machine; returns the flushed
    /// line when the record opened a new run.
    pub fn observe(&mut self, ip: Ip, kind: &str, date: &str, cnt: u32) -> (r: Option<String>)
        requires
            old(self).last is None ==> old(self).sum@ == SummaryModel::empty(),
        ensures
            ({
                let st = spec_observe(old(self).last, old(self).sum@, ip, kind@, date@, cnt);
                final(self).last == st.0 && final(self).sum@ == st.1 && (match r {
                    Option::Some(t) => st.2 == seq![t@],
                    Option::None => st.2 == Seq::<Seq<char>>::empty(),
                })
            }),
    {
        let same = match self.last {
            Some(prev) => prev == ip,
            None => false,
        };
        let mut emitted: Option<String> = None;
        if !same {
            emitted = self.json_output();
        }
        self.last = Some(ip);
        self.sum.add(kind, date, cnt);
        emitted
    }
}

/// End-of-stream flush: a stream that ends while an IP is accumulating
/// still emits that IP's aggregate — the final flush is unconditional, so
/// no record is dropped for want of a boundary record after it.
pub proof fn lemma_end_of_stream_flush(last: Option<Ip>, sum: SummaryModel)
    ensures
        spec_aggregate(last, sum, Seq::<Seq<char>>::empty()) == (match last {
            Option::Some(ip) => Ok::<Seq<Seq<char>>, RunError>(seq![flush_line(ip, sum)]),
            Option::None => Ok::<Seq<Seq<char>>, RunError>(Seq::<Seq<char>>::empty()),
        }),
{
}

/// Boundary-only flush: when records of one IP stand on both sides of a
/// record of a different admissible IP, the aggregator emits two separate
/// lines for the outer IP — one per run — and never merges across the
/// boundary, because a boundary always flushes and opens a fresh summary.
#[verifier::rlimit(100)]
pub proof fn lemma_boundary_only_flush(l1: Seq<char>, l2: Seq<char>, l3: Seq<char>, a: Ip, b: Ip)
    requires
        spec_parse_record(l1) is Ok,
        spec_parse_record(l2) is Ok,
        spec_parse_record(l3) is Ok,
        spec_parse_ip(spec_parse_record(l1).unwrap().ip) == Some(a),
        spec_parse_ip(spec_parse_record(l2).unwrap().ip) == Some(b),
        spec_parse_ip(spec_parse_record(l3).unwrap().ip) == Some(a),
        spec_ip_allow(a),
        spec_ip_allow(b),
        a != b,
    ensures
        ({
            let r1 = spec_parse_record(l1).unwrap();
            let r2 = spec_parse_record(l2).unwrap();
            let r3 = spec_parse_record(l3).unwrap();
            spec_aggregate(None, SummaryModel::empty(), seq![l1, l2, l3]) == Ok::<
                Seq<Seq<char>>,
                RunError,
            >(
                seq![
                    flush_line(a, spec_add(Seq::empty(), r1.kind, r1.date, r1.cnt)),
                    flush_line(b, spec_add(Seq::empty(), r2.kind, r2.date, r2.cnt)),
                    flush_line(a, spec_add(Seq::empty(), r3.kind, r3.date, r3.cnt)),
                ],
            )
        }),
{
    reveal_with_fuel(spec_aggregate, 6);
    let r1 = spec_parse_record(l1).unwrap();
    let r2 = spec_parse_record(l2).unwrap();
    let r3 = spec_parse_record(l3).unwrap();
    let s = seq![l1, l2, l3];
    let s2 = seq![l2, l3];
    let s3 = seq![l3];
    assert(s.drop_first() =~= s2);
    assert(s2.drop_first() =~= s3);
    assert(s3.drop_first() =~= Seq::<Seq<char>>::empty());
    let f1 = flush_line(a, spec_add(Seq::empty(), r1.kind, r1.date, r1.cnt));
    let f2 = flush_line(b, spec_add(Seq::empty(), r2.kind, r2.date, r2.cnt));
    let f3 = flush_line(a, spec_add(Seq::empty(), r3.kind, r3.date, r3.cnt));
    assert(spec_aggregate(Some(a), spec_add(Seq::empty(), r3.kind, r3.date, r3.cnt), s3.drop_first())
        == Ok::<Seq<Seq<char>>, RunError>(seq![f3]));
    assert(spec_aggregate(Some(b), spec_add(Seq::empty(), r2.kind, r2.date, r2.cnt), s3) == Ok::<
        Seq<Seq<char>>,
        RunError,
    >(seq![f2] + seq![f3]));
    assert(spec_aggregate(Some(a), spec_add(Seq::empty(), r1.kind, r1.date, r1.cnt), s2) == Ok::<
        Seq<Seq<char>>,
        RunError,
    >(seq![f1] + (seq![f2] + seq![f3])));
    assert(Seq::<Seq<char>>::empty() + (seq![f1] + (seq![f2] + seq![f3])) =~= seq![f1, f2, f3]);
}

/// Aggregates one sorted partition stream, given as its record lines, into
/// its output lines: the computational half of one aggregation task. Fails
/// on the first malformed record or unreadable IP.
pub fn aggregate(lines: &Vec<String>) -> (r: Result<Vec<String>, RunError>)
    ensures
        match r {
            Result::Ok(out) => spec_aggregate(None, SummaryModel::empty(), views_of(lines@))
                == Ok::<Seq<Seq<char>>, RunError>(views_of(out@)),
            Result::Err(e) => spec_aggregate(None, SummaryModel::empty(), views_of(lines@))
                == Err::<Seq<Seq<char>>, RunError>(e),
        },
{
    let ghost all = views_of(lines@);
    let mut agg = Aggregator::new();
    let mut out: Vec<String> = Vec::new();
    let n = lines.len();
    let mut i: usize = 0;
    proof {
        assert(all.skip(0) =~= all);
        match spec_aggregate(agg.last, agg.sum@, all) {
            Result::Ok(rest) => {
                assert(views_of(out@) + rest =~= rest);
            },
            Result::Err(e) => {},
        }
    }
    while i < n
        invariant
            i <= n,
            n == lines@.len(),
            all == views_of(lines@),
            agg.last is None ==> agg.sum@ == SummaryModel::empty(),
            spec_aggregate(None, SummaryModel::empty(), all) == (match spec_aggregate(
                agg.last,
                agg.sum@,
                all.skip(i as int),
            ) {
                Result::Ok(rest) => Result::<Seq<Seq<char>>, RunError>::Ok(views_of(out@) + rest),
                Result::Err(e) => Result::<Seq<Seq<char>>, RunError>::Err(e),
            }),
        decreases n - i,
    {
        let ghost rest_lines = all.skip(i as int);
        proof {
            assert(rest_lines[0] == lines@[i as int]@);
        }
        let line = &lines[i];
        match parse_record(line.as_str()) {
            Err(e) => {
                return Err(e);
            },
            Ok(rec) => {
                match parse_ip(rec.ip.as_str()) {
                    None => {
                        return Err(RunError::UnparsableIp);
                    },
                    Some(ip) => {
                        let ghost st = spec_agg_step(agg.last, agg.sum@, rest_lines[0]);
                        let ghost o0 = out@;
                        if ip_allow(&ip) {
                            match agg.observe(ip, rec.kind.as_str(), rec.date.as_str(), rec.cnt) {
                                Some(t) => {
                                    out.push(t);
                                    proof {
                                        assert(views_of(out@) =~= views_of(o0) + st.unwrap().2);
                                    }
                                },
                                None => {
                                    proof {
                                        assert(views_of(out@) =~= views_of(o0) + st.unwrap().2);
                                    }
                                },
                            }
                        } else {
                            proof {
                                assert(views_of(out@) =~= views_of(o0) + st.unwrap().2);
                            }
                        }
                        proof {
                            assert(all.skip(i as int + 1) =~= rest_lines.drop_first());
                            match spec_aggregate(agg.last, agg.sum@, all.skip(i as int + 1)) {
                                Result::Ok(rest) => {
                                    assert((views_of(o0) + st.unwrap().2) + rest =~= views_of(o0)
                                        + (st.unwrap().2 + rest));
                                },
                                Result::Err(e) => {},
                            }
                        }
                    },
                }
            },
        }
        i += 1;
    }
    let ghost last0 = agg.last;
    let ghost sum0 = agg.sum@;
    let ghost o0 = out@;
    match agg.json_output() {
        Some(t) => {
            out.push(t);
            proof {
                assert(all.skip(n as int).len() == 0);
                assert(views_of(out@) =~= views_of(o0).push(flush_line(last0.unwrap(), sum0)));
                assert(views_of(o0) + seq![flush_line(last0.unwrap(), sum0)] =~= views_of(out@));
            }
        },
        None => {
            proof {
                assert(all.skip(n as int).len() == 0);
                assert(views_of(out@) + Seq::<Seq<char>>::empty() =~= views_of(out@));
            }
        },
    }
    Ok(out)
}

} // verus!
