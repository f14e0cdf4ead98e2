//! The CSV record format: `ip,date,count,kind`, one record per line, no
//! header and no quoting. Both phases share it: the partitioning phase
//! re-emits the four raw fields of every record, the aggregation phase also
//! reads the count as a number.

use vstd::prelude::*;

use crate::strutil::{
    find_char, lemma_find_char_at, lemma_split_step, lemma_split_whole, spec_parse_u32,
    split_at_seps, parse_u32, split_str, views_of,
};
use crate::RunError;

verus! {

/// A record of the CSV input, with the count parsed.
pub struct Record {
    pub ip: String,
    pub date: String,
    pub cnt: u32,
    pub kind: String,
}

/// The mathematical content of a [`Record`].
pub struct RecordModel {
    pub ip: Seq<char>,
    pub date: Seq<char>,
    pub cnt: u32,
    pub kind: Seq<char>,
}

impl View for Record {
    type V = RecordModel;

    open spec fn view(&self) -> RecordModel {
        RecordModel { ip: self.ip@, date: self.date@, cnt: self.cnt, kind: self.kind@ }
    }
}

/// The four fields of a line: defined exactly when the line consists of
/// four comma-separated pieces (so no field ever contains a comma).
pub open spec fn spec_fields(line: Seq<char>) -> Option<Seq<Seq<char>>> {
    let ps = split_at_seps(line, ',');
    if ps.len() == 4 {
        Some(ps)
    } else {
        None
    }
}

/// What parsing one line of the aggregation phase's input yields: the four
/// fields, with the count field read as a decimal `u32`. A wrong number of
/// fields or an unreadable count is an [`RunError::UnparsableRecord`].
pub open spec fn spec_parse_record(line: Seq<char>) -> Result<RecordModel, RunError> {
    match spec_fields(line) {
        Option::None => Result::Err(RunError::UnparsableRecord),
        Option::Some(fs) => match spec_parse_u32(fs[2]) {
            Option::None => Result::Err(RunError::UnparsableRecord),
            Option::Some(c) => Result::Ok(
                RecordModel { ip: fs[0], date: fs[1], cnt: c, kind: fs[3] },
            ),
        },
    }
}

/// Splits a line into its four fields; rejects any other field count.
pub fn parse_fields(line: &str) -> (r: Option<Vec<String>>)
    ensures
        match r {
            Option::Some(fs) => spec_fields(line@) == Some(views_of(fs@)) && fs@.len() == 4,
            Option::None => spec_fields(line@) is None,
        },
{
    let fs = split_str(line, ',');
    if fs.len() == 4 {
        Some(fs)
    } else {
        None
    }
}

/// Parses one line into a [`Record`], failing on a wrong field count or an
/// unreadable count field.
pub fn parse_record(line: &str) -> (r: Result<Record, RunError>)
    ensures
        match r {
            Result::Ok(rec) => spec_parse_record(line@) == Ok::<RecordModel, RunError>(rec@),
            Result::Err(e) => spec_parse_record(line@) == Err::<RecordModel, RunError>(e),
        },
{
    match parse_fields(line) {
        None => Err(RunError::UnparsableRecord),
        Some(mut fs) => {
            let kind = fs.pop().unwrap();
            let cnts = fs.pop().unwrap();
            let date = fs.pop().unwrap();
            let ip = fs.pop().unwrap();
            match parse_u32(cnts.as_str()) {
                None => Err(RunError::UnparsableRecord),
                Some(c) => Ok(Record { ip, date, cnt: c, kind }),
            }
        },
    }
}

/// One line of a partition file: the four raw fields joined by commas.
pub open spec fn csv_line_of(fs: Seq<Seq<char>>) -> Seq<char>
    recommends
        fs.len() == 4,
{
    fs[0] + seq![','] + fs[1] + seq![','] + fs[2] + seq![','] + fs[3]
}

/// Joins the four fields of a record back into one partition-file line.
pub fn csv_line(data: &[String]) -> (r: String)
    requires
        data@.len() == 4,
    ensures
        r@ == csv_line_of(views_of(data@)),
{
    let mut out = String::new();
    out.append(data.get(0).unwrap().as_str());
    out.append(",");
    out.append(data.get(1).unwrap().as_str());
    out.append(",");
    out.append(data.get(2).unwrap().as_str());
    out.append(",");
    out.append(data.get(3).unwrap().as_str());
    proof {
        reveal_strlit(",");
        assert(","@ =~= seq![',']);
        assert(out@ =~= csv_line_of(views_of(data@)));
    }
    out
}

/// Whether a field is free of commas, as every field cut out of a record
/// line is.
pub open spec fn no_comma(s: Seq<char>) -> bool {
    forall|j: int| 0 <= j < s.len() ==> s[j] != ','
}

/// The two phases fit together: a line that the partitioning phase writes
/// for four comma-free fields splits back into exactly those fields, so
/// the aggregation phase reads every routed record unchanged.
pub proof fn lemma_csv_line_round_trip(fs: Seq<Seq<char>>)
    requires
        fs.len() == 4,
        no_comma(fs[0]),
        no_comma(fs[1]),
        no_comma(fs[2]),
        no_comma(fs[3]),
    ensures
        spec_fields(csv_line_of(fs)) == Some(fs),
{
    let line = csv_line_of(fs);
    let rest1 = fs[1] + seq![','] + fs[2] + seq![','] + fs[3];
    let rest2 = fs[2] + seq![','] + fs[3];
    let k0 = fs[0].len() as int;
    let k1 = fs[1].len() as int;
    let k2 = fs[2].len() as int;
    assert(line[k0] == ',');
    assert(forall|j: int| 0 <= j < k0 ==> line[j] == fs[0][j]);
    lemma_split_step(line, ',', k0);
    assert(line.subrange(0, k0) =~= fs[0]);
    assert(line.subrange(k0 + 1, line.len() as int) =~= rest1);
    assert(rest1[k1] == ',');
    assert(forall|j: int| 0 <= j < k1 ==> rest1[j] == fs[1][j]);
    lemma_split_step(rest1, ',', k1);
    assert(rest1.subrange(0, k1) =~= fs[1]);
    assert(rest1.subrange(k1 + 1, rest1.len() as int) =~= rest2);
    assert(rest2[k2] == ',');
    assert(forall|j: int| 0 <= j < k2 ==> rest2[j] == fs[2][j]);
    lemma_split_step(rest2, ',', k2);
    assert(rest2.subrange(0, k2) =~= fs[2]);
    assert(rest2.subrange(k2 + 1, rest2.len() as int) =~= fs[3]);
    lemma_split_whole(fs[3], ',');
    assert(split_at_seps(line, ',') =~= fs);
}

/// The text before the first comma of a line: the IP field of a record
/// line, since no field contains a comma.
pub open spec fn ip_of_line(line: Seq<char>) -> Seq<char> {
    let i = find_char(line, ',');
    if i >= 0 {
        line.subrange(0, i)
    } else {
        line
    }
}

/// On a joined record line, [`ip_of_line`] recovers the IP field.
pub proof fn lemma_ip_of_csv_line(fs: Seq<Seq<char>>)
    requires
        fs.len() == 4,
        forall|j: int| 0 <= j < fs[0].len() ==> fs[0][j] != ',',
    ensures
        ip_of_line(csv_line_of(fs)) == fs[0],
{
    let line = csv_line_of(fs);
    let k = fs[0].len() as int;
    assert(line[k] == ',');
    assert(forall|j: int| 0 <= j < k ==> line[j] == fs[0][j]);
    lemma_find_char_at(line, ',', k);
    assert(line.subrange(0, k) =~= fs[0]);
}

} // verus!
