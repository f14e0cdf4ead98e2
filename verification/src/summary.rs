//! The per-IP aggregate: for each event kind, for each date, the summed-up
//! count, together with its JSON rendering. Keys keep the order of first
//! appearance; counts saturate at the top of `u64` instead of wrapping.

use vstd::prelude::*;

use crate::strutil::{dec_of, hex_digit_char, push_dec, str_eq};

verus! {

/// One date and its accumulated count.
pub struct DateCount {
    pub date: String,
    pub count: u64,
}

/// One event kind with its per-date counts.
pub struct KindDates {
    pub kind: String,
    pub dates: Vec<DateCount>,
}

/// The summed-up incidents of one IP address: kind, then date, then count.
pub struct Summary {
    pub kinds: Vec<KindDates>,
}

/// The mathematical content of a date list: pairs of date and count.
pub open spec fn dates_view(ds: Seq<DateCount>) -> Seq<(Seq<char>, u64)> {
    ds.map_values(|d: DateCount| (d.date@, d.count))
}

/// The mathematical content of a [`Summary`]: pairs of kind and date list.
pub type SummaryModel = Seq<(Seq<char>, Seq<(Seq<char>, u64)>)>;

/// The view of a kind list.
pub open spec fn kinds_view(ks: Seq<KindDates>) -> SummaryModel {
    ks.map_values(|k: KindDates| (k.kind@, dates_view(k.dates@)))
}

impl View for Summary {
    type V = SummaryModel;

    open spec fn view(&self) -> SummaryModel {
        kinds_view(self.kinds@)
    }
}

/// Adding `n` to the count for `date`: the first entry with the date is
/// raised (saturating in `u64`), and a missing date is appended with `n`.
pub open spec fn spec_add_date(ds: Seq<(Seq<char>, u64)>, date: Seq<char>, n: u32) -> Seq<
    (Seq<char>, u64),
>
    decreases ds.len(),
{
    if ds.len() == 0 {
        seq![(date, n as u64)]
    } else if ds[0].0 == date {
        seq![(date, ds[0].1.saturating_add(n as u64))] + ds.drop_first()
    } else {
        seq![ds[0]] + spec_add_date(ds.drop_first(), date, n)
    }
}

/// Adding `n` to the count under `kind` and `date` in a summary.
pub open spec fn spec_add(m: SummaryModel, kind: Seq<char>, date: Seq<char>, n: u32) -> SummaryModel
    decreases m.len(),
{
    if m.len() == 0 {
        seq![(kind, seq![(date, n as u64)])]
    } else if m[0].0 == kind {
        seq![(kind, spec_add_date(m[0].1, date, n))] + m.drop_first()
    } else {
        seq![m[0]] + spec_add(m.drop_first(), kind, date, n)
    }
}

/// `spec_add_date` at a hit position is an update in place.
proof fn lemma_add_date_hit(ds: Seq<(Seq<char>, u64)>, date: Seq<char>, n: u32, i: int)
    requires
        0 <= i < ds.len(),
        ds[i].0 == date,
        forall|j: int| 0 <= j < i ==> ds[j].0 != date,
    ensures
        spec_add_date(ds, date, n) == ds.update(i, (date, ds[i].1.saturating_add(n as u64))),
    decreases i,
{
    if i == 0 {
        assert(seq![(date, ds[0].1.saturating_add(n as u64))] + ds.drop_first() =~= ds.update(
            0,
            (date, ds[0].1.saturating_add(n as u64)),
        ));
    } else {
        let t = ds.drop_first();
        assert(forall|j: int| 0 <= j < t.len() ==> t[j] == ds[j + 1]);
        lemma_add_date_hit(t, date, n, i - 1);
        assert(seq![ds[0]] + t.update(i - 1, (date, ds[i].1.saturating_add(n as u64)))
            =~= ds.update(i, (date, ds[i].1.saturating_add(n as u64))));
    }
}

/// `spec_add_date` with no hit appends the date.
proof fn lemma_add_date_miss(ds: Seq<(Seq<char>, u64)>, date: Seq<char>, n: u32)
    requires
        forall|j: int| 0 <= j < ds.len() ==> ds[j].0 != date,
    ensures
        spec_add_date(ds, date, n) == ds.push((date, n as u64)),
    decreases ds.len(),
{
    if ds.len() == 0 {
        assert(spec_add_date(ds, date, n) =~= ds.push((date, n as u64)));
    } else {
        let t = ds.drop_first();
        assert(forall|j: int| 0 <= j < t.len() ==> t[j] == ds[j + 1]);
        lemma_add_date_miss(t, date, n);
        assert(seq![ds[0]] + t.push((date, n as u64)) =~= ds.push((date, n as u64)));
    }
}

/// `spec_add` at a hit position is an update in place.
proof fn lemma_add_hit(m: SummaryModel, kind: Seq<char>, date: Seq<char>, n: u32, i: int)
    requires
        0 <= i < m.len(),
        m[i].0 == kind,
        forall|j: int| 0 <= j < i ==> m[j].0 != kind,
    ensures
        spec_add(m, kind, date, n) == m.update(i, (kind, spec_add_date(m[i].1, date, n))),
    decreases i,
{
    if i == 0 {
        assert(seq![(kind, spec_add_date(m[0].1, date, n))] + m.drop_first() =~= m.update(
            0,
            (kind, spec_add_date(m[0].1, date, n)),
        ));
    } else {
        let t = m.drop_first();
        assert(forall|j: int| 0 <= j < t.len() ==> t[j] == m[j + 1]);
        lemma_add_hit(t, kind, date, n, i - 1);
        assert(seq![m[0]] + t.update(i - 1, (kind, spec_add_date(m[i].1, date, n))) =~= m.update(
            i,
            (kind, spec_add_date(m[i].1, date, n)),
        ));
    }
}

/// `spec_add` with no hit appends the kind with a fresh date list.
proof fn lemma_add_miss(m: SummaryModel, kind: Seq<char>, date: Seq<char>, n: u32)
    requires
        forall|j: int| 0 <= j < m.len() ==> m[j].0 != kind,
    ensures
        spec_add(m, kind, date, n) == m.push((kind, seq![(date, n as u64)])),
    decreases m.len(),
{
    if m.len() == 0 {
        assert(spec_add(m, kind, date, n) =~= m.push((kind, seq![(date, n as u64)])));
    } else {
        let t = m.drop_first();
        assert(forall|j: int| 0 <= j < t.len() ==> t[j] == m[j + 1]);
        lemma_add_miss(t, kind, date, n);
        assert(seq![m[0]] + t.push((kind, seq![(date, n as u64)])) =~= m.push(
            (kind, seq![(date, n as u64)]),
        ));
    }
}

impl KindDates {
    /// Adds `n` under `date`, summing into an existing entry.
    fn add_date(&mut self, date: &str, n: u32)
        ensures
            final(self).kind == old(self).kind,
            dates_view(final(self).dates@) == spec_add_date(
                dates_view(old(self).dates@),
                date@,
                n,
            ),
    {
        let ghost dv = dates_view(self.dates@);
        let len = self.dates.len();
        let mut i: usize = 0;
        while i < len
            invariant
                i <= len,
                len == self.dates@.len(),
                self == old(self),
                dv == dates_view(self.dates@),
                forall|j: int| 0 <= j < i ==> dv[j].0 != date@,
            decreases len - i,
        {
            proof {
                assert(dv[i as int] == (self.dates@[i as int].date@, self.dates@[i as int].count));
            }
            if str_eq(self.dates[i].date.as_str(), date) {
                let e = vstd::std_specs::vec::vec_index_mut(&mut self.dates, i);
                e.count = e.count.saturating_add(n as u64);
                proof {
                    lemma_add_date_hit(dv, date@, n, i as int);
                    assert(dates_view(self.dates@) =~= dv.update(
                        i as int,
                        (date@, dv[i as int].1.saturating_add(n as u64)),
                    ));
                }
                return ;
            }
            i += 1;
        }
        proof {
            lemma_add_date_miss(dv, date@, n);
        }
        let ghost d0 = self.dates@;
        self.dates.push(DateCount { date: date.to_owned(), count: n as u64 });
        proof {
            assert(dates_view(self.dates@) =~= dates_view(d0).push((date@, n as u64)));
        }
    }
}

impl Summary {
    /// The empty summary.
    pub fn new() -> (s: Summary)
        ensures
            s@ == SummaryModel::empty(),
    {
        let s = Summary { kinds: Vec::new() };
        proof {
            assert(s@ =~= SummaryModel::empty());
        }
        s
    }

    /// Adds `n` into the count under `kind` and `date`, summing into any
    /// existing entry rather than overwriting it.
    pub fn add(&mut self, kind: &str, date: &str, n: u32)
        ensures
            final(self)@ == spec_add(old(self)@, kind@, date@, n),
    {
        let ghost m = self@;
        let len = self.kinds.len();
        let mut i: usize = 0;
        while i < len
            invariant
                i <= len,
                len == self.kinds@.len(),
                self == old(self),
                m == self@,
                forall|j: int| 0 <= j < i ==> m[j].0 != kind@,
            decreases len - i,
        {
            proof {
                assert(m[i as int] == (
                    self.kinds@[i as int].kind@,
                    dates_view(self.kinds@[i as int].dates@),
                ));
            }
            if str_eq(self.kinds[i].kind.as_str(), kind) {
                let e = vstd::std_specs::vec::vec_index_mut(&mut self.kinds, i);
                e.add_date(date, n);
                proof {
                    lemma_add_hit(m, kind@, date@, n, i as int);
                    assert(self@ =~= m.update(
                        i as int,
                        (kind@, spec_add_date(m[i as int].1, date@, n)),
                    ));
                }
                return ;
            }
            i += 1;
        }
        proof {
            lemma_add_miss(m, kind@, date@, n);
        }
        let mut ds: Vec<DateCount> = Vec::new();
        ds.push(DateCount { date: date.to_owned(), count: n as u64 });
        let ghost k0 = self.kinds@;
        self.kinds.push(KindDates { kind: kind.to_owned(), dates: ds });
        proof {
            assert(dates_view(self.kinds@[k0.len() as int].dates@) =~= seq![(date@, n as u64)]);
            assert(self@ =~= kinds_view(k0).push((kind@, seq![(date@, n as u64)])));
        }
    }
}

/// How one character is written inside a JSON string: quotes and
/// backslashes get a backslash, control characters a `\u00..` escape, and
/// every other character stands for itself.
pub open spec fn json_escape_char(c: char) -> Seq<char> {
    if c == '"' {
        seq!['\\', '"']
    } else if c == '\\' {
        seq!['\\', '\\']
    } else if (c as int) < 32 {
        seq!['\\', 'u', '0', '0', hex_digit_char(c as int / 16), hex_digit_char(c as int % 16)]
    } else {
        seq![c]
    }
}

/// A whole string under JSON escaping.
pub open spec fn json_escape(s: Seq<char>) -> Seq<char>
    decreases s.len(),
{
    if s.len() == 0 {
        Seq::empty()
    } else {
        json_escape_char(s[0]) + json_escape(s.drop_first())
    }
}

/// Escaping a string one character longer extends the escaped text.
proof fn lemma_json_escape_push(s: Seq<char>, c: char)
    ensures
        json_escape(s.push(c)) == json_escape(s) + json_escape_char(c),
    decreases s.len(),
{
    reveal_with_fuel(json_escape, 3);
    if s.len() == 0 {
        assert(s.push(c)[0] == c);
        assert(s.push(c).drop_first() =~= Seq::<char>::empty());
        assert(json_escape_char(c) + Seq::<char>::empty() =~= json_escape_char(c));
        assert(Seq::<char>::empty() + json_escape_char(c) =~= json_escape_char(c));
    } else {
        assert(s.push(c)[0] == s[0]);
        assert(s.push(c).drop_first() =~= s.drop_first().push(c));
        lemma_json_escape_push(s.drop_first(), c);
        assert(json_escape_char(s[0]) + (json_escape(s.drop_first()) + json_escape_char(c))
            =~= (json_escape_char(s[0]) + json_escape(s.drop_first())) + json_escape_char(c));
    }
}

/// Appends `s` under JSON escaping to `out`.
fn push_escaped(out: &mut String, s: &str)
    ensures
        final(out)@ == old(out)@ + json_escape(s@),
{
    let ghost o0 = out@;
    let n = s.unicode_len();
    let mut i: usize = 0;
    proof {
        assert(s@.take(0) =~= Seq::<char>::empty());
        assert(o0 + json_escape(s@.take(0)) =~= o0);
    }
    while i < n
        invariant
            i <= n,
            n == s@.len(),
            out@ == o0 + json_escape(s@.take(i as int)),
        decreases n - i,
    {
        let c = s.get_char(i);
        let cu = c as u32;
        let ghost pre = s@.take(i as int);
        proof {
            assert(s@.take(i as int + 1) =~= pre.push(c));
            lemma_json_escape_push(pre, c);
        }
        if c == '"' {
            out.append("\\\"");
            proof {
                reveal_strlit("\\\"");
                assert("\\\""@ =~= json_escape_char(c));
                assert(out@ =~= o0 + json_escape(s@.take(i as int + 1)));
            }
        } else if c == '\\' {
            out.append("\\\\");
            proof {
                reveal_strlit("\\\\");
                assert("\\\\"@ =~= json_escape_char(c));
                assert(out@ =~= o0 + json_escape(s@.take(i as int + 1)));
            }
        } else if cu < 32 {
            out.append("\\u00");
            let digits = "0123456789abcdef";
            proof {
                reveal_strlit("\\u00");
                reveal_strlit("0123456789abcdef");
            }
            let d1 = (cu / 16) as usize;
            let d2 = (cu % 16) as usize;
            let p1 = digits.substring_char(d1, d1 + 1);
            out.append(p1);
            let p2 = digits.substring_char(d2, d2 + 1);
            out.append(p2);
            proof {
                assert(digits@.subrange(d1 as int, d1 as int + 1) =~= seq![digits@[d1 as int]]);
                assert(digits@.subrange(d2 as int, d2 as int + 1) =~= seq![digits@[d2 as int]]);
                assert(digits@[d1 as int] == hex_digit_char(c as int / 16));
                assert(digits@[d2 as int] == hex_digit_char(c as int % 16));
                assert(out@ =~= o0 + json_escape(s@.take(i as int + 1)));
            }
        } else {
            let p = s.substring_char(i, i + 1);
            out.append(p);
            proof {
                assert(p@ =~= seq![c]);
                assert(out@ =~= o0 + json_escape(s@.take(i as int + 1)));
            }
        }
        i += 1;
    }
    proof {
        assert(s@.take(n as int) =~= s@);
    }
}

/// One date entry inside a kind's JSON object: `"date":count`.
pub open spec fn date_item(d: (Seq<char>, u64)) -> Seq<char> {
    seq!['"'] + json_escape(d.0) + seq!['"', ':'] + dec_of(d.1 as int)
}

/// The first `k` date entries, joined by commas.
pub open spec fn dates_json(ds: Seq<(Seq<char>, u64)>, k: int) -> Seq<char>
    decreases k,
{
    if k <= 0 {
        Seq::empty()
    } else if k == 1 {
        date_item(ds[0])
    } else {
        dates_json(ds, k - 1) + seq![','] + date_item(ds[k - 1])
    }
}

/// A kind's JSON object: the date entries inside braces.
pub open spec fn dates_obj(ds: Seq<(Seq<char>, u64)>) -> Seq<char> {
    seq!['{'] + dates_json(ds, ds.len() as int) + seq!['}']
}

/// One kind entry of the summary object: `"kind":{...}`.
pub open spec fn kind_item(k: (Seq<char>, Seq<(Seq<char>, u64)>)) -> Seq<char> {
    seq!['"'] + json_escape(k.0) + seq!['"', ':'] + dates_obj(k.1)
}

/// The first `k` kind entries, joined by commas.
pub open spec fn kinds_json(m: SummaryModel, k: int) -> Seq<char>
    decreases k,
{
    if k <= 0 {
        Seq::empty()
    } else if k == 1 {
        kind_item(m[0])
    } else {
        kinds_json(m, k - 1) + seq![','] + kind_item(m[k - 1])
    }
}

/// The JSON text of a whole summary: an object of kind objects.
pub open spec fn summary_json(m: SummaryModel) -> Seq<char> {
    seq!['{'] + kinds_json(m, m.len() as int) + seq!['}']
}

/// Appends the JSON object of one date list to `out`.
fn push_dates(out: &mut String, ds: &Vec<DateCount>)
    ensures
        final(out)@ == old(out)@ + dates_obj(dates_view(ds@)),
{
    let ghost o0 = out@;
    let ghost dv = dates_view(ds@);
    out.append("{");
    proof {
        reveal_strlit("{");
        reveal_strlit("}");
        reveal_strlit(",");
        reveal_strlit("\"");
        reveal_strlit("\":");
        assert(out@ =~= o0 + seq!['{'] + dates_json(dv, 0));
    }
    let len = ds.len();
    let mut i: usize = 0;
    while i < len
        invariant
            i <= len,
            len == ds@.len(),
            dv == dates_view(ds@),
            out@ == o0 + seq!['{'] + dates_json(dv, i as int),
        decreases len - i,
    {
        if i > 0 {
            out.append(",");
        }
        out.append("\"");
        push_escaped(out, ds[i].date.as_str());
        out.append("\":");
        push_dec(out, ds[i].count);
        proof {
            reveal_strlit(",");
            reveal_strlit("\"");
            reveal_strlit("\":");
            assert(dv[i as int] == (ds@[i as int].date@, ds@[i as int].count));
            assert(date_item(dv[i as int]) == seq!['"'] + json_escape(ds@[i as int].date@) + seq![
                '"',
                ':',
            ] + dec_of(ds@[i as int].count as int));
            assert(out@ =~= o0 + seq!['{'] + dates_json(dv, i as int + 1));
        }
        i += 1;
    }
    out.append("}");
    proof {
        reveal_strlit("}");
        assert(out@ =~= o0 + dates_obj(dv));
    }
}

impl Summary {
    /// Renders this summary as its JSON object.
    pub fn to_json(&self) -> (r: String)
        ensures
            r@ == summary_json(self@),
    {
        let ghost m = self@;
        let mut out = String::new();
        out.append("{");
        proof {
            reveal_strlit("{");
            assert(out@ =~= Seq::<char>::empty() + seq!['{'] + kinds_json(m, 0));
        }
        let len = self.kinds.len();
        let mut i: usize = 0;
        while i < len
            invariant
                i <= len,
                len == self.kinds@.len(),
                m == self@,
                out@ == Seq::<char>::empty() + seq!['{'] + kinds_json(m, i as int),
            decreases len - i,
        {
            if i > 0 {
                out.append(",");
            }
            out.append("\"");
            push_escaped(&mut out, self.kinds[i].kind.as_str());
            out.append("\":");
            push_dates(&mut out, &self.kinds[i].dates);
            proof {
                reveal_strlit(",");
                reveal_strlit("\"");
                reveal_strlit("\":");
                assert(m[i as int] == (
                    self.kinds@[i as int].kind@,
                    dates_view(self.kinds@[i as int].dates@),
                ));
                assert(kind_item(m[i as int]) == seq!['"'] + json_escape(
                    self.kinds@[i as int].kind@,
                ) + seq!['"', ':'] + dates_obj(dates_view(self.kinds@[i as int].dates@)));
                assert(out@ =~= Seq::<char>::empty() + seq!['{'] + kinds_json(m, i as int + 1));
            }
            i += 1;
        }
        out.append("}");
        proof {
            reveal_strlit("}");
            assert(out@ =~= summary_json(m));
        }
        out
    }
}

} // verus!
