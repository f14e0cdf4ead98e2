//! The partitioning phase: every record of every input file is routed, by
//! a short key derived from the leading characters of its IP field, to the
//! unique sink for that key. A sink stands for one partition file; what the
//! library accumulates in it, the caller streams into a compressor.

use vstd::prelude::*;

use crate::strutil::{find_char, lemma_split_pieces_no_sep, lemma_find_char, str_eq, views_of};
use crate::record::{csv_line, csv_line_of, ip_of_line, lemma_ip_of_csv_line, parse_fields,
    spec_fields};
use crate::RunError;

verus! {

/// The partition key of an IP string: its first character, plus the second
/// character when that is neither `.` nor `:`. Undefined (`None`) for an
/// empty string or one opening with a line break; defined for every other
/// string, so two records with the same IP always get the same key.
pub open spec fn spec_partition_key(ip: Seq<char>) -> Option<Seq<char>> {
    if ip.len() == 0 || ip[0] == '\n' {
        None
    } else if ip.len() >= 2 && ip[1] != '.' && ip[1] != ':' {
        Some(ip.subrange(0, 2))
    } else {
        Some(ip.subrange(0, 1))
    }
}

/// Derives the partition key of an IP string.
pub fn partition_key(ip: &str) -> (r: Option<String>)
    ensures
        match r {
            Option::Some(k) => spec_partition_key(ip@) == Some(k@),
            Option::None => spec_partition_key(ip@) is None,
        },
{
    let n = ip.unicode_len();
    if n == 0 {
        return None;
    }
    let c0 = ip.get_char(0);
    if c0 == '\n' {
        return None;
    }
    if n >= 2 {
        let c1 = ip.get_char(1);
        if c1 != '.' && c1 != ':' {
            return Some(ip.substring_char(0, 2).to_owned());
        }
    }
    Some(ip.substring_char(0, 1).to_owned())
}

/// A write endpoint for one partition: the key it serves, and the record
/// lines routed to it so far. The caller owns the compression and the file;
/// the library guarantees what the lines are.
pub struct SplitOutput {
    pub name: String,
    pub lines: Vec<String>,
}

/// Every line held by a sink is a joined record line whose IP field maps to
/// the sink's own key.
pub open spec fn sink_wf(s: SplitOutput) -> bool {
    forall|l: int|
        0 <= l < s.lines@.len() ==> spec_partition_key(
            ip_of_line(#[trigger] s.lines@[l]@),
        ) == Some(s.name@)
}

impl SplitOutput {
    /// Opens the sink for the partition named `name`, with nothing routed
    /// to it yet.
    pub fn new(name: &str) -> (s: SplitOutput)
        ensures
            s.name@ == name@,
            s.lines@.len() == 0,
    {
        SplitOutput { name: name.to_owned(), lines: Vec::new() }
    }

    /// Appends one record, given as its four raw fields, to this sink as a
    /// joined CSV line.
    pub fn process(&mut self, data: &[String])
        requires
            data@.len() == 4,
        ensures
            final(self).name == old(self).name,
            views_of(final(self).lines@) == views_of(old(self).lines@).push(
                csv_line_of(views_of(data@)),
            ),
    {
        let line = csv_line(data);
        let ghost l0 = self.lines@;
        self.lines.push(line);
        proof {
            assert(views_of(self.lines@) =~= views_of(l0).push(csv_line_of(views_of(data@))));
        }
    }
}

/// The mathematical content of a sink pool: for each partition key, in
/// order of first appearance, the record lines routed to it.
pub type PoolModel = Seq<(Seq<char>, Seq<Seq<char>>)>;

/// The view of a pool's sinks.
pub open spec fn pool_view(ss: Seq<SplitOutput>) -> PoolModel {
    ss.map_values(|s: SplitOutput| (s.name@, views_of(s.lines@)))
}

/// Index of the entry for `key` in a pool model, or `-1` when absent.
pub open spec fn find_entry(m: PoolModel, key: Seq<char>) -> int
    decreases m.len(),
{
    if m.len() == 0 {
        -1
    } else if m[0].0 == key {
        0
    } else if find_entry(m.drop_first(), key) < 0 {
        -1
    } else {
        find_entry(m.drop_first(), key) + 1
    }
}

/// `find_entry` returns either `-1` (and no entry has the key) or the
/// position of the first entry with the key.
pub proof fn lemma_find_entry(m: PoolModel, key: Seq<char>)
    ensures
        find_entry(m, key) >= 0 ==> find_entry(m, key) < m.len() && m[find_entry(m, key)].0 == key
            && (forall|j: int| 0 <= j < find_entry(m, key) ==> m[j].0 != key),
        find_entry(m, key) < 0 ==> forall|j: int| 0 <= j < m.len() ==> m[j].0 != key,
    decreases m.len(),
{
    if m.len() > 0 && m[0].0 != key {
        let t = m.drop_first();
        lemma_find_entry(t, key);
        let ft = find_entry(t, key);
        if ft >= 0 {
            assert(m[ft + 1] == t[ft]);
            assert forall|j: int| 0 <= j < find_entry(m, key) implies m[j].0 != key by {
                if j > 0 {
                    assert(m[j] == t[j - 1]);
                }
            }
        } else {
            assert forall|j: int| 0 <= j < m.len() implies m[j].0 != key by {
                if j > 0 {
                    assert(m[j] == t[j - 1]);
                }
            }
        }
    }
}

/// Routing one record (as its four fields) into a pool model: the joined
/// line is appended to the entry for the IP's key, and the entry is created
/// at the end first if no entry has that key yet.
pub open spec fn spec_route(m: PoolModel, fs: Seq<Seq<char>>, key: Seq<char>) -> PoolModel {
    let i = find_entry(m, key);
    if i >= 0 {
        m.update(i, (key, m[i].1.push(csv_line_of(fs))))
    } else {
        m.push((key, seq![csv_line_of(fs)]))
    }
}

/// Routing a whole stream of record lines, line by line. The first
/// malformed line decides the error: a wrong field count is an
/// [`RunError::UnparsableRecord`], an IP with no derivable key an
/// [`RunError::UnmatchedPartitionKey`].
pub open spec fn spec_split_one(m: PoolModel, lines: Seq<Seq<char>>) -> Result<
    PoolModel,
    RunError,
>
    decreases lines.len(),
{
    if lines.len() == 0 {
        Ok(m)
    } else {
        match spec_fields(lines[0]) {
            Option::None => Err(RunError::UnparsableRecord),
            Option::Some(fs) => match spec_partition_key(fs[0]) {
                Option::None => Err(RunError::UnmatchedPartitionKey),
                Option::Some(key) => spec_split_one(spec_route(m, fs, key), lines.drop_first()),
            },
        }
    }
}

/// The shared registry of sinks: at most one sink per partition key for the
/// lifetime of a run.
pub struct SinkPool {
    pub sinks: Vec<SplitOutput>,
}

impl SinkPool {
    /// At most one sink per key, and every sink holds only lines routed to
    /// its own key.
    pub open spec fn wf(self) -> bool {
        (forall|i: int, j: int|
            0 <= i < j < self.sinks@.len() ==> (#[trigger] self.sinks@[i].name@) != (
            #[trigger] self.sinks@[j].name@)) && (forall|i: int|
            0 <= i < self.sinks@.len() ==> sink_wf(#[trigger] self.sinks@[i]))
    }

    /// An empty pool, as each run starts with.
    pub fn new() -> (p: SinkPool)
        ensures
            p.wf(),
            pool_view(p.sinks@).len() == 0,
    {
        let p = SinkPool { sinks: Vec::new() };
        proof {
            assert(pool_view(p.sinks@) =~= Seq::<(Seq<char>, Seq<Seq<char>>)>::empty());
        }
        p
    }

    /// Returns the index of the unique sink for `key`, constructing that
    /// sink on first demand and never again afterwards.
    pub fn get_or_create(&mut self, key: &str) -> (idx: usize)
        requires
            old(self).wf(),
        ensures
            final(self).wf(),
            idx < final(self).sinks@.len(),
            final(self).sinks@[idx as int].name@ == key@,
            ({
                let i = find_entry(pool_view(old(self).sinks@), key@);
                if i >= 0 {
                    *final(self) == *old(self) && idx == i
                } else {
                    idx == old(self).sinks@.len() && final(self).sinks@.len() == idx + 1 && (
                    forall|j: int|
                        0 <= j < idx ==> final(self).sinks@[j] == old(self).sinks@[j])
                        && final(self).sinks@[idx as int].lines@.len() == 0
                }
            }),
            pool_view(final(self).sinks@) == ({
                let m = pool_view(old(self).sinks@);
                if find_entry(m, key@) >= 0 {
                    m
                } else {
                    m.push((key@, Seq::<Seq<char>>::empty()))
                }
            }),
    {
        let ghost m = pool_view(old(self).sinks@);
        let n = self.sinks.len();
        let mut i: usize = 0;
        while i < n
            invariant
                i <= n,
                n == self.sinks@.len(),
                self == old(self),
                m == pool_view(old(self).sinks@),
                old(self).wf(),
                forall|j: int| 0 <= j < i ==> (#[trigger] self.sinks@[j].name@) != key@,
            decreases n - i,
        {
            if str_eq(self.sinks[i].name.as_str(), key) {
                proof {
                    assert(m[i as int].0 == key@);
                    lemma_find_entry(m, key@);
                    assert(forall|j: int| 0 <= j < i ==> m[j].0 != key@);
                    assert(find_entry(m, key@) == i);
                }
                return i;
            }
            i += 1;
        }
        proof {
            assert(forall|j: int| 0 <= j < m.len() ==> m[j].0 != key@);
            lemma_find_entry(m, key@);
        }
        let s = SplitOutput::new(key);
        self.sinks.push(s);
        proof {
            assert(views_of(self.sinks@[n as int].lines@) =~= Seq::<Seq<char>>::empty());
            assert(pool_view(self.sinks@) =~= m.push((key@, Seq::<Seq<char>>::empty())));
            assert forall|k: int| 0 <= k < self.sinks@.len() implies sink_wf(
                #[trigger] self.sinks@[k],
            ) by {
                if k < n {
                    assert(self.sinks@[k] == old(self).sinks@[k]);
                    assert(sink_wf(old(self).sinks@[k]));
                }
            }
        }
        n
    }

    /// Routes one record, given as its four fields, to the sink for `key`.
    pub fn route(&mut self, key: &str, data: &[String])
        requires
            old(self).wf(),
            data@.len() == 4,
            spec_partition_key(views_of(data@)[0]) == Some(key@),
            forall|j: int| 0 <= j < views_of(data@)[0].len() ==> views_of(data@)[0][j] != ',',
        ensures
            final(self).wf(),
            pool_view(final(self).sinks@) == spec_route(
                pool_view(old(self).sinks@),
                views_of(data@),
                key@,
            ),
    {
        let ghost m = pool_view(old(self).sinks@);
        let idx = self.get_or_create(key);
        let ghost mid = pool_view(self.sinks@);
        let ghost pre = self.sinks@;
        let sink = &mut self.sinks[idx];
        let ghost sink0 = *sink;
        sink.process(data);
        proof {
            let fs = views_of(data@);
            let line = csv_line_of(fs);
            lemma_ip_of_csv_line(fs);
            // the updated sink still satisfies sink_wf
            assert(self.sinks@ == pre.update(idx as int, self.sinks@[idx as int]));
            let snew = self.sinks@[idx as int];
            assert(views_of(snew.lines@) == views_of(sink0.lines@).push(line));
            assert(snew.name@ == key@);
            assert forall|l: int| 0 <= l < snew.lines@.len() implies spec_partition_key(
                ip_of_line(#[trigger] snew.lines@[l]@),
            ) == Some(snew.name@) by {
                assert(views_of(snew.lines@)[l] == snew.lines@[l]@);
                if l < sink0.lines@.len() {
                    assert(views_of(sink0.lines@)[l] == sink0.lines@[l]@);
                    assert(snew.lines@[l]@ == sink0.lines@[l]@);
                    assert(sink_wf(sink0));
                } else {
                    assert(snew.lines@[l]@ == line);
                }
            }
            assert forall|k: int| 0 <= k < self.sinks@.len() implies sink_wf(
                #[trigger] self.sinks@[k],
            ) by {
                if k != idx {
                    assert(self.sinks@[k] == pre[k]);
                    assert(sink_wf(pre[k]));
                }
            }
            assert forall|i: int, j: int|
                0 <= i < j < self.sinks@.len() implies (#[trigger] self.sinks@[i].name@) != (
            #[trigger] self.sinks@[j].name@) by {
                assert(self.sinks@[i].name@ == pre[i].name@);
                assert(self.sinks@[j].name@ == pre[j].name@);
            }
            // the pool view took one step of spec_route
            let i = find_entry(m, key@);
            if i >= 0 {
                assert(mid == m);
                assert(idx == i);
                assert(pool_view(self.sinks@) =~= m.update(i, (key@, m[i].1.push(line))));
            } else {
                assert(mid == m.push((key@, Seq::<Seq<char>>::empty())));
                assert(idx == m.len());
                assert(mid[idx as int].1 =~= Seq::<Seq<char>>::empty());
                assert(Seq::<Seq<char>>::empty().push(line) =~= seq![line]);
                assert(pool_view(self.sinks@) =~= m.push((key@, seq![line])));
            }
        }
    }
}

/// Determinism of the partitioning scheme: the partition key is a function
/// of the IP string alone, so every call on the same IP — in whatever
/// order, from whatever task — yields the same key. (The executable
/// [`partition_key`] returns exactly [`spec_partition_key`] of its input.)
pub proof fn lemma_partition_key_deterministic(ip1: Seq<char>, ip2: Seq<char>)
    requires
        ip1 == ip2,
    ensures
        spec_partition_key(ip1) == spec_partition_key(ip2),
{
}

/// Single creation: once one demand for a key has gone through
/// [`SinkPool::get_or_create`], the pool holds an entry for that key, and
/// every later demand for it finds that entry and constructs nothing. With
/// all pool access serialized (as the callers' locking provides), the sink
/// constructor therefore runs exactly once per key, and all callers reach
/// the one sink it made.
pub proof fn lemma_single_creation(m: PoolModel, key: Seq<char>)
    ensures
        ({
            let m2 = if find_entry(m, key) >= 0 {
                m
            } else {
                m.push((key, Seq::<Seq<char>>::empty()))
            };
            let m3 = if find_entry(m2, key) >= 0 {
                m2
            } else {
                m2.push((key, Seq::<Seq<char>>::empty()))
            };
            find_entry(m2, key) >= 0 && m3 == m2
        }),
{
    let m2 = if find_entry(m, key) >= 0 {
        m
    } else {
        m.push((key, Seq::<Seq<char>>::empty()))
    };
    if find_entry(m2, key) < 0 {
        lemma_find_entry(m2, key);
        assert(m2[m2.len() - 1].0 != key);
        assert(false);
    }
}

/// Partition disjointness: every record line a sink holds has an IP whose
/// partition key is the sink's own key. Collecting the IPs ever routed to
/// the partition for key `K` and checking the key function on each of them
/// therefore never fails, and no two partitions can share an IP.
pub proof fn lemma_partition_disjointness(pool: SinkPool, i: int, l: int)
    requires
        pool.wf(),
        0 <= i < pool.sinks@.len(),
        0 <= l < pool.sinks@[i].lines@.len(),
    ensures
        spec_partition_key(ip_of_line(pool.sinks@[i].lines@[l]@)) == Some(pool.sinks@[i].name@),
{
    assert(sink_wf(pool.sinks@[i]));
}

/// Splits one input file, given as its record lines, into the shared pool:
/// the computational half of the partitioning task for one file. Fails on
/// the first malformed line; the run is then to be aborted, so the pool's
/// partial contents are left unspecified beyond well-formedness.
pub fn split_one(pool: &mut SinkPool, lines: &Vec<String>) -> (r: Result<(), RunError>)
    requires
        old(pool).wf(),
    ensures
        final(pool).wf(),
        match r {
            Result::Ok(()) => spec_split_one(pool_view(old(pool).sinks@), views_of(lines@))
                == Ok::<PoolModel, RunError>(pool_view(final(pool).sinks@)),
            Result::Err(e) => spec_split_one(pool_view(old(pool).sinks@), views_of(lines@))
                == Err::<PoolModel, RunError>(e),
        },
{
    let n = lines.len();
    let mut i: usize = 0;
    proof {
        assert(views_of(lines@).skip(0) =~= views_of(lines@));
    }
    while i < n
        invariant
            i <= n,
            n == lines@.len(),
            pool.wf(),
            spec_split_one(pool_view(old(pool).sinks@), views_of(lines@)) == spec_split_one(
                pool_view(pool.sinks@),
                views_of(lines@).skip(i as int),
            ),
        decreases n - i,
    {
        let ghost rest = views_of(lines@).skip(i as int);
        let line = &lines[i];
        match parse_fields(line.as_str()) {
            None => {
                proof {
                    assert(rest[0] == line@);
                }
                return Err(RunError::UnparsableRecord);
            },
            Some(fs) => {
                let ghost fsv = views_of(fs@);
                match partition_key(fs[0].as_str()) {
                    None => {
                        proof {
                            assert(rest[0] == line@);
                            assert(fsv[0] == fs@[0]@);
                        }
                        return Err(RunError::UnmatchedPartitionKey);
                    },
                    Some(key) => {
                        proof {
                            assert(rest[0] == line@);
                            assert(fsv[0] == fs@[0]@);
                            lemma_split_pieces_no_sep(line@, ',');
                            assert(fsv == crate::strutil::split_at_seps(line@, ','));
                            assert(find_char(fsv[0], ',') == -1);
                            lemma_find_char(fsv[0], ',');
                        }
                        pool.route(key.as_str(), fs.as_slice());
                        proof {
                            assert(views_of(lines@).skip(i as int + 1) =~= rest.drop_first());
                        }
                    },
                }
            },
        }
        i += 1;
    }
    proof {
        assert(views_of(lines@).skip(n as int).len() == 0);
    }
    Ok(())
}

/// Splitting a whole run's files, file after file, from an empty pool.
pub open spec fn spec_split(files: Seq<Seq<Seq<char>>>, m: PoolModel) -> Result<
    PoolModel,
    RunError,
>
    decreases files.len(),
{
    if files.len() == 0 {
        Ok(m)
    } else {
        match spec_split_one(m, files[0]) {
            Result::Ok(m2) => spec_split(files.drop_first(), m2),
            Result::Err(e) => Err(e),
        }
    }
}

/// The partitioning phase over a set of input files, each given as its
/// record lines: routes every record of every file into one shared pool and
/// returns it. This is the sequential content of the concurrent fan-out;
/// callers that process files in parallel serialize their access to the
/// pool and obtain some interleaving of the same per-file routings.
pub fn split(files: &Vec<Vec<String>>) -> (r: Result<SinkPool, RunError>)
    ensures
        match r {
            Result::Ok(pool) => pool.wf() && spec_split(
                files@.map_values(|f: Vec<String>| views_of(f@)),
                Seq::empty(),
            ) == Ok::<PoolModel, RunError>(pool_view(pool.sinks@)),
            Result::Err(e) => spec_split(
                files@.map_values(|f: Vec<String>| views_of(f@)),
                Seq::empty(),
            ) == Err::<PoolModel, RunError>(e),
        },
{
    let ghost fv = files@.map_values(|f: Vec<String>| views_of(f@));
    let mut pool = SinkPool::new();
    let n = files.len();
    let mut i: usize = 0;
    proof {
        assert(fv.skip(0) =~= fv);
        assert(pool_view(pool.sinks@) =~= Seq::<(Seq<char>, Seq<Seq<char>>)>::empty());
    }
    while i < n
        invariant
            i <= n,
            n == files@.len(),
            fv == files@.map_values(|f: Vec<String>| views_of(f@)),
            pool.wf(),
            spec_split(fv, Seq::empty()) == spec_split(
                fv.skip(i as int),
                pool_view(pool.sinks@),
            ),
        decreases n - i,
    {
        let ghost rest = fv.skip(i as int);
        let file = &files[i];
        proof {
            assert(rest[0] == views_of(file@));
        }
        match split_one(&mut pool, file) {
            Ok(()) => {
                proof {
                    assert(fv.skip(i as int + 1) =~= rest.drop_first());
                }
            },
            Err(e) => {
                return Err(e);
            },
        }
        i += 1;
    }
    proof {
        assert(fv.skip(n as int).len() == 0);
    }
    Ok(pool)
}

} // verus!
