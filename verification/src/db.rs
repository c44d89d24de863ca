//! The metrics database: the in-memory store plus the durability log,
//! with the startup recovery procedure's replay step.
//!
//! The surrounding process drives recovery once, before serving: it lists
//! the log directory (files whose timestamp-embedded names sort in
//! creation order), reads each file in sorted order, hands its bytes to
//! [`MetricsDb::replay_file`], performs the returned segment writes, and
//! deletes the file — whether or not every byte decoded.  Replay ingests
//! each record through the same flush policy as live writes, so within a
//! file replay order equals original write order.
//!
//! Live writes route through [`MetricsDb::record_write`], which appends
//! the record to the durability log before the in-memory insert, so that
//! any record observable to queries was handed to the log first.

use vstd::prelude::*;

use crate::metric::{
    clean_concat, lemma_decode_metric_bounds, lemma_records_of_clean_concat, metric_encodable,
    spec_decode_metric, spec_records, Metric, MetricModel,
};
use crate::serializable::BinarySerializable;
use crate::store::{
    spec_encode_samples, spec_insert_series, InMemoryStore, SegmentWrite, SeriesModel,
};
use crate::wal::WalWriter;
use crate::StoreError;

verus! {

/// What a whole replay does to the store model: insert every record in
/// order, collecting the segment flushes (series name and bytes) that the
/// policy emits along the way.
pub open spec fn spec_replay(
    m: Map<Seq<char>, SeriesModel>,
    records: Seq<MetricModel>,
    flush_max: u32,
) -> (Map<Seq<char>, SeriesModel>, Seq<(Seq<char>, Seq<u8>)>)
    decreases records.len(),
{
    if records.len() == 0 {
        (m, Seq::empty())
    } else {
        let (m1, f1) = spec_insert_series(m, records[0], flush_max);
        let (m2, fs) = spec_replay(m1, records.drop_first(), flush_max);
        match f1 {
            Some(b) => (m2, seq![(records[0].name, b)] + fs),
            None => (m2, fs),
        }
    }
}

/// Replaying one more record is one more insert at the end.
pub proof fn lemma_replay_push(
    m: Map<Seq<char>, SeriesModel>,
    records: Seq<MetricModel>,
    r: MetricModel,
    flush_max: u32,
)
    ensures
        ({
            let (m1, fs1) = spec_replay(m, records, flush_max);
            let (m2, f2) = spec_insert_series(m1, r, flush_max);
            spec_replay(m, records.push(r), flush_max) == (
                m2,
                match f2 {
                    Some(b) => fs1 + seq![(r.name, b)],
                    None => fs1,
                },
            )
        }),
    decreases records.len(),
{
    if records.len() == 0 {
        let (m1x, f1) = spec_insert_series(m, r, flush_max);
        assert(records.push(r)[0] == r);
        assert(records.push(r).drop_first() =~= Seq::<MetricModel>::empty());
        assert(spec_replay(m1x, Seq::<MetricModel>::empty(), flush_max) == (
            m1x,
            Seq::<(Seq<char>, Seq<u8>)>::empty(),
        ));
        assert(spec_replay(m, records, flush_max) == (m, Seq::<(Seq<char>, Seq<u8>)>::empty()));
        match f1 {
            Some(b) => {
                assert(spec_replay(m, records.push(r), flush_max).1 =~= Seq::<(
                    Seq<char>,
                    Seq<u8>,
                )>::empty() + seq![(r.name, b)]);
            },
            None => {
                assert(spec_replay(m, records.push(r), flush_max).1 =~= Seq::<(
                    Seq<char>,
                    Seq<u8>,
                )>::empty());
            },
        }
    } else {
        assert(records.push(r)[0] == records[0]);
        assert(records.push(r).drop_first() =~= records.drop_first().push(r));
        let (m1, f1) = spec_insert_series(m, records[0], flush_max);
        lemma_replay_push(m1, records.drop_first(), r, flush_max);
        let (mi, fsi) = spec_replay(m1, records.drop_first(), flush_max);
        let (m2, f2) = spec_insert_series(mi, r, flush_max);
        match f1 {
            Some(b) => {
                match f2 {
                    Some(b2) => {
                        assert(seq![(records[0].name, b)] + (fsi + seq![(r.name, b2)]) =~= (seq![
                            (records[0].name, b),
                        ] + fsi) + seq![(r.name, b2)]);
                    },
                    None => {},
                }
            },
            None => {},
        }
    }
}

/// The subsequence of `records` whose name is `n`, in order.
pub open spec fn samples_named(records: Seq<MetricModel>, n: Seq<char>) -> Seq<MetricModel>
    decreases records.len(),
{
    if records.len() == 0 {
        Seq::empty()
    } else {
        let rest = samples_named(records.drop_last(), n);
        if records.last().name == n {
            rest.push(records.last())
        } else {
            rest
        }
    }
}

/// Recovery completeness law: after replaying any record sequence, a
/// series exists for a name exactly when it existed before or some record
/// carries that name, and it then holds the samples it held before
/// followed by exactly the subsequence of replayed records with that
/// name, in replay order — nothing lost, duplicated or misfiled.
pub proof fn lemma_recovery_completeness(
    m: Map<Seq<char>, SeriesModel>,
    records: Seq<MetricModel>,
    n: Seq<char>,
    flush_max: u32,
)
    ensures
        spec_replay(m, records, flush_max).0.contains_key(n) <==> m.contains_key(n) || exists|i: int|
            0 <= i < records.len() && records[i].name == n,
        spec_replay(m, records, flush_max).0.contains_key(n)
            ==> spec_replay(m, records, flush_max).0[n].samples == (
            if m.contains_key(n) {
                m[n].samples
            } else {
                Seq::<MetricModel>::empty()
            }
        ) + samples_named(records, n),
    decreases records.len(),
{
    if records.len() == 0 {
        if m.contains_key(n) {
            assert(m[n].samples + Seq::<MetricModel>::empty() =~= m[n].samples);
        }
    } else {
        let rl = records.drop_last();
        let r = records.last();
        assert(rl.push(r) =~= records);
        lemma_replay_push(m, rl, r, flush_max);
        lemma_recovery_completeness(m, rl, n, flush_max);
        let m1 = spec_replay(m, rl, flush_max).0;
        let prior = if m.contains_key(n) {
            m[n].samples
        } else {
            Seq::<MetricModel>::empty()
        };
        if r.name == n {
            if m1.contains_key(n) {
                assert(m1[n].samples.push(r) =~= prior + samples_named(rl, n).push(r));
            } else {
                assert(forall|i: int| 0 <= i < rl.len() ==> (#[trigger] rl[i]).name != n);
                lemma_samples_named_none(rl, n);
                assert(Seq::<MetricModel>::empty().push(r) =~= prior + samples_named(
                    rl,
                    n,
                ).push(r));
            }
            assert(exists|i: int|
                0 <= i < records.len() && records[i].name == n) by {
                assert(records[records.len() - 1].name == n);
            }
        } else {
            assert(forall|i: int| 0 <= i < rl.len() ==> rl[i] == records[i]);
            if spec_replay(m, records, flush_max).0.contains_key(n) {
                assert(m1.contains_key(n));
            }
        }
    }
}

/// Flush threshold law: starting from a store with no series for `n`,
/// replaying up to `flush_max` records all named `n` emits no segment
/// write while fewer than `flush_max` have arrived; the `flush_max`-th
/// emits exactly one, holding the encoding of every record so far, in
/// arrival order.
pub proof fn lemma_flush_threshold(
    m: Map<Seq<char>, SeriesModel>,
    records: Seq<MetricModel>,
    n: Seq<char>,
    flush_max: u32,
)
    requires
        flush_max > 0,
        !m.contains_key(n),
        forall|i: int| 0 <= i < records.len() ==> (#[trigger] records[i]).name == n,
        records.len() <= flush_max,
    ensures
        spec_replay(m, records, flush_max).0 == if records.len() == 0 {
            m
        } else {
            m.insert(
                n,
                SeriesModel {
                    samples: records,
                    pending: if records.len() == flush_max {
                        0
                    } else {
                        records.len()
                    },
                },
            )
        },
        spec_replay(m, records, flush_max).1 == if records.len() == flush_max {
            seq![(n, spec_encode_samples(records))]
        } else {
            Seq::<(Seq<char>, Seq<u8>)>::empty()
        },
    decreases records.len(),
{
    if records.len() == 0 {
    } else {
        let rl = records.drop_last();
        let r = records.last();
        assert(rl.push(r) =~= records);
        lemma_replay_push(m, rl, r, flush_max);
        lemma_flush_threshold(m, rl, n, flush_max);
        let m1 = spec_replay(m, rl, flush_max).0;
        if rl.len() == 0 {
            assert(Seq::<MetricModel>::empty().push(r) =~= records);
        } else {
            assert(m1[n].samples.push(r) =~= records);
        }
        let (m2, f2) = spec_insert_series(m1, r, flush_max);
        if records.len() == flush_max {
            assert(Seq::<(Seq<char>, Seq<u8>)>::empty() + seq![(n, spec_encode_samples(records))]
                =~= seq![(n, spec_encode_samples(records))]);
        }
        if rl.len() > 0 {
            assert(m.insert(n, m1[n]).insert(n, m2[n]) =~= m.insert(n, m2[n]));
        }
    }
}

/// Write preservation law: replaying any number of records all named `n`
/// into a store with no series for `n` yields a series holding exactly
/// those records, in order — whatever interleaving of flushes occurred,
/// no write is lost or duplicated.
pub proof fn lemma_writes_preserved(
    m: Map<Seq<char>, SeriesModel>,
    records: Seq<MetricModel>,
    n: Seq<char>,
    flush_max: u32,
)
    requires
        !m.contains_key(n),
        forall|i: int| 0 <= i < records.len() ==> (#[trigger] records[i]).name == n,
        records.len() > 0,
    ensures
        spec_replay(m, records, flush_max).0.contains_key(n),
        spec_replay(m, records, flush_max).0[n].samples == records,
    decreases records.len(),
{
    lemma_recovery_completeness(m, records, n, flush_max);
    lemma_samples_named_all(records, n);
    assert(Seq::<MetricModel>::empty() + records =~= records);
    assert(records[0].name == n);
}

proof fn lemma_samples_named_none(records: Seq<MetricModel>, n: Seq<char>)
    requires
        forall|i: int| 0 <= i < records.len() ==> (#[trigger] records[i]).name != n,
    ensures
        samples_named(records, n) == Seq::<MetricModel>::empty(),
    decreases records.len(),
{
    if records.len() > 0 {
        lemma_samples_named_none(records.drop_last(), n);
    }
}

proof fn lemma_samples_named_all(records: Seq<MetricModel>, n: Seq<char>)
    requires
        forall|i: int| 0 <= i < records.len() ==> (#[trigger] records[i]).name == n,
    ensures
        samples_named(records, n) == records,
    decreases records.len(),
{
    if records.len() > 0 {
        lemma_samples_named_all(records.drop_last(), n);
        assert(samples_named(records, n) =~= records);
    }
}

/// Recovery completeness, end to end: a log buffer holding a clean
/// concatenation of well-formed records replays — greedy record reading
/// followed by the normal insert policy, starting from an empty store —
/// into a store that has a series exactly for each name some record
/// carries, holding exactly the records written with that name, in write
/// order.
pub proof fn lemma_recovery_of_log(
    data: Seq<u8>,
    models: Seq<MetricModel>,
    n: Seq<char>,
    flush_max: u32,
)
    requires
        clean_concat(data, 0, models),
    ensures
        spec_records(data, 0) == models,
        spec_replay(Map::<Seq<char>, SeriesModel>::empty(), models, flush_max).0.contains_key(n)
            <==> exists|i: int| 0 <= i < models.len() && models[i].name == n,
        spec_replay(Map::<Seq<char>, SeriesModel>::empty(), models, flush_max).0.contains_key(n)
            ==> spec_replay(Map::<Seq<char>, SeriesModel>::empty(), models, flush_max).0[n].samples
            == samples_named(models, n),
{
    if models.len() > 0 {
        assert(0 <= 0 + crate::metric::spec_encode_metric(models[0]).len() <= data.len());
    }
    lemma_records_of_clean_concat(data, 0, models);
    lemma_recovery_completeness(Map::<Seq<char>, SeriesModel>::empty(), models, n, flush_max);
    assert(Seq::<MetricModel>::empty() + samples_named(models, n) =~= samples_named(models, n));
}

/// What performing one live write returns: the log-file append the
/// durability log released (if this write crossed its flush interval) and
/// the segment write the store policy emitted (if this insert crossed the
/// flush threshold).
#[derive(Debug)]
pub struct WriteEffects {
    pub wal_flush: Option<Vec<u8>>,
    pub segment: Option<SegmentWrite>,
}

/// The database: the in-memory series store and the durability-log
/// writer.  All I/O stays with the caller.
pub struct MetricsDb {
    memory_store: InMemoryStore,
    wal_writer: WalWriter,
}

impl MetricsDb {
    /// The store as a map from series name to series model.
    pub closed spec fn sm(self) -> Map<Seq<char>, SeriesModel> {
        self.memory_store.sm()
    }

    /// The store's flush threshold.
    pub closed spec fn flush_limit(self) -> u32 {
        self.memory_store.flush_limit()
    }

    /// The durability-log writer's state.
    pub closed spec fn wal_state(self) -> WalWriter {
        self.wal_writer
    }

    pub closed spec fn wf(self) -> bool {
        self.memory_store.wf() && self.wal_writer.wf()
    }

    /// An empty database.  The caller creates the log file, replays any
    /// earlier log files through [`MetricsDb::replay_file`], and only then
    /// starts serving.
    pub fn new() -> (r: MetricsDb)
        ensures
            r.wf(),
            r.sm() == Map::<Seq<char>, SeriesModel>::empty(),
            r.flush_limit() == 1000,
            r.wal_state().buffered() == Seq::<u8>::empty(),
            r.wal_state().writes() == 0,
            r.wal_state().interval() == 10,
    {
        MetricsDb { memory_store: InMemoryStore::new(), wal_writer: WalWriter::new() }
    }

    /// Insert one sample into the in-memory store, returning the segment
    /// write if this insert crossed the flush threshold.  Does not touch
    /// the durability log: recovery replay uses this path.
    pub fn ingest(&mut self, metric: Metric) -> (flush: Option<SegmentWrite>)
        requires
            old(self).wf(),
            metric_encodable(metric@),
        ensures
            final(self).wf(),
            final(self).flush_limit() == old(self).flush_limit(),
            final(self).wal_state() == old(self).wal_state(),
            final(self).sm() == spec_insert_series(
                old(self).sm(),
                metric@,
                old(self).flush_limit(),
            ).0,
            match flush {
                Some(sw) => spec_insert_series(old(self).sm(), metric@, old(self).flush_limit()).1
                    == Some(sw@.bytes) && sw@.file_name == metric.name@ + ".metricdata"@,
                None => spec_insert_series(old(self).sm(), metric@, old(self).flush_limit()).1
                    is None,
            },
    {
        self.memory_store.insert(metric)
    }

    /// Perform one live write: append the record's encoding to the
    /// durability log, then insert it into the store.  The log append
    /// precedes the insert, so a sample observable to queries was handed
    /// to the log first.
    pub fn record_write(&mut self, metric: Metric) -> (eff: WriteEffects)
        requires
            old(self).wf(),
            metric_encodable(metric@),
            old(self).wal_state().writes() < u64::MAX,
        ensures
            final(self).wf(),
            final(self).flush_limit() == old(self).flush_limit(),
            final(self).sm() == spec_insert_series(
                old(self).sm(),
                metric@,
                old(self).flush_limit(),
            ).0,
            match eff.segment {
                Some(sw) => spec_insert_series(old(self).sm(), metric@, old(self).flush_limit()).1
                    == Some(sw@.bytes) && sw@.file_name == metric.name@ + ".metricdata"@,
                None => spec_insert_series(old(self).sm(), metric@, old(self).flush_limit()).1
                    is None,
            },
            final(self).wal_state().interval() == old(self).wal_state().interval(),
            final(self).wal_state().writes() == old(self).wal_state().writes() + 1,
            (old(self).wal_state().writes() + 1) % (old(self).wal_state().interval() as int) == 0
                ==> (eff.wal_flush matches Some(b) && b@ == old(self).wal_state().buffered()
                + crate::metric::spec_encode_metric(metric@) && final(self).wal_state().buffered()
                == Seq::<u8>::empty()),
            (old(self).wal_state().writes() + 1) % (old(self).wal_state().interval() as int) != 0
                ==> eff.wal_flush is None && final(self).wal_state().buffered() == old(
                self,
            ).wal_state().buffered() + crate::metric::spec_encode_metric(metric@),
    {
        let bin = metric.serialize();
        let wal_flush = self.wal_writer.write(bin.as_slice());
        let segment = self.memory_store.insert(metric);
        WriteEffects { wal_flush, segment }
    }

    /// The full in-memory sequence for `name`; [`StoreError::NotFound`]
    /// exactly when no sample of that name was ever inserted.
    pub fn query(&self, name: &str) -> (r: Result<&Vec<Metric>, StoreError>)
        requires
            self.wf(),
        ensures
            r is Ok <==> self.sm().contains_key(name@),
            r matches Ok(v) ==> v.deep_view() == self.sm()[name@].samples,
            r matches Ok(v) ==> forall|j: int|
                0 <= j < v.deep_view().len() ==> metric_encodable(#[trigger] v.deep_view()[j]),
            r is Err ==> r == Result::<&Vec<Metric>, StoreError>::Err(StoreError::NotFound),
    {
        match self.memory_store.query(name) {
            Some(v) => Ok(v),
            None => Err(StoreError::NotFound),
        }
    }

    /// Replay one durability-log file: decode records from the start of
    /// `buffer`, ingesting each in order through the normal flush policy,
    /// and stop at the first position where no record decodes (a corrupt
    /// or truncated tail loses only the bytes from that position on).
    /// Returns the segment writes the policy emitted, in order.
    pub fn replay_file(&mut self, buffer: &[u8]) -> (segs: Vec<SegmentWrite>)
        requires
            old(self).wf(),
        ensures
            final(self).wf(),
            final(self).flush_limit() == old(self).flush_limit(),
            final(self).wal_state() == old(self).wal_state(),
            final(self).sm() == spec_replay(
                old(self).sm(),
                spec_records(buffer@, 0),
                old(self).flush_limit(),
            ).0,
            ({
                let fs = spec_replay(
                    old(self).sm(),
                    spec_records(buffer@, 0),
                    old(self).flush_limit(),
                ).1;
                &&& segs@.len() == fs.len()
                &&& forall|i: int|
                    0 <= i < fs.len() ==> (#[trigger] segs@[i])@.bytes == fs[i].1
                        && segs@[i]@.file_name == fs[i].0 + ".metricdata"@
            }),
    {
        let mut segs: Vec<SegmentWrite> = Vec::new();
        let mut off: usize = 0;
        let ghost mut done: Seq<MetricModel> = Seq::empty();
        proof {
            assert(done + spec_records(buffer@, 0) =~= spec_records(buffer@, 0));
        }
        loop
            invariant
                off <= buffer@.len(),
                self.wf(),
                self.flush_limit() == old(self).flush_limit(),
                self.wal_state() == old(self).wal_state(),
                spec_records(buffer@, 0) == done + spec_records(buffer@, off as int),
                self.sm() == spec_replay(old(self).sm(), done, old(self).flush_limit()).0,
                ({
                    let fs = spec_replay(old(self).sm(), done, old(self).flush_limit()).1;
                    &&& segs@.len() == fs.len()
                    &&& forall|i: int|
                        0 <= i < fs.len() ==> (#[trigger] segs@[i])@.bytes == fs[i].1
                            && segs@[i]@.file_name == fs[i].0 + ".metricdata"@
                }),
            ensures
                spec_records(buffer@, off as int) == Seq::<MetricModel>::empty(),
            decreases buffer@.len() - off,
        {
            if off >= buffer.len() {
                proof {
                    assert(spec_decode_metric(buffer@, off as int) is None);
                    assert(spec_records(buffer@, off as int) =~= Seq::<MetricModel>::empty());
                }
                break ;
            }
            let ghost off0 = off as int;
            let metric = match Metric::deserialize(buffer, &mut off) {
                Ok(metric) => metric,
                Err(_) => {
                    proof {
                        assert(spec_records(buffer@, off as int) =~= Seq::<MetricModel>::empty());
                    }
                    break ;
                },
            };
            proof {
                lemma_decode_metric_bounds(buffer@, off0);
                assert(spec_records(buffer@, off0) == seq![metric@] + spec_records(
                    buffer@,
                    off as int,
                ));
                lemma_replay_push(old(self).sm(), done, metric@, old(self).flush_limit());
                assert(done + spec_records(buffer@, off0) =~= done.push(metric@) + spec_records(
                    buffer@,
                    off as int,
                ));
            }
            let ghost pre_fs = spec_replay(old(self).sm(), done, old(self).flush_limit()).1;
            let flush = self.ingest(metric);
            proof {
                done = done.push(metric@);
            }
            match flush {
                Some(sw) => {
                    segs.push(sw);
                    proof {
                        let fs = spec_replay(old(self).sm(), done, old(self).flush_limit()).1;
                        assert(fs =~= pre_fs + seq![(metric@.name, sw@.bytes)]);
                    }
                },
                None => {},
            }
        }
        proof {
            assert(done + Seq::<MetricModel>::empty() =~= done);
        }
        segs
    }

    /// How many records the durability log has accepted so far.
    pub fn wal_write_count(&self) -> (r: u64)
        ensures
            r == self.wal_state().writes(),
    {
        self.wal_writer.write_count()
    }

    /// Drain the durability log's buffer for the caller's shutdown flush.
    pub fn shutdown_flush(&mut self) -> (r: Vec<u8>)
        requires
            old(self).wf(),
        ensures
            final(self).wf(),
            final(self).flush_limit() == old(self).flush_limit(),
            final(self).sm() == old(self).sm(),
            r@ == old(self).wal_state().buffered(),
            final(self).wal_state().buffered() == Seq::<u8>::empty(),
            final(self).wal_state().writes() == old(self).wal_state().writes(),
            final(self).wal_state().interval() == old(self).wal_state().interval(),
    {
        self.wal_writer.take_buffered()
    }
}

} // verus!
