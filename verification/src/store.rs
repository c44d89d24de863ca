//! The in-memory series store and its flush policy.
//!
//! Samples are grouped by name into series, each held in arrival order.
//! Every series carries a pending-write counter; when an insert brings the
//! counter to the flush threshold, the entire in-memory sequence for that
//! series is encoded as one segment-file append and the counter resets to
//! zero.  The in-memory sequence itself is never cleared by flushing.
//!
//! The store performs no I/O: an insert that crosses the threshold returns
//! the segment write (target file name and bytes) for the caller to
//! perform.

use vstd::prelude::*;
use vstd::string::StringExecFns;

use crate::metric::{spec_encode_metric, metric_encodable, Metric, MetricModel};
use crate::serializable::BinarySerializable;

verus! {

/// One series: its name, its samples in arrival order, and the number of
/// inserts since the last flush.
struct Series {
    name: String,
    samples: Vec<Metric>,
    pending: u32,
}

/// The mathematical image of one series.
pub ghost struct SeriesModel {
    pub samples: Seq<MetricModel>,
    pub pending: nat,
}

/// A segment-file append for the caller to perform: the target file name
/// and the bytes to append.
#[derive(Debug)]
pub struct SegmentWrite {
    pub file_name: String,
    pub bytes: Vec<u8>,
}

/// The mathematical image of a [`SegmentWrite`].
pub ghost struct SegmentModel {
    pub file_name: Seq<char>,
    pub bytes: Seq<u8>,
}

impl View for SegmentWrite {
    type V = SegmentModel;

    open spec fn view(&self) -> SegmentModel {
        SegmentModel { file_name: self.file_name@, bytes: self.bytes@ }
    }
}

impl Series {
    spec fn model(self) -> SeriesModel {
        SeriesModel { samples: self.samples.deep_view(), pending: self.pending as nat }
    }
}

/// The concatenation of the record encodings of `samples`, in order: the
/// bytes a segment flush appends.
pub open spec fn spec_encode_samples(samples: Seq<MetricModel>) -> Seq<u8>
    decreases samples.len(),
{
    if samples.len() == 0 {
        Seq::empty()
    } else {
        spec_encode_samples(samples.drop_last()) + spec_encode_metric(samples.last())
    }
}

/// What one insert does to the store model: append the sample to its
/// series (creating the series if absent), bump the pending counter, and,
/// when the counter reaches `flush_max`, emit the encoding of the entire
/// series and reset the counter.
pub open spec fn spec_insert_series(
    m: Map<Seq<char>, SeriesModel>,
    mm: MetricModel,
    flush_max: u32,
) -> (Map<Seq<char>, SeriesModel>, Option<Seq<u8>>) {
    let prior = if m.contains_key(mm.name) {
        m[mm.name]
    } else {
        SeriesModel { samples: Seq::empty(), pending: 0 }
    };
    let samples = prior.samples.push(mm);
    if prior.pending + 1 >= flush_max {
        (m.insert(mm.name, SeriesModel { samples, pending: 0 }), Some(spec_encode_samples(samples)))
    } else {
        (m.insert(mm.name, SeriesModel { samples, pending: prior.pending + 1 }), None)
    }
}

spec fn distinct_names(s: Seq<Series>) -> bool {
    forall|i: int, j: int| 0 <= i < j < s.len() ==> s[i].name@ != s[j].name@
}

spec fn series_wf(e: Series, flush_max: u32) -> bool {
    &&& e.pending < flush_max
    &&& forall|j: int|
        0 <= j < e.samples.deep_view().len() ==> metric_encodable(
            #[trigger] e.samples.deep_view()[j],
        )
}

spec fn series_map(s: Seq<Series>) -> Map<Seq<char>, SeriesModel>
    decreases s.len(),
{
    if s.len() == 0 {
        Map::empty()
    } else {
        series_map(s.drop_last()).insert(s.last().name@, s.last().model())
    }
}

proof fn lemma_series_map_contains(s: Seq<Series>, n: Seq<char>)
    ensures
        series_map(s).contains_key(n) <==> exists|i: int| 0 <= i < s.len() && s[i].name@ == n,
    decreases s.len(),
{
    if s.len() > 0 {
        lemma_series_map_contains(s.drop_last(), n);
        if s.last().name@ == n {
            assert(s[s.len() - 1].name@ == n);
        } else {
            assert forall|i: int| 0 <= i < s.len() && s[i].name@ == n implies 0 <= i < s.len() - 1
                && s.drop_last()[i].name@ == n by {}
        }
    }
}

proof fn lemma_series_map_at(s: Seq<Series>, i: int)
    requires
        distinct_names(s),
        0 <= i < s.len(),
    ensures
        series_map(s).contains_key(s[i].name@),
        series_map(s)[s[i].name@] == s[i].model(),
    decreases s.len(),
{
    if i < s.len() - 1 {
        lemma_series_map_at(s.drop_last(), i);
    }
}

proof fn lemma_series_map_update(s: Seq<Series>, i: int, e: Series)
    requires
        distinct_names(s),
        0 <= i < s.len(),
        e.name@ == s[i].name@,
    ensures
        series_map(s.update(i, e)) == series_map(s).insert(e.name@, e.model()),
    decreases s.len(),
{
    if i == s.len() - 1 {
        assert(s.update(i, e).drop_last() =~= s.drop_last());
        assert(series_map(s.update(i, e)) =~= series_map(s).insert(e.name@, e.model()));
    } else {
        assert(s.update(i, e).drop_last() =~= s.drop_last().update(i, e));
        lemma_series_map_update(s.drop_last(), i, e);
        assert(s.update(i, e).last() == s.last());
        assert(s.last().name@ != e.name@);
        assert(series_map(s.update(i, e)) =~= series_map(s).insert(e.name@, e.model()));
    }
}

proof fn lemma_series_map_push(s: Seq<Series>, e: Series)
    ensures
        series_map(s.push(e)) == series_map(s).insert(e.name@, e.model()),
{
    assert(s.push(e).drop_last() =~= s);
    assert(s.push(e).last() == e);
}

/// The segment file for a series is named after it, with a fixed suffix.
pub fn segment_file_name(name: &str) -> (r: String)
    ensures
        r@ == name@ + ".metricdata"@,
{
    let base = name.to_owned();
    base.concat(".metricdata")
}

/// Encode a whole sample sequence as one byte string: the bytes of a
/// segment flush, and of a read response body.
pub fn encode_sample_vec(samples: &Vec<Metric>) -> (r: Vec<u8>)
    requires
        forall|j: int|
            0 <= j < samples.deep_view().len() ==> metric_encodable(
                #[trigger] samples.deep_view()[j],
            ),
    ensures
        r@ == spec_encode_samples(samples.deep_view()),
{
    let mut out: Vec<u8> = Vec::new();
    let mut i: usize = 0;
    proof {
        assert(samples.deep_view().take(0) =~= Seq::<MetricModel>::empty());
    }
    while i < samples.len()
        invariant
            i <= samples.deep_view().len(),
            forall|j: int|
                0 <= j < samples.deep_view().len() ==> metric_encodable(
                    #[trigger] samples.deep_view()[j],
                ),
            out@ == spec_encode_samples(samples.deep_view().take(i as int)),
        decreases samples.deep_view().len() - i,
    {
        proof {
            assert(samples.deep_view()[i as int] == samples@[i as int]@);
        }
        let mut bytes = (&samples[i]).serialize();
        out.append(&mut bytes);
        proof {
            assert(samples.deep_view().take(i + 1).drop_last() =~= samples.deep_view().take(
                i as int,
            ));
            assert(samples.deep_view().take(i + 1).last() == samples.deep_view()[i as int]);
        }
        i = i + 1;
    }
    proof {
        assert(samples.deep_view().take(samples.deep_view().len() as int) =~= samples.deep_view());
    }
    out
}

/// The in-memory store: a map from series name to its series, with the
/// flush threshold fixed at construction.
pub struct InMemoryStore {
    flush_max: u32,
    series: Vec<Series>,
}

impl InMemoryStore {
    /// The store as a map from series name to series model.
    pub closed spec fn sm(self) -> Map<Seq<char>, SeriesModel> {
        series_map(self.series@)
    }

    /// The flush threshold.
    pub closed spec fn flush_limit(self) -> u32 {
        self.flush_max
    }

    /// Internal consistency: a positive threshold, one series per name,
    /// every held sample encodable, every counter strictly below the
    /// threshold.
    pub closed spec fn wf(self) -> bool {
        &&& self.flush_max > 0
        &&& distinct_names(self.series@)
        &&& forall|i: int|
            0 <= i < self.series@.len() ==> series_wf(#[trigger] self.series@[i], self.flush_max)
    }

    /// A fresh store with the flush threshold of 1000 inserts per series.
    pub fn new() -> (r: InMemoryStore)
        ensures
            r.wf(),
            r.flush_limit() == 1000,
            r.sm() == Map::<Seq<char>, SeriesModel>::empty(),
    {
        InMemoryStore { flush_max: 1000, series: Vec::new() }
    }

    fn find_series(&self, name: &str) -> (r: Option<usize>)
        ensures
            r matches Some(i) ==> i < self.series@.len() && self.series@[i as int].name@ == name@,
            r is None ==> forall|k: int| 0 <= k < self.series@.len() ==> self.series@[k].name@
                != name@,
    {
        let key: String = name.to_owned();
        let mut j: usize = 0;
        while j < self.series.len()
            invariant
                j <= self.series@.len(),
                key@ == name@,
                forall|k: int| 0 <= k < j ==> self.series@[k].name@ != name@,
            decreases self.series@.len() - j,
        {
            if self.series[j].name == key {
                return Some(j);
            }
            j = j + 1;
        }
        None
    }

    /// Append `metric` to its series, creating the series on first use.
    /// Exactly when the series's pending counter reaches the threshold,
    /// the returned segment write holds the encoding of the entire series
    /// in arrival order, and the counter resets.
    pub fn insert(&mut self, metric: Metric) -> (flush: Option<SegmentWrite>)
        requires
            old(self).wf(),
            metric_encodable(metric@),
        ensures
            final(self).wf(),
            final(self).flush_limit() == old(self).flush_limit(),
            final(self).sm() == spec_insert_series(
                old(self).sm(),
                metric@,
                old(self).flush_limit(),
            ).0,
            match flush {
                Some(sw) => spec_insert_series(old(self).sm(), metric@, old(self).flush_limit()).1
                    == Some(sw@.bytes) && sw@.file_name == metric.name@ + ".metricdata"@,
                None => spec_insert_series(old(self).sm(), metric@, old(self).flush_limit()).1
                    is None,
            },
    {
        let key: String = metric.name.clone();
        match self.find_series(key.as_str()) {
            Some(i) => {
                proof {
                    lemma_series_map_at(self.series@, i as int);
                    lemma_series_map_contains(self.series@, key@);
                }
                let mut entry = self.series.remove(i);
                let ghost old_entry_model = entry.model();
                entry.samples.push(metric);
                proof {
                    assert(entry.samples.deep_view() =~= old_entry_model.samples.push(
                        entry.samples.deep_view().last(),
                    ));
                }
                let will_flush = entry.pending >= self.flush_max - 1;
                let flush = if will_flush {
                    entry.pending = 0;
                    Some(
                        SegmentWrite {
                            file_name: segment_file_name(key.as_str()),
                            bytes: encode_sample_vec(&entry.samples),
                        },
                    )
                } else {
                    entry.pending = entry.pending + 1;
                    None
                };
                self.series.insert(i, entry);
                proof {
                    assert(self.series@ =~= old(self).series@.update(i as int, entry));
                    lemma_series_map_update(old(self).series@, i as int, entry);
                }
                flush
            },
            None => {
                let entry = Series { name: key, samples: vec![metric], pending: 1 };
                proof {
                    lemma_series_map_contains(self.series@, entry.name@);
                    assert(entry.samples.deep_view() =~= Seq::<MetricModel>::empty().push(
                        entry.samples.deep_view()[0],
                    ));
                }
                let flush = if self.flush_max <= 1 {
                    let bytes = encode_sample_vec(&entry.samples);
                    let mut entry = entry;
                    entry.pending = 0;
                    let name = segment_file_name(entry.name.as_str());
                    self.series.push(entry);
                    Some(SegmentWrite { file_name: name, bytes })
                } else {
                    self.series.push(entry);
                    None
                };
                proof {
                    lemma_series_map_push(old(self).series@, self.series@.last());
                    assert(self.series@.drop_last() =~= old(self).series@);
                }
                flush
            },
        }
    }

    /// The full in-memory sequence for `name`, or `None` if no sample of
    /// that name was ever inserted.
    pub fn query(&self, name: &str) -> (r: Option<&Vec<Metric>>)
        requires
            self.wf(),
        ensures
            r matches Some(v) ==> self.sm().contains_key(name@) && v.deep_view()
                == self.sm()[name@].samples,
            r matches Some(v) ==> forall|j: int|
                0 <= j < v.deep_view().len() ==> metric_encodable(#[trigger] v.deep_view()[j]),
            r is None ==> !self.sm().contains_key(name@),
    {
        proof {
            lemma_series_map_contains(self.series@, name@);
        }
        match self.find_series(name) {
            Some(i) => {
                proof {
                    lemma_series_map_at(self.series@, i as int);
                }
                Some(&self.series[i].samples)
            },
            None => None,
        }
    }

    /// The segment append that would rewrite the whole series `name` now:
    /// its target file and the encoding of every held sample, in order.
    /// `None` if the series does not exist.
    pub fn flush_metric(&self, name: &str) -> (r: Option<SegmentWrite>)
        requires
            self.wf(),
        ensures
            r matches Some(sw) ==> self.sm().contains_key(name@) && sw@.bytes
                == spec_encode_samples(self.sm()[name@].samples) && sw@.file_name == name@
                + ".metricdata"@,
            r is None ==> !self.sm().contains_key(name@),
    {
        proof {
            lemma_series_map_contains(self.series@, name@);
        }
        match self.find_series(name) {
            Some(i) => {
                proof {
                    lemma_series_map_at(self.series@, i as int);
                }
                Some(
                    SegmentWrite {
                        file_name: segment_file_name(name),
                        bytes: encode_sample_vec(&self.series[i].samples),
                    },
                )
            },
            None => None,
        }
    }
}

} // verus!
