//! The metric record: a timestamped, named sample with ordered label pairs.
//!
//! The binary form is the shared on-disk and on-wire format: an 8-byte
//! little-endian timestamp, the name as a length-prefixed text field, then
//! the label pairs, each a key text followed by a value text.  The pairs
//! carry no count: a decoder consumes pairs greedily until the next bytes
//! do not form a pair, so record boundaries in a buffer of concatenated
//! records are discovered only by decoding forward from the start.
//!
//! A zero timestamp is reserved as the decode-failure sentinel and a
//! zero-length text field is undecodable, so a record that decodes at all
//! has a nonzero timestamp and nonempty texts.

use vstd::prelude::*;
use vstd::bytes::*;
use vstd::utf8::*;
use vstd::string::StringExecFns;

use crate::codec::{decode_text, decode_u64, encode_text, encode_u64, spec_decode_text, spec_encode_text, text_encodable};
use crate::serializable::BinarySerializable;

verus! {

/// One sample: immutable once constructed.
#[derive(Debug, Clone)]
pub struct Metric {
    pub timestamp: u64,
    pub name: String,
    pub labels: Vec<(String, String)>,
}

/// The mathematical image of a [`Metric`]: its name and labels as
/// character sequences.
pub ghost struct MetricModel {
    pub timestamp: u64,
    pub name: Seq<char>,
    pub labels: Seq<(Seq<char>, Seq<char>)>,
}

impl View for Metric {
    type V = MetricModel;

    open spec fn view(&self) -> MetricModel {
        MetricModel {
            timestamp: self.timestamp,
            name: self.name@,
            labels: self.labels.deep_view(),
        }
    }
}

impl DeepView for Metric {
    type V = MetricModel;

    open spec fn deep_view(&self) -> MetricModel {
        self.view()
    }
}

/// The encoding of one label pair: key text, then value text.
pub open spec fn spec_encode_pair(p: (Seq<char>, Seq<char>)) -> Seq<u8> {
    spec_encode_text(p.0) + spec_encode_text(p.1)
}

/// The encoding of a label list: the pair encodings, concatenated.
pub open spec fn spec_encode_labels(labels: Seq<(Seq<char>, Seq<char>)>) -> Seq<u8>
    decreases labels.len(),
{
    if labels.len() == 0 {
        Seq::empty()
    } else {
        spec_encode_pair(labels[0]) + spec_encode_labels(labels.drop_first())
    }
}

/// The full record encoding: timestamp, name, labels.
pub open spec fn spec_encode_metric(m: MetricModel) -> Seq<u8> {
    spec_u64_to_le_bytes(m.timestamp) + spec_encode_text(m.name) + spec_encode_labels(m.labels)
}

/// Every length-prefixed field of the record fits its 4-byte prefix.
pub open spec fn metric_encodable(m: MetricModel) -> bool {
    &&& encode_utf8(m.name).len() <= u32::MAX
    &&& forall|i: int|
        0 <= i < m.labels.len() ==> encode_utf8(#[trigger] m.labels[i].0).len() <= u32::MAX
            && encode_utf8(m.labels[i].1).len() <= u32::MAX
}

/// A record the format can represent and read back: nonzero timestamp and
/// nonempty texts that fit their length prefixes.
pub open spec fn metric_wf(m: MetricModel) -> bool {
    &&& m.timestamp != 0
    &&& text_encodable(m.name)
    &&& forall|i: int|
        0 <= i < m.labels.len() ==> text_encodable(#[trigger] m.labels[i].0) && text_encodable(
            m.labels[i].1,
        )
}

/// The result of reading one label pair at `off`: the pair and the offset
/// just past it, or `None` when no pair parses there.
pub open spec fn spec_decode_pair(data: Seq<u8>, off: int) -> Option<
    ((Seq<char>, Seq<char>), int),
> {
    match spec_decode_text(data, off) {
        Some((key, off2)) => match spec_decode_text(data, off2) {
            Some((value, off3)) => Some(((key, value), off3)),
            None => None,
        },
        None => None,
    }
}

/// Greedy pair reading: consume pairs until the next bytes do not form
/// one.  Total: yields the pairs read and the offset where reading stopped.
pub open spec fn spec_decode_labels(data: Seq<u8>, off: int) -> (Seq<(Seq<char>, Seq<char>)>, int)
    decreases data.len() - off,
    when off <= data.len()
    via spec_decode_labels_decreases
{
    match spec_decode_pair(data, off) {
        None => (Seq::empty(), off),
        Some((p, off2)) => {
            let (rest, end) = spec_decode_labels(data, off2);
            (seq![p] + rest, end)
        },
    }
}

#[via_fn]
proof fn spec_decode_labels_decreases(data: Seq<u8>, off: int) {
}

/// The result of reading one record at `off`: the record and the offset
/// just past it, or `None` when fewer than 8 bytes remain, the timestamp
/// is the zero sentinel, or the name does not decode.
pub open spec fn spec_decode_metric(data: Seq<u8>, off: int) -> Option<(MetricModel, int)> {
    if 0 <= off && off + 8 <= data.len() {
        let ts = spec_u64_from_le_bytes(data.subrange(off, off + 8));
        if ts == 0 {
            None
        } else {
            match spec_decode_text(data, off + 8) {
                Some((name, off2)) => {
                    let (labels, end) = spec_decode_labels(data, off2);
                    Some((MetricModel { timestamp: ts, name, labels }, end))
                },
                None => None,
            }
        }
    } else {
        None
    }
}

/// Reading a pair always lands strictly further on, and never past the end.
pub proof fn lemma_decode_pair_bounds(data: Seq<u8>, off: int)
    requires
        spec_decode_pair(data, off) is Some,
    ensures
        off < spec_decode_pair(data, off).unwrap().1 <= data.len(),
{
}

/// Where greedy pair reading stops: never before `off`, never past the end.
pub proof fn lemma_decode_labels_bounds(data: Seq<u8>, off: int)
    requires
        off <= data.len(),
    ensures
        off <= spec_decode_labels(data, off).1 <= data.len(),
    decreases data.len() - off,
{
    match spec_decode_pair(data, off) {
        None => {},
        Some((p, off2)) => {
            lemma_decode_pair_bounds(data, off);
            lemma_decode_labels_bounds(data, off2);
        },
    }
}

/// Reading a record always lands strictly further on, and never past the
/// end; and the record read is well-formed.
pub proof fn lemma_decode_metric_bounds(data: Seq<u8>, off: int)
    requires
        spec_decode_metric(data, off) is Some,
    ensures
        off < spec_decode_metric(data, off).unwrap().1 <= data.len(),
        metric_wf(spec_decode_metric(data, off).unwrap().0),
{
    let (m, end) = spec_decode_metric(data, off).unwrap();
    let (name, off2) = spec_decode_text(data, off + 8).unwrap();
    let bytes = data.subrange(off + 12, off2);
    decode_utf8_encode_utf8(bytes);
    lemma_decode_labels_bounds(data, off2);
    lemma_decode_labels_wf(data, off2);
}

/// Every pair that greedy reading yields has nonempty texts that fit
/// their prefixes.
pub proof fn lemma_decode_labels_wf(data: Seq<u8>, off: int)
    requires
        off <= data.len(),
    ensures
        forall|i: int|
            0 <= i < spec_decode_labels(data, off).0.len() ==> text_encodable(
                #[trigger] spec_decode_labels(data, off).0[i].0,
            ) && text_encodable(spec_decode_labels(data, off).0[i].1),
    decreases data.len() - off,
{
    match spec_decode_pair(data, off) {
        None => {},
        Some((p, off2)) => {
            let (key, offk) = spec_decode_text(data, off).unwrap();
            let (value, offv) = spec_decode_text(data, offk).unwrap();
            decode_utf8_encode_utf8(data.subrange(off + 4, offk));
            decode_utf8_encode_utf8(data.subrange(offk + 4, offv));
            lemma_decode_pair_bounds(data, off);
            lemma_decode_labels_wf(data, off2);
            assert(spec_decode_labels(data, off).0 == seq![p] + spec_decode_labels(data, off2).0);
        },
    }
}

/// Appending one pair to a label list appends its encoding.
pub proof fn lemma_encode_labels_push(
    labels: Seq<(Seq<char>, Seq<char>)>,
    p: (Seq<char>, Seq<char>),
)
    ensures
        spec_encode_labels(labels.push(p)) == spec_encode_labels(labels) + spec_encode_pair(p),
    decreases labels.len(),
{
    if labels.len() == 0 {
        assert(labels.push(p)[0] == p);
        assert(labels.push(p).drop_first() =~= Seq::<(Seq<char>, Seq<char>)>::empty());
        assert(spec_encode_labels(labels.push(p).drop_first()) == spec_encode_labels(
            Seq::<(Seq<char>, Seq<char>)>::empty(),
        ));
        assert(spec_encode_labels(Seq::<(Seq<char>, Seq<char>)>::empty()) == Seq::<u8>::empty());
        assert(spec_encode_labels(labels) == Seq::<u8>::empty());
        assert(spec_encode_labels(labels.push(p)) =~= spec_encode_labels(labels)
            + spec_encode_pair(p));
    } else {
        assert(labels.push(p)[0] == labels[0]);
        assert(labels.push(p).drop_first() =~= labels.drop_first().push(p));
        lemma_encode_labels_push(labels.drop_first(), p);
        assert(spec_encode_labels(labels.push(p)) =~= spec_encode_labels(labels)
            + spec_encode_pair(p));
    }
}

impl BinarySerializable for Metric {
    open spec fn spec_encoding(&self) -> Seq<u8> {
        spec_encode_metric(self@)
    }

    open spec fn spec_encodable(&self) -> bool {
        metric_encodable(self@)
    }

    fn serialize(&self) -> (r: Vec<u8>)
        ensures
            r@ == spec_encode_metric(self@),
    {
        let mut data: Vec<u8> = Vec::new();
        encode_u64(&mut data, self.timestamp);
        encode_text(&mut data, self.name.as_str());
        let mut i: usize = 0;
        while i < self.labels.len()
            invariant
                i <= self.labels@.len(),
                metric_encodable(self@),
                data@ == spec_u64_to_le_bytes(self.timestamp) + spec_encode_text(self.name@)
                    + spec_encode_labels(self@.labels.take(i as int)),
            decreases self.labels@.len() - i,
        {
            let pair = &self.labels[i];
            proof {
                assert(self@.labels[i as int] == (pair.0@, pair.1@));
                lemma_encode_labels_push(self@.labels.take(i as int), (pair.0@, pair.1@));
                assert(self@.labels.take(i + 1) =~= self@.labels.take(i as int).push(
                    (pair.0@, pair.1@),
                ));
            }
            encode_text(&mut data, pair.0.as_str());
            encode_text(&mut data, pair.1.as_str());
            i = i + 1;
        }
        proof {
            assert(self@.labels.take(self.labels@.len() as int) =~= self@.labels);
        }
        data
    }

    fn deserialize(data: &[u8], byte_offset: &mut usize) -> (r: Result<Metric, String>)
        ensures
            r is Ok <==> spec_decode_metric(data@, *old(byte_offset) as int) is Some,
            r matches Ok(m) ==> spec_decode_metric(data@, *old(byte_offset) as int) == Some(
                (m@, *final(byte_offset) as int),
            ) && metric_wf(m@),
            r is Err ==> *final(byte_offset) == *old(byte_offset),
    {
        let ghost start = *byte_offset as int;
        let mut cur: usize = *byte_offset;
        let timestamp = match decode_u64(data, &mut cur) {
            Ok(t) => t,
            Err(_) => {
                return Err(decode_failure_message());
            },
        };
        if timestamp == 0 {
            return Err(decode_failure_message());
        }
        let name = match decode_text(data, &mut cur) {
            Ok(n) => n,
            Err(_) => {
                return Err(decode_failure_message());
            },
        };
        let ghost labels_start = cur as int;
        let mut labels: Vec<(String, String)> = Vec::new();
        proof {
            assert(labels.deep_view() =~= Seq::<(Seq<char>, Seq<char>)>::empty());
            assert(labels.deep_view() + spec_decode_labels(data@, labels_start).0
                =~= spec_decode_labels(data@, labels_start).0);
        }
        loop
            invariant
                cur <= data@.len(),
                spec_decode_labels(data@, labels_start) == (
                    labels.deep_view() + spec_decode_labels(data@, cur as int).0,
                    spec_decode_labels(data@, cur as int).1,
                ),
            ensures
                spec_decode_labels(data@, labels_start) == (labels.deep_view(), cur as int),
            decreases data@.len() - cur,
        {
            let mut probe: usize = cur;
            let key = match decode_text(data, &mut probe) {
                Ok(k) => k,
                Err(_) => {
                    proof {
                        assert(labels.deep_view() + spec_decode_labels(data@, cur as int).0
                            =~= labels.deep_view());
                    }
                    break ;
                },
            };
            let value = match decode_text(data, &mut probe) {
                Ok(v) => v,
                Err(_) => {
                    proof {
                        assert(labels.deep_view() + spec_decode_labels(data@, cur as int).0
                            =~= labels.deep_view());
                    }
                    break ;
                },
            };
            proof {
                let p = (key@, value@);
                assert(spec_decode_pair(data@, cur as int) == Some((p, probe as int)));
                lemma_decode_pair_bounds(data@, cur as int);
                assert(spec_decode_labels(data@, cur as int) == (
                    seq![p] + spec_decode_labels(data@, probe as int).0,
                    spec_decode_labels(data@, probe as int).1,
                ));
            }
            let ghost pre = labels.deep_view();
            labels.push((key, value));
            proof {
                let p = (key@, value@);
                assert(labels.deep_view() =~= pre.push(p));
                assert(pre.push(p) + spec_decode_labels(data@, probe as int).0 =~= pre
                    + spec_decode_labels(data@, cur as int).0);
            }
            cur = probe;
        }
        proof {
            lemma_decode_metric_bounds(data@, start);
            lemma_decode_metric_encode(data@, start);
        }
        *byte_offset = cur;
        Ok(Metric { timestamp, name, labels })
    }
}

/// The error text reported when a record does not decode.
fn decode_failure_message() -> String {
    String::from_str("failed to decode metric record")
}

} // verus!

// The lemmas below relate encoding and decoding: a buffer that holds the
// concatenated encodings of well-formed records decodes back to exactly
// those records.
verus! {

/// The greedy record reading of a whole buffer from `off`: decode records
/// forward, stopping at the first position where no record decodes.
pub open spec fn spec_records(data: Seq<u8>, off: int) -> Seq<MetricModel>
    decreases data.len() - off,
    when 0 <= off <= data.len()
    via spec_records_decreases
{
    match spec_decode_metric(data, off) {
        None => Seq::empty(),
        Some((m, off2)) => seq![m] + spec_records(data, off2),
    }
}

#[via_fn]
proof fn spec_records_decreases(data: Seq<u8>, off: int) {
    if spec_decode_metric(data, off) is Some {
        lemma_decode_metric_bounds(data, off);
    }
}

/// A text field encoded at offset `off` of a buffer decodes there to
/// exactly that text.
pub proof fn lemma_decode_text_at(data: Seq<u8>, off: int, s: Seq<char>)
    requires
        text_encodable(s),
        0 <= off,
        off + spec_encode_text(s).len() <= data.len(),
        data.subrange(off, off + spec_encode_text(s).len()) == spec_encode_text(s),
    ensures
        spec_decode_text(data, off) == Some((s, off + spec_encode_text(s).len())),
{
    let bytes = encode_utf8(s);
    let bl = bytes.len() as int;
    let enc = spec_encode_text(s);
    lemma_auto_spec_u32_to_from_le_bytes();
    assert(enc.len() == 4 + bl);
    assert(data.subrange(off, off + 4) =~= enc.subrange(0, 4));
    assert(enc.subrange(0, 4) =~= spec_u32_to_le_bytes(bl as u32));
    assert(spec_u32_from_le_bytes(data.subrange(off, off + 4)) == bl);
    assert(data.subrange(off + 4, off + 4 + bl) =~= enc.subrange(4, 4 + bl));
    assert(enc.subrange(4, 4 + bl) =~= bytes);
    encode_utf8_valid_utf8(s);
    encode_utf8_decode_utf8(s);
}

/// A label pair encoded at offset `off` of a buffer decodes there to
/// exactly that pair.
pub proof fn lemma_decode_pair_at(data: Seq<u8>, off: int, p: (Seq<char>, Seq<char>))
    requires
        text_encodable(p.0),
        text_encodable(p.1),
        0 <= off,
        off + spec_encode_pair(p).len() <= data.len(),
        data.subrange(off, off + spec_encode_pair(p).len()) == spec_encode_pair(p),
    ensures
        spec_decode_pair(data, off) == Some((p, off + spec_encode_pair(p).len())),
{
    let e0 = spec_encode_text(p.0);
    let e1 = spec_encode_text(p.1);
    assert(data.subrange(off, off + e0.len()) =~= spec_encode_pair(p).subrange(0, e0.len() as int));
    assert(spec_encode_pair(p).subrange(0, e0.len() as int) =~= e0);
    lemma_decode_text_at(data, off, p.0);
    assert(data.subrange(off + e0.len(), off + e0.len() + e1.len() as int) =~= spec_encode_pair(
        p,
    ).subrange(e0.len() as int, e0.len() + e1.len() as int));
    assert(spec_encode_pair(p).subrange(e0.len() as int, e0.len() + e1.len() as int) =~= e1);
    lemma_decode_text_at(data, off + e0.len(), p.1);
}

/// A label list encoded at `off` and followed by bytes that do not form a
/// pair is exactly what greedy pair reading yields, stopping at its end.
pub proof fn lemma_decode_labels_at(data: Seq<u8>, off: int, labels: Seq<(Seq<char>, Seq<char>)>)
    requires
        forall|i: int|
            0 <= i < labels.len() ==> text_encodable(#[trigger] labels[i].0) && text_encodable(
                labels[i].1,
            ),
        0 <= off,
        off + spec_encode_labels(labels).len() <= data.len(),
        data.subrange(off, off + spec_encode_labels(labels).len()) == spec_encode_labels(labels),
        spec_decode_pair(data, off + spec_encode_labels(labels).len()) is None,
    ensures
        spec_decode_labels(data, off) == (labels, off + spec_encode_labels(labels).len()),
    decreases labels.len(),
{
    let el = spec_encode_labels(labels);
    if labels.len() == 0 {
        assert(spec_decode_labels(data, off) == (Seq::<(Seq<char>, Seq<char>)>::empty(), off));
        assert(spec_decode_labels(data, off) == (labels, off + el.len()));
    } else {
        let p = labels[0];
        let ep = spec_encode_pair(p);
        let rest = labels.drop_first();
        let er = spec_encode_labels(rest);
        assert(el =~= ep + er);
        assert(data.subrange(off, off + ep.len()) =~= el.subrange(0, ep.len() as int));
        assert(el.subrange(0, ep.len() as int) =~= ep);
        lemma_decode_pair_at(data, off, p);
        assert(data.subrange(off + ep.len(), off + ep.len() + er.len() as int) =~= el.subrange(
            ep.len() as int,
            ep.len() + er.len() as int,
        ));
        assert(el.subrange(ep.len() as int, ep.len() + er.len() as int) =~= er);
        lemma_decode_labels_at(data, off + ep.len(), rest);
        assert(spec_decode_labels(data, off) == (
            seq![p] + rest,
            off + ep.len() + er.len() as int,
        ));
        assert(seq![p] + rest =~= labels);
    }
}

/// A well-formed record encoded at `off` and followed by bytes that do not
/// form a label pair decodes there to exactly that record, ending exactly
/// at the end of its encoding.
pub proof fn lemma_decode_metric_at(data: Seq<u8>, off: int, m: MetricModel)
    requires
        metric_wf(m),
        0 <= off,
        off + spec_encode_metric(m).len() <= data.len(),
        data.subrange(off, off + spec_encode_metric(m).len()) == spec_encode_metric(m),
        spec_decode_pair(data, off + spec_encode_metric(m).len()) is None,
    ensures
        spec_decode_metric(data, off) == Some((m, off + spec_encode_metric(m).len())),
{
    let em = spec_encode_metric(m);
    let et = spec_u64_to_le_bytes(m.timestamp);
    let en = spec_encode_text(m.name);
    let el = spec_encode_labels(m.labels);
    lemma_auto_spec_u64_to_from_le_bytes();
    assert(et.len() == 8);
    assert(data.subrange(off, off + 8) =~= em.subrange(0, 8));
    assert(em.subrange(0, 8) =~= et);
    assert(spec_u64_from_le_bytes(data.subrange(off, off + 8)) == m.timestamp);
    assert(data.subrange(off + 8, off + 8 + en.len() as int) =~= em.subrange(8, 8 + en.len() as int));
    assert(em.subrange(8, 8 + en.len() as int) =~= en);
    lemma_decode_text_at(data, off + 8, m.name);
    let off2 = off + 8 + en.len();
    assert(data.subrange(off2, off2 + el.len() as int) =~= em.subrange(8 + en.len() as int, em.len() as int));
    assert(em.subrange(8 + en.len() as int, em.len() as int) =~= el);
    lemma_decode_labels_at(data, off2, m.labels);
}

/// A buffer region holding, from `off` on, the concatenated encodings of
/// `models` — each well-formed, each boundary between records (and the
/// start of whatever follows the last) failing to parse as a label pair —
/// with whatever follows the last record failing to decode as a record.
/// This is the shape of an intact log, and of a log whose tail is
/// truncated mid-field.
pub open spec fn clean_concat(data: Seq<u8>, off: int, models: Seq<MetricModel>) -> bool
    decreases models.len(),
{
    if models.len() == 0 {
        &&& spec_decode_metric(data, off) is None
        &&& spec_decode_pair(data, off) is None
    } else {
        let em = spec_encode_metric(models[0]);
        &&& metric_wf(models[0])
        &&& 0 <= off
        &&& off + em.len() <= data.len()
        &&& data.subrange(off, off + em.len()) == em
        &&& spec_decode_pair(data, off + em.len()) is None
        &&& clean_concat(data, off + em.len(), models.drop_first())
    }
}

/// Greedy record reading of a clean concatenation yields exactly the
/// records that were written, in order: nothing is lost, duplicated or
/// invented, whether the buffer ends cleanly or in an undecodable tail.
pub proof fn lemma_records_of_clean_concat(data: Seq<u8>, off: int, models: Seq<MetricModel>)
    requires
        clean_concat(data, off, models),
        0 <= off <= data.len(),
    ensures
        spec_records(data, off) == models,
    decreases models.len(),
{
    if models.len() == 0 {
        assert(spec_records(data, off) =~= models);
    } else {
        let em = spec_encode_metric(models[0]);
        lemma_decode_metric_at(data, off, models[0]);
        lemma_records_of_clean_concat(data, off + em.len(), models.drop_first());
        assert(spec_records(data, off) == seq![models[0]] + models.drop_first());
        assert(seq![models[0]] + models.drop_first() =~= models);
    }
}

/// Round trip: a well-formed record decodes from its own encoding to
/// exactly itself, consuming exactly its encoding.
pub proof fn lemma_metric_round_trip(m: MetricModel)
    requires
        metric_wf(m),
    ensures
        spec_decode_metric(spec_encode_metric(m), 0) == Some(
            (m, spec_encode_metric(m).len() as int),
        ),
{
    let data = spec_encode_metric(m);
    assert(data.subrange(0, data.len() as int) =~= data);
    lemma_decode_metric_at(data, 0, m);
}

} // verus!

// The reverse direction: bytes that decode re-encode to themselves, so a
// decoded record is a faithful image of the bytes it was read from.
verus! {

/// The bytes a successful text read consumed re-encode to the text read.
pub proof fn lemma_decode_text_encode(data: Seq<u8>, off: int)
    requires
        spec_decode_text(data, off) is Some,
    ensures
        ({
            let (s, end) = spec_decode_text(data, off).unwrap();
            data.subrange(off, end) == spec_encode_text(s)
        }),
{
    let (s, end) = spec_decode_text(data, off).unwrap();
    let len = spec_u32_from_le_bytes(data.subrange(off, off + 4)) as int;
    let bytes = data.subrange(off + 4, off + 4 + len);
    decode_utf8_encode_utf8(bytes);
    lemma_auto_spec_u32_to_from_le_bytes();
    assert(spec_u32_to_le_bytes(spec_u32_from_le_bytes(data.subrange(off, off + 4)))
        == data.subrange(off, off + 4));
    assert(data.subrange(off, end) =~= data.subrange(off, off + 4) + bytes);
}

/// The bytes greedy pair reading consumed re-encode to the pairs read.
pub proof fn lemma_decode_labels_encode(data: Seq<u8>, off: int)
    requires
        0 <= off <= data.len(),
    ensures
        data.subrange(off, spec_decode_labels(data, off).1) == spec_encode_labels(
            spec_decode_labels(data, off).0,
        ),
    decreases data.len() - off,
{
    match spec_decode_pair(data, off) {
        None => {
            assert(data.subrange(off, off) =~= Seq::<u8>::empty());
        },
        Some((p, off2)) => {
            let (key, offk) = spec_decode_text(data, off).unwrap();
            let (value, offv) = spec_decode_text(data, offk).unwrap();
            lemma_decode_text_encode(data, off);
            lemma_decode_text_encode(data, offk);
            lemma_decode_pair_bounds(data, off);
            lemma_decode_labels_encode(data, off2);
            let (rest, end) = spec_decode_labels(data, off2);
            lemma_decode_labels_bounds(data, off2);
            assert(data.subrange(off, end) =~= data.subrange(off, offk) + data.subrange(offk, off2)
                + data.subrange(off2, end));
            assert(seq![p] + rest =~= spec_decode_labels(data, off).0);
            assert((seq![p] + rest)[0] == p);
            assert((seq![p] + rest).drop_first() =~= rest);
        },
    }
}

/// The bytes a successful record read consumed re-encode to the record
/// read: what was decoded is exactly what was once written there.
pub proof fn lemma_decode_metric_encode(data: Seq<u8>, off: int)
    requires
        spec_decode_metric(data, off) is Some,
    ensures
        ({
            let (m, end) = spec_decode_metric(data, off).unwrap();
            data.subrange(off, end) == spec_encode_metric(m)
        }),
{
    let (m, end) = spec_decode_metric(data, off).unwrap();
    let (name, off2) = spec_decode_text(data, off + 8).unwrap();
    lemma_auto_spec_u64_to_from_le_bytes();
    assert(spec_u64_to_le_bytes(spec_u64_from_le_bytes(data.subrange(off, off + 8)))
        == data.subrange(off, off + 8));
    lemma_decode_text_encode(data, off + 8);
    lemma_decode_labels_encode(data, off2);
    lemma_decode_labels_bounds(data, off2);
    assert(data.subrange(off, end) =~= data.subrange(off, off + 8) + data.subrange(off + 8, off2)
        + data.subrange(off2, end));
}

} // verus!
