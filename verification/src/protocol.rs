//! The wire protocol: one request per accepted connection.
//!
//! Byte 0 of a request is the control byte: 0 is a read, 1 is a write,
//! anything else is a protocol error that rejects only that request.  A
//! write carries one encoded metric record; a read carries a
//! length-prefixed series name.
//!
//! A read produces a response of one status byte: 0 (found) followed by the concatenated record
//! encodings of the series, or 1 alone for a series never written to.
//! A missing series is a structured negative response, not a failure.
//!
//! The socket handling lives with the caller: it reads one buffered chunk,
//! hands the bytes here, performs the returned file appends, and sends
//! back the returned response bytes.

use vstd::prelude::*;
use vstd::slice::slice_index_get;
use vstd::utf8::encode_utf8;

use crate::codec::{decode_text, spec_decode_text, spec_encode_text};
use crate::db::{MetricsDb, WriteEffects};
use crate::metric::{
    metric_encodable, spec_decode_metric, spec_encode_metric, Metric,
};
use crate::serializable::BinarySerializable;
use crate::store::{encode_sample_vec, spec_encode_samples, spec_insert_series};
use crate::StoreError;

verus! {

/// A decoded request: the series name to read, or the sample to write.
#[derive(Debug)]
pub enum Request {
    Read(String),
    Write(Metric),
}

/// Decode one request buffer.  Exactly the requests the wire format
/// admits parse; anything else is rejected without touching the store:
/// an empty buffer or an unknown control byte as a protocol error, a
/// write whose record does not decode as a decode error, a read whose
/// name framing does not decode as a protocol error.
pub fn parse_request(data: &[u8]) -> (r: Result<Request, StoreError>)
    ensures
        data@.len() == 0 ==> r == Result::<Request, StoreError>::Err(StoreError::Protocol),
        data@.len() > 0 && data@[0] != 0 && data@[0] != 1 ==> r == Result::<
            Request,
            StoreError,
        >::Err(StoreError::Protocol),
        data@.len() > 0 && data@[0] == 0 ==> match spec_decode_text(data@, 1) {
            Some((nm, end)) => r matches Ok(req) && (req matches Request::Read(s) && s@ == nm),
            None => r == Result::<Request, StoreError>::Err(StoreError::Protocol),
        },
        data@.len() > 0 && data@[0] == 1 ==> match spec_decode_metric(data@, 1) {
            Some((mm, end)) => r matches Ok(req) && (req matches Request::Write(m) && m@ == mm),
            None => r == Result::<Request, StoreError>::Err(StoreError::Decode),
        },
{
    if data.len() == 0 {
        return Err(StoreError::Protocol);
    }
    let control = *slice_index_get(data, 0);
    if control == 0 {
        let mut off: usize = 1;
        match decode_text(data, &mut off) {
            Ok(name) => Ok(Request::Read(name)),
            Err(_) => Err(StoreError::Protocol),
        }
    } else if control == 1 {
        let mut off: usize = 1;
        match Metric::deserialize(data, &mut off) {
            Ok(metric) => Ok(Request::Write(metric)),
            Err(_) => Err(StoreError::Decode),
        }
    } else {
        Err(StoreError::Protocol)
    }
}

/// The bytes of a write request for `metric`: the write control byte,
/// then the record encoding.
pub fn build_write_request(metric: &Metric) -> (r: Vec<u8>)
    requires
        metric_encodable(metric@),
    ensures
        r@ == seq![1u8] + spec_encode_metric(metric@),
{
    let mut out: Vec<u8> = Vec::new();
    out.push(1u8);
    let mut body = metric.serialize();
    out.append(&mut body);
    proof {
        assert(out@ =~= seq![1u8] + spec_encode_metric(metric@));
    }
    out
}

/// The bytes of a read request for the series `name`: the read control
/// byte, then the length-prefixed name.
pub fn build_read_request(name: &str) -> (r: Vec<u8>)
    requires
        encode_utf8(name@).len() <= u32::MAX,
    ensures
        r@ == seq![0u8] + spec_encode_text(name@),
{
    let mut out: Vec<u8> = Vec::new();
    out.push(0u8);
    crate::codec::encode_text(&mut out, name);
    proof {
        assert(out@ =~= seq![0u8] + spec_encode_text(name@));
    }
    out
}

/// Serve a read request: bytes after the control byte name a series; the
/// response is status 0 plus the series's full encoding, or status 1
/// alone for an unknown series.  Malformed framing rejects the request.
pub fn handle_read(data: &[u8], db: &MetricsDb) -> (r: Result<Vec<u8>, StoreError>)
    requires
        db.wf(),
    ensures
        match spec_decode_text(data@, 1) {
            Some((nm, end)) => r matches Ok(resp) && resp@ == (
                if db.sm().contains_key(nm) {
                    seq![0u8] + spec_encode_samples(db.sm()[nm].samples)
                } else {
                    seq![1u8]
                }
            ),
            None => r == Result::<Vec<u8>, StoreError>::Err(StoreError::Protocol),
        },
{
    let mut off: usize = 1;
    let name = match decode_text(data, &mut off) {
        Ok(n) => n,
        Err(_) => {
            return Err(StoreError::Protocol);
        },
    };
    match db.query(name.as_str()) {
        Ok(samples) => {
            let mut resp: Vec<u8> = Vec::new();
            resp.push(0u8);
            let mut body = encode_sample_vec(samples);
            resp.append(&mut body);
            proof {
                assert(resp@ =~= seq![0u8] + spec_encode_samples(db.sm()[name@].samples));
            }
            Ok(resp)
        },
        Err(_) => {
            let mut resp: Vec<u8> = Vec::new();
            resp.push(1u8);
            proof {
                assert(resp@ =~= seq![1u8]);
            }
            Ok(resp)
        },
    }
}

/// Serve a write request: bytes after the control byte are one encoded
/// record; append it to the durability log, then insert it.  A record
/// that does not decode rejects the request and leaves the store as it
/// was.
pub fn handle_write(data: &[u8], db: &mut MetricsDb) -> (r: Result<WriteEffects, StoreError>)
    requires
        old(db).wf(),
        old(db).wal_state().writes() < u64::MAX,
    ensures
        final(db).wf(),
        final(db).flush_limit() == old(db).flush_limit(),
        match spec_decode_metric(data@, 1) {
            Some((mm, end)) => {
                &&& r is Ok
                &&& final(db).sm() == spec_insert_series(
                    old(db).sm(),
                    mm,
                    old(db).flush_limit(),
                ).0
                &&& final(db).wal_state().writes() == old(db).wal_state().writes() + 1
                &&& (r matches Ok(eff) ==> match eff.segment {
                    Some(sw) => spec_insert_series(old(db).sm(), mm, old(db).flush_limit()).1
                        == Some(sw@.bytes) && sw@.file_name == mm.name + ".metricdata"@,
                    None => spec_insert_series(old(db).sm(), mm, old(db).flush_limit()).1 is None,
                })
                &&& ((old(db).wal_state().writes() + 1) % (old(db).wal_state().interval() as int)
                    != 0 ==> final(db).wal_state().buffered() == old(db).wal_state().buffered()
                    + spec_encode_metric(mm))
            },
            None => r == Result::<WriteEffects, StoreError>::Err(StoreError::Decode) && *final(db)
                == *old(db),
        },
{
    let mut off: usize = 1;
    let metric = match Metric::deserialize(data, &mut off) {
        Ok(m) => m,
        Err(_) => {
            return Err(StoreError::Decode);
        },
    };
    Ok(db.record_write(metric))
}

/// What serving one connection produced: the response to send back (reads
/// only), and the file appends to perform (writes only).
#[derive(Debug)]
pub enum ClientOutcome {
    ReadResponse(Vec<u8>),
    WriteDone(WriteEffects),
}

/// Serve one connection's request buffer.  A buffer that is empty or
/// carries an unknown control byte is rejected with a protocol error and
/// leaves the store untouched: one bad connection harms no other.
pub fn handle_client(data: &[u8], db: &mut MetricsDb) -> (r: Result<ClientOutcome, StoreError>)
    requires
        old(db).wf(),
        old(db).wal_state().writes() < u64::MAX,
    ensures
        final(db).wf(),
        data@.len() == 0 || (data@[0] != 0 && data@[0] != 1) ==> r == Result::<
            ClientOutcome,
            StoreError,
        >::Err(StoreError::Protocol) && *final(db) == *old(db),
        data@.len() > 0 && data@[0] == 0 ==> *final(db) == *old(db) && match spec_decode_text(
            data@,
            1,
        ) {
            Some((nm, end)) => r matches Ok(out) && (out matches ClientOutcome::ReadResponse(resp)
                && resp@ == (
                if old(db).sm().contains_key(nm) {
                    seq![0u8] + spec_encode_samples(old(db).sm()[nm].samples)
                } else {
                    seq![1u8]
                }
            )),
            None => r == Result::<ClientOutcome, StoreError>::Err(StoreError::Protocol),
        },
        data@.len() > 0 && data@[0] == 1 ==> match spec_decode_metric(data@, 1) {
            Some((mm, end)) => r is Ok && final(db).sm() == spec_insert_series(
                old(db).sm(),
                mm,
                old(db).flush_limit(),
            ).0 && final(db).wal_state().writes() == old(db).wal_state().writes() + 1,
            None => r == Result::<ClientOutcome, StoreError>::Err(StoreError::Decode) && *final(db)
                == *old(db),
        },
{
    if data.len() == 0 {
        return Err(StoreError::Protocol);
    }
    let control = *slice_index_get(data, 0);
    if control == 0 {
        match handle_read(data, db) {
            Ok(resp) => Ok(ClientOutcome::ReadResponse(resp)),
            Err(e) => Err(e),
        }
    } else if control == 1 {
        match handle_write(data, db) {
            Ok(eff) => Ok(ClientOutcome::WriteDone(eff)),
            Err(e) => Err(e),
        }
    } else {
        Err(StoreError::Protocol)
    }
}

} // verus!
