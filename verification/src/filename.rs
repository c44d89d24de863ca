//! Names for the files the engine writes.
//!
//! A durability-log file is named by splicing the creation time in
//! milliseconds between a fixed stem and extension, so that the names of
//! successive log files sort in creation order — the order recovery must
//! replay them in.  The surrounding process turns these byte strings into
//! paths and creates the files; segment-file names come from
//! [`crate::store::segment_file_name`].

use vstd::prelude::*;
use vstd::multiset::Multiset;
use vstd::string::StringSliceAdditionalSpecFns;

verus! {

/// One kibibyte; log files are pre-sized to a few of these.
pub const KIB: u64 = 1024;

/// The decimal digits of `n`, as ASCII bytes without leading zeros.
pub open spec fn spec_decimal(n: nat) -> Seq<u8>
    decreases n,
{
    if n < 10 {
        seq![(48 + n) as u8]
    } else {
        spec_decimal(n / 10).push((48 + n % 10) as u8)
    }
}

/// Render `n` in decimal.
pub fn decimal_digits(n: u64) -> (r: Vec<u8>)
    ensures
        r@ == spec_decimal(n as nat),
    decreases n,
{
    if n < 10 {
        let mut v: Vec<u8> = Vec::new();
        v.push(48u8 + n as u8);
        proof {
            assert(v@ =~= spec_decimal(n as nat));
        }
        v
    } else {
        let mut v = decimal_digits(n / 10);
        v.push(48u8 + (n % 10) as u8);
        proof {
            assert(v@ =~= spec_decimal(n as nat));
        }
        v
    }
}

/// The name `<stem>_<timestamp><ext>`, as bytes.
pub fn timed_file_name(stem: &str, ext: &str, timestamp: u64) -> (r: Vec<u8>)
    ensures
        r@ == stem.spec_bytes() + seq![95u8] + spec_decimal(timestamp as nat) + ext.spec_bytes(),
{
    let mut out: Vec<u8> = Vec::new();
    out.extend_from_slice(stem.as_bytes());
    out.push(95u8);
    let mut digits = decimal_digits(timestamp);
    out.append(&mut digits);
    out.extend_from_slice(ext.as_bytes());
    proof {
        assert(out@ =~= stem.spec_bytes() + seq![95u8] + spec_decimal(timestamp as nat)
            + ext.spec_bytes());
    }
    out
}

/// The name of the durability-log file created at `timestamp_ms`
/// milliseconds since the epoch, under the fixed log directory.
pub fn wal_file_name(timestamp_ms: u64) -> (r: Vec<u8>)
    ensures
        r@ == "wals/wal".spec_bytes() + seq![95u8] + spec_decimal(timestamp_ms as nat)
            + ".bin".spec_bytes(),
{
    timed_file_name("wals/wal", ".bin", timestamp_ms)
}

} // verus!

// Recovery must replay log files in creation order, and creation order is
// name order because the names embed the creation time.  The sort below
// puts the listed names in that order.
verus! {

/// Lexicographic byte order: the order `sort_names` establishes.
pub open spec fn lex_le(a: Seq<u8>, b: Seq<u8>) -> bool
    decreases a.len(),
{
    if a.len() == 0 {
        true
    } else if b.len() == 0 {
        false
    } else if a[0] < b[0] {
        true
    } else if a[0] > b[0] {
        false
    } else {
        lex_le(a.drop_first(), b.drop_first())
    }
}

/// Any two byte strings are ordered.
pub proof fn lemma_lex_total(a: Seq<u8>, b: Seq<u8>)
    ensures
        lex_le(a, b) || lex_le(b, a),
    decreases a.len(),
{
    if a.len() > 0 && b.len() > 0 && a[0] == b[0] {
        lemma_lex_total(a.drop_first(), b.drop_first());
    }
}

/// The order is transitive.
pub proof fn lemma_lex_trans(a: Seq<u8>, b: Seq<u8>, c: Seq<u8>)
    requires
        lex_le(a, b),
        lex_le(b, c),
    ensures
        lex_le(a, c),
    decreases a.len(),
{
    if a.len() > 0 {
        if a[0] == b[0] && b[0] == c[0] {
            lemma_lex_trans(a.drop_first(), b.drop_first(), c.drop_first());
        }
    }
}

/// Compare two names in lexicographic byte order.
fn lex_le_bytes(a: &Vec<u8>, b: &Vec<u8>) -> (r: bool)
    ensures
        r == lex_le(a@, b@),
{
    proof {
        assert(a@.skip(0) =~= a@);
        assert(b@.skip(0) =~= b@);
    }
    let mut i: usize = 0;
    while i < a.len() && i < b.len()
        invariant
            i <= a@.len(),
            i <= b@.len(),
            lex_le(a@, b@) == lex_le(a@.skip(i as int), b@.skip(i as int)),
        decreases a@.len() - i,
    {
        let x = a[i];
        let y = b[i];
        proof {
            assert(a@.skip(i as int)[0] == x);
            assert(b@.skip(i as int)[0] == y);
            assert(a@.skip(i as int).drop_first() =~= a@.skip(i as int + 1));
            assert(b@.skip(i as int).drop_first() =~= b@.skip(i as int + 1));
        }
        if x < y {
            return true;
        }
        if x > y {
            return false;
        }
        i = i + 1;
    }
    proof {
        if i == a.len() {
            assert(a@.skip(i as int).len() == 0);
        } else {
            assert(b@.skip(i as int).len() == 0);
            assert(a@.skip(i as int).len() > 0);
        }
    }
    a.len() <= b.len()
}

/// The views of a list of names.
pub open spec fn name_views(s: Seq<Vec<u8>>) -> Seq<Seq<u8>> {
    s.map_values(|v: Vec<u8>| v@)
}

proof fn lemma_insert_to_multiset(s: Seq<Seq<u8>>, i: int, v: Seq<u8>)
    requires
        0 <= i <= s.len(),
    ensures
        s.insert(i, v).to_multiset() =~= s.to_multiset().insert(v),
{
    broadcast use vstd::seq_lib::group_to_multiset_ensures;

    let t = s.insert(i, v);
    t.to_multiset_ensures();
    s.to_multiset_ensures();
    assert(t.remove(i) =~= s);
    assert(t[i] == v);
    assert(t.remove(i).to_multiset() =~= t.to_multiset().remove(v));
    assert(t.contains(v));
    assert(t.to_multiset().count(v) > 0);
    assert(t.to_multiset() =~= t.to_multiset().remove(v).insert(v));
}

/// Sort names into lexicographic byte order: the result is ordered and
/// holds exactly the given names, multiplicity included.
pub fn sort_names(names: Vec<Vec<u8>>) -> (r: Vec<Vec<u8>>)
    ensures
        forall|i: int, j: int|
            0 <= i <= j < r@.len() ==> lex_le(#[trigger] r@[i]@, #[trigger] r@[j]@),
        name_views(r@).to_multiset() == name_views(names@).to_multiset(),
{
    broadcast use vstd::seq_lib::group_to_multiset_ensures;

    let mut rest = names;
    let mut out: Vec<Vec<u8>> = Vec::new();
    proof {
        assert(name_views(out@).to_multiset() =~= Multiset::<Seq<u8>>::empty());
    }
    while rest.len() > 0
        invariant
            forall|i: int, j: int|
                0 <= i <= j < out@.len() ==> lex_le(#[trigger] out@[i]@, #[trigger] out@[j]@),
            name_views(out@).to_multiset().add(name_views(rest@).to_multiset()) == name_views(
                names@,
            ).to_multiset(),
        decreases rest@.len(),
    {
        let ghost rest0 = rest@;
        let v = rest.remove(0);
        proof {
            name_views(rest0).to_multiset_ensures();
            assert(name_views(rest0)[0] == v@);
            assert(name_views(rest0).len() > 0);
            assert(name_views(rest0).contains(v@));
            assert(name_views(rest0).to_multiset().count(v@) > 0);
            assert(name_views(rest@) =~= name_views(rest0).remove(0));
            assert(name_views(rest0).remove(0).to_multiset() =~= name_views(
                rest0,
            ).to_multiset().remove(v@));
        }
        let mut pos: usize = 0;
        while pos < out.len() && !lex_le_bytes(&v, &out[pos])
            invariant
                pos <= out@.len(),
                forall|k: int| 0 <= k < pos ==> lex_le(#[trigger] out@[k]@, v@),
            decreases out@.len() - pos,
        {
            proof {
                lemma_lex_total(v@, out@[pos as int]@);
            }
            pos = pos + 1;
        }
        let ghost out0 = out@;
        out.insert(pos, v);
        proof {
            assert(out@ =~= out0.insert(pos as int, v));
            assert forall|i: int, j: int|
                0 <= i <= j < out@.len() implies lex_le(#[trigger] out@[i]@, #[trigger] out@[j]@) by {
                let p = pos as int;
                if i < p && j == p {
                    assert(lex_le(out0[i]@, v@));
                } else if i == p && j > p {
                    assert(lex_le(v@, out0[p]@));
                    assert(lex_le(out0[p]@, out0[j - 1]@));
                    lemma_lex_trans(v@, out0[p]@, out0[j - 1]@);
                } else if i < p && j > p {
                    assert(lex_le(out0[i]@, out0[j - 1]@));
                } else if i > p && j > p {
                    assert(lex_le(out0[i - 1]@, out0[j - 1]@));
                } else if i == j {
                    lemma_lex_total(out@[i]@, out@[i]@);
                }
            }
            assert(name_views(out@) =~= name_views(out0).insert(pos as int, v@));
            lemma_insert_to_multiset(name_views(out0), pos as int, v@);
            assert(name_views(out@).to_multiset().add(name_views(rest@).to_multiset())
                =~= name_views(names@).to_multiset());
        }
    }
    proof {
        assert(name_views(rest@).to_multiset() =~= Multiset::<Seq<u8>>::empty());
        assert(name_views(out@).to_multiset().add(Multiset::<Seq<u8>>::empty()) =~= name_views(
            out@,
        ).to_multiset());
    }
    out
}

} // verus!
