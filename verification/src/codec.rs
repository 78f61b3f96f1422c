//! The binary snapshot format of the pending-release store: a record count,
//! then for each record its commit id and branch as length-prefixed UTF-8
//! and its release time as a little-endian 64-bit value. Loading falls back
//! to the empty store whenever the bytes do not parse.

use crate::data::{CommitLog, Data, LogModel};
use vstd::bytes::{
    lemma_auto_spec_u64_to_from_le_bytes, spec_u64_from_le_bytes, spec_u64_to_le_bytes,
    u64_from_le_bytes, u64_to_le_bytes,
};
use vstd::prelude::*;
use vstd::utf8::{decode_utf8, encode_utf8, valid_utf8};

verus! {

/// The two's-complement image of a signed release time, as stored on disk.
pub open spec fn i64_bits(x: int) -> u64
    recommends
        -0x8000_0000_0000_0000 <= x < 0x8000_0000_0000_0000,
{
    if x >= 0 {
        x as u64
    } else {
        (x + 0x1_0000_0000_0000_0000) as u64
    }
}

/// The signed release time a stored 64-bit image stands for.
pub open spec fn bits_i64(b: u64) -> int {
    if b < 0x8000_0000_0000_0000 {
        b as int
    } else {
        b - 0x1_0000_0000_0000_0000
    }
}

pub open spec fn encode_string(s: Seq<char>) -> Seq<u8> {
    spec_u64_to_le_bytes(encode_utf8(s).len() as u64) + encode_utf8(s)
}

pub open spec fn encode_log(l: LogModel) -> Seq<u8> {
    encode_string(l.commit_id) + encode_string(l.branch) + spec_u64_to_le_bytes(
        i64_bits(l.release_at),
    )
}

pub open spec fn encode_logs(logs: Seq<LogModel>) -> Seq<u8>
    decreases logs.len(),
{
    if logs.len() == 0 {
        Seq::empty()
    } else {
        encode_log(logs[0]) + encode_logs(logs.drop_first())
    }
}

pub open spec fn encode_snapshot_spec(logs: Seq<LogModel>) -> Seq<u8> {
    spec_u64_to_le_bytes(logs.len() as u64) + encode_logs(logs)
}

/// A release time fits the on-disk 64-bit image and the strings' UTF-8
/// fits a 64-bit length prefix. Every store built of executable values
/// satisfies this.
pub open spec fn log_encodable(l: LogModel) -> bool {
    &&& -0x8000_0000_0000_0000 <= l.release_at < 0x8000_0000_0000_0000
    &&& encode_utf8(l.commit_id).len() < 0x1_0000_0000_0000_0000
    &&& encode_utf8(l.branch).len() < 0x1_0000_0000_0000_0000
}

pub open spec fn snapshot_encodable(logs: Seq<LogModel>) -> bool {
    &&& logs.len() < 0x1_0000_0000_0000_0000
    &&& forall|i: int| 0 <= i < logs.len() ==> log_encodable(#[trigger] logs[i])
}

pub open spec fn parse_u64(b: Seq<u8>) -> Option<(u64, Seq<u8>)> {
    if b.len() < 8 {
        None
    } else {
        Some((spec_u64_from_le_bytes(b.take(8)), b.skip(8)))
    }
}

pub open spec fn parse_string(b: Seq<u8>) -> Option<(Seq<char>, Seq<u8>)> {
    match parse_u64(b) {
        None => None,
        Some((n, rest)) => if rest.len() < n {
            None
        } else {
            let field = rest.take(n as int);
            if valid_utf8(field) {
                Some((decode_utf8(field), rest.skip(n as int)))
            } else {
                None
            }
        },
    }
}

pub open spec fn parse_log(b: Seq<u8>) -> Option<(LogModel, Seq<u8>)> {
    match parse_string(b) {
        None => None,
        Some((cid, b1)) => match parse_string(b1) {
            None => None,
            Some((br, b2)) => match parse_u64(b2) {
                None => None,
                Some((bits, b3)) => Some(
                    (LogModel { commit_id: cid, branch: br, release_at: bits_i64(bits) }, b3),
                ),
            },
        },
    }
}

pub open spec fn parse_logs(b: Seq<u8>, n: nat) -> Option<(Seq<LogModel>, Seq<u8>)>
    decreases n,
{
    if n == 0 {
        Some((Seq::empty(), b))
    } else {
        match parse_log(b) {
            None => None,
            Some((l, rest)) => match parse_logs(rest, (n - 1) as nat) {
                None => None,
                Some((ls, r2)) => Some((seq![l] + ls, r2)),
            },
        }
    }
}

/// The store a snapshot holds, if the bytes parse. Bytes after the last
/// record are ignored, as a stream reader would leave them unread.
pub open spec fn parse_snapshot(b: Seq<u8>) -> Option<Seq<LogModel>> {
    match parse_u64(b) {
        None => None,
        Some((n, rest)) => match parse_logs(rest, n as nat) {
            None => None,
            Some((ls, r2)) => Some(ls),
        },
    }
}

/// What loading yields: the parsed store, or the empty store on any
/// malformed snapshot.
pub open spec fn load_spec(b: Seq<u8>) -> Seq<LogModel> {
    match parse_snapshot(b) {
        Some(ls) => ls,
        None => Seq::empty(),
    }
}

proof fn lemma_parse_u64_inverse(x: u64, rest: Seq<u8>)
    ensures
        parse_u64(spec_u64_to_le_bytes(x) + rest) == Some((x, rest)),
{
    lemma_auto_spec_u64_to_from_le_bytes();
    let b = spec_u64_to_le_bytes(x) + rest;
    assert(b.take(8) =~= spec_u64_to_le_bytes(x));
    assert(b.skip(8) =~= rest);
}

proof fn lemma_parse_string_inverse(s: Seq<char>, rest: Seq<u8>)
    requires
        encode_utf8(s).len() < 0x1_0000_0000_0000_0000,
    ensures
        parse_string(encode_string(s) + rest) == Some((s, rest)),
{
    broadcast use vstd::utf8::encode_utf8_valid_utf8, vstd::utf8::encode_utf8_decode_utf8;

    let eb = encode_utf8(s);
    let n = eb.len() as u64;
    assert(encode_string(s) + rest =~= spec_u64_to_le_bytes(n) + (eb + rest));
    lemma_parse_u64_inverse(n, eb + rest);
    assert((eb + rest).take(n as int) =~= eb);
    assert((eb + rest).skip(n as int) =~= rest);
}

proof fn lemma_parse_log_inverse(l: LogModel, rest: Seq<u8>)
    requires
        log_encodable(l),
    ensures
        parse_log(encode_log(l) + rest) == Some((l, rest)),
{
    let tb = spec_u64_to_le_bytes(i64_bits(l.release_at));
    assert(encode_log(l) + rest =~= encode_string(l.commit_id) + (encode_string(l.branch) + (tb
        + rest)));
    lemma_parse_string_inverse(l.commit_id, encode_string(l.branch) + (tb + rest));
    lemma_parse_string_inverse(l.branch, tb + rest);
    lemma_parse_u64_inverse(i64_bits(l.release_at), rest);
    assert(bits_i64(i64_bits(l.release_at)) == l.release_at);
}

proof fn lemma_parse_logs_inverse(logs: Seq<LogModel>, rest: Seq<u8>)
    requires
        forall|i: int| 0 <= i < logs.len() ==> log_encodable(#[trigger] logs[i]),
    ensures
        parse_logs(encode_logs(logs) + rest, logs.len() as nat) == Some((logs, rest)),
    decreases logs.len(),
{
    if logs.len() == 0 {
        assert(encode_logs(logs) + rest =~= rest);
        assert(logs =~= Seq::<LogModel>::empty());
    } else {
        let tail = logs.drop_first();
        assert(encode_logs(logs) + rest =~= encode_log(logs[0]) + (encode_logs(tail) + rest));
        lemma_parse_log_inverse(logs[0], encode_logs(tail) + rest);
        lemma_parse_logs_inverse(tail, rest);
        assert(seq![logs[0]] + tail =~= logs);
    }
}

/// Serializing a store and parsing the bytes back yields the same records,
/// in the same order, with the same fields.
pub proof fn lemma_snapshot_round_trip(logs: Seq<LogModel>)
    requires
        snapshot_encodable(logs),
    ensures
        parse_snapshot(encode_snapshot_spec(logs)) == Some(logs),
        load_spec(encode_snapshot_spec(logs)) == logs,
{
    let n = logs.len() as u64;
    lemma_parse_u64_inverse(n, encode_logs(logs));
    assert(encode_logs(logs) =~= encode_logs(logs) + Seq::<u8>::empty());
    lemma_parse_logs_inverse(logs, Seq::<u8>::empty());
}

/// Relies on String::from_utf8: returns the string holding exactly the
/// given bytes when they are valid UTF-8, and fails otherwise.
#[verifier::external_body]
fn bytes_to_string(v: Vec<u8>) -> (r: Option<String>)
    ensures
        r is Some <==> valid_utf8(v@),
        r matches Some(s) ==> s@ == decode_utf8(v@),
{
    String::from_utf8(v).ok()
}

fn i64_to_bits(x: i64) -> (r: u64)
    ensures
        r == i64_bits(x as int),
{
    if x >= 0 {
        x as u64
    } else {
        let v: i128 = (x as i128) + 0x1_0000_0000_0000_0000i128;
        v as u64
    }
}

fn bits_to_i64(b: u64) -> (r: i64)
    ensures
        r as int == bits_i64(b),
{
    if b < 0x8000_0000_0000_0000u64 {
        b as i64
    } else {
        let v: i128 = (b as i128) - 0x1_0000_0000_0000_0000i128;
        v as i64
    }
}

fn read_u64(b: &[u8], pos: usize) -> (r: Option<(u64, usize)>)
    requires
        pos <= b@.len(),
    ensures
        match r {
            Some(p) => {
                &&& pos <= p.1 <= b@.len()
                &&& parse_u64(b@.skip(pos as int)) == Some((p.0, b@.skip(p.1 as int)))
            },
            None => parse_u64(b@.skip(pos as int)) is None,
        },
{
    if b.len() - pos < 8 {
        return None;
    }
    let sl = vstd::slice::slice_subrange(b, pos, pos + 8);
    let x = u64_from_le_bytes(sl);
    proof {
        assert(b@.skip(pos as int).take(8) =~= b@.subrange(pos as int, pos + 8));
        assert(b@.skip(pos as int).skip(8) =~= b@.skip(pos + 8));
    }
    Some((x, pos + 8))
}

fn read_string(b: &[u8], pos: usize) -> (r: Option<(String, usize)>)
    requires
        pos <= b@.len(),
    ensures
        match r {
            Some(p) => {
                &&& pos <= p.1 <= b@.len()
                &&& parse_string(b@.skip(pos as int)) == Some((p.0@, b@.skip(p.1 as int)))
            },
            None => parse_string(b@.skip(pos as int)) is None,
        },
{
    match read_u64(b, pos) {
        None => None,
        Some((n, p1)) => {
            if ((b.len() - p1) as u64) < n {
                proof {
                    assert(b@.skip(p1 as int).len() == b@.len() - p1);
                }
                return None;
            }
            let n_us = n as usize;
            let sl = vstd::slice::slice_subrange(b, p1, p1 + n_us);
            let v = vstd::slice::slice_to_vec(sl);
            proof {
                assert(b@.skip(p1 as int).take(n as int) =~= b@.subrange(
                    p1 as int,
                    p1 + n as int,
                ));
                assert(b@.skip(p1 as int).skip(n as int) =~= b@.skip(p1 + n as int));
            }
            match bytes_to_string(v) {
                None => None,
                Some(s) => Some((s, p1 + n_us)),
            }
        },
    }
}

fn read_log(b: &[u8], pos: usize) -> (r: Option<(CommitLog, usize)>)
    requires
        pos <= b@.len(),
    ensures
        match r {
            Some(p) => {
                &&& pos <= p.1 <= b@.len()
                &&& parse_log(b@.skip(pos as int)) == Some((p.0@, b@.skip(p.1 as int)))
            },
            None => parse_log(b@.skip(pos as int)) is None,
        },
{
    match read_string(b, pos) {
        None => None,
        Some((cid, p1)) => match read_string(b, p1) {
            None => None,
            Some((br, p2)) => match read_u64(b, p2) {
                None => None,
                Some((bits, p3)) => {
                    let release_at = bits_to_i64(bits);
                    Some((CommitLog { commit_id: cid, branch: br, release_at }, p3))
                },
            },
        },
    }
}

spec fn prepend_parsed(acc: Seq<LogModel>, r: Option<(Seq<LogModel>, Seq<u8>)>) -> Option<
    (Seq<LogModel>, Seq<u8>),
> {
    match r {
        Some((tl, rest)) => Some((acc + tl, rest)),
        None => None,
    }
}

/// Serializes the store into snapshot bytes.
pub fn encode_snapshot(d: &Data) -> (out: Vec<u8>)
    ensures
        out@ == encode_snapshot_spec(d@),
{
    let n = d.len();
    let mut out = u64_to_le_bytes(n as u64);
    let mut i: usize = 0;
    proof {
        assert(d@.take(0) =~= Seq::<LogModel>::empty());
    }
    while i < n
        invariant
            n == d@.len(),
            i <= n,
            out@ == spec_u64_to_le_bytes(n as u64) + encode_logs(d@.take(i as int)),
        decreases n - i,
    {
        let log = d.get(i);
        let mut cid_bytes = log.commit_id.as_str().as_bytes_vec();
        let mut cid_len = u64_to_le_bytes(cid_bytes.len() as u64);
        let mut br_bytes = log.branch.as_str().as_bytes_vec();
        let mut br_len = u64_to_le_bytes(br_bytes.len() as u64);
        let mut ts = u64_to_le_bytes(i64_to_bits(log.release_at));
        out.append(&mut cid_len);
        out.append(&mut cid_bytes);
        out.append(&mut br_len);
        out.append(&mut br_bytes);
        out.append(&mut ts);
        proof {
            lemma_encode_logs_snoc(d@, i as int);
            assert(out@ =~= spec_u64_to_le_bytes(n as u64) + encode_logs(d@.take(i + 1)));
        }
        i = i + 1;
    }
    proof {
        assert(d@.take(n as int) =~= d@);
    }
    out
}

/// Parses snapshot bytes back into a store; any malformed snapshot yields
/// the empty store.
pub fn decode_snapshot(b: &[u8]) -> (d: Data)
    ensures
        d@ == load_spec(b@),
{
    proof {
        assert(b@.skip(0) =~= b@);
    }
    match read_u64(b, 0) {
        None => Data::new(),
        Some((n, start)) => {
            let ghost rest0 = b@.skip(start as int);
            let mut d = Data::new();
            let mut pos = start;
            let mut i: u64 = 0;
            proof {
                lemma_prepend_empty(parse_logs(rest0, n as nat));
            }
            while i < n
                invariant
                    b@.skip(0) == b@,
                    parse_u64(b@) == Some((n, rest0)),
                    pos <= b@.len(),
                    i <= n,
                    parse_logs(rest0, n as nat) == prepend_parsed(
                        d@,
                        parse_logs(b@.skip(pos as int), (n - i) as nat),
                    ),
                decreases n - i,
            {
                match read_log(b, pos) {
                    None => {
                        return Data::new();
                    },
                    Some((l, p2)) => {
                        proof {
                            lemma_prepend_step(
                                d@,
                                l@,
                                b@.skip(pos as int),
                                b@.skip(p2 as int),
                                (n - i) as nat,
                            );
                        }
                        d.add(l);
                        pos = p2;
                        i = i + 1;
                    },
                }
            }
            proof {
                assert(parse_logs(b@.skip(pos as int), 0) == Some(
                    (Seq::<LogModel>::empty(), b@.skip(pos as int)),
                ));
                assert(d@ + Seq::<LogModel>::empty() =~= d@);
            }
            d
        },
    }
}

proof fn lemma_prepend_empty(r: Option<(Seq<LogModel>, Seq<u8>)>)
    ensures
        prepend_parsed(Seq::empty(), r) == r,
{
    match r {
        Some((tl, rest)) => {
            assert(Seq::<LogModel>::empty() + tl =~= tl);
        },
        None => {},
    }
}

/// One successfully read record moves the parse frontier: prepending the
/// accumulated records commutes with consuming the first record of the
/// remaining count.
proof fn lemma_prepend_step(acc: Seq<LogModel>, l: LogModel, b: Seq<u8>, after: Seq<u8>, m: nat)
    requires
        m > 0,
        parse_log(b) == Some((l, after)),
    ensures
        prepend_parsed(acc, parse_logs(b, m)) == prepend_parsed(
            acc.push(l),
            parse_logs(after, (m - 1) as nat),
        ),
{
    match parse_logs(after, (m - 1) as nat) {
        Some((ls, r2)) => {
            assert(parse_logs(b, m) == Some((seq![l] + ls, r2)));
            assert(acc + (seq![l] + ls) =~= acc.push(l) + ls);
        },
        None => {
            assert(parse_logs(b, m) is None);
        },
    }
}

proof fn lemma_encode_logs_snoc(logs: Seq<LogModel>, i: int)
    requires
        0 <= i < logs.len(),
    ensures
        encode_logs(logs.take(i + 1)) =~= encode_logs(logs.take(i)) + encode_log(logs[i]),
    decreases i,
{
    if i == 0 {
        assert(logs.take(0) =~= Seq::<LogModel>::empty());
        assert(logs.take(1).drop_first() =~= Seq::<LogModel>::empty());
        assert(logs.take(1)[0] == logs[0]);
        assert(encode_logs(Seq::<LogModel>::empty()) =~= Seq::<u8>::empty());
        assert(encode_log(logs[0]) + Seq::<u8>::empty() =~= encode_log(logs[0]));
        assert(encode_logs(logs.take(1)) =~= encode_log(logs[0]));
        assert(Seq::<u8>::empty() + encode_log(logs[0]) =~= encode_log(logs[0]));
    } else {
        let rest = logs.drop_first();
        lemma_encode_logs_snoc(rest, i - 1);
        assert(logs.take(i + 1).drop_first() =~= rest.take(i));
        assert(logs.take(i).drop_first() =~= rest.take(i - 1));
        assert(logs.take(i + 1)[0] == logs[0]);
        assert(logs.take(i)[0] == logs[0]);
        assert(rest[i - 1] == logs[i]);
        assert(encode_log(logs[0]) + (encode_logs(rest.take(i - 1)) + encode_log(logs[i])) =~= (
        encode_log(logs[0]) + encode_logs(rest.take(i - 1))) + encode_log(logs[i]));
    }
}

} // verus!
