//! The command log codec: a self-delimiting, length-prefixed binary
//! encoding for commands and results, with a decoder that tells an
//! incomplete (truncated) record apart from a malformed one.
//!
//! Every record starts with a one-byte tag.  A string field is eight
//! little-endian length bytes followed by that many UTF-8 bytes, so a
//! reader always knows where a record ends and can resume cleanly
//! mid-stream.

use vstd::prelude::*;

use vstd::bytes::{
    lemma_auto_spec_u64_to_from_le_bytes, spec_u64_from_le_bytes, spec_u64_to_le_bytes,
    u64_from_le_bytes, u64_to_le_bytes,
};
use vstd::slice::{slice_subrange, slice_to_vec};
use vstd::string::StrSliceExecFns;
use vstd::utf8::{
    decode_utf8, encode_utf8, encode_utf8_decode_utf8, encode_utf8_valid_utf8, valid_utf8,
};

use crate::command::{CmdView, KvsCommand, KvsResult, ResView};
use crate::error::{ErrView, KvError};

verus! {

pub const TAG_SET: u8 = 1;

pub const TAG_REMOVE: u8 = 2;

pub const TAG_GET: u8 = 3;

pub const TAG_OK: u8 = 4;

pub const TAG_NONE: u8 = 5;

pub const TAG_SOME: u8 = 6;

pub const TAG_ERROR: u8 = 7;

pub const ERR_KEY_NOT_FOUND: u8 = 1;

pub const ERR_IO: u8 = 2;

pub const ERR_CORRUPT: u8 = 3;

pub const ERR_MISMATCH: u8 = 4;

// ---------------------------------------------------------------------------
// The encoding, as a mathematical function.
// ---------------------------------------------------------------------------
/// A string field: eight little-endian length bytes, then the UTF-8
/// bytes of the string.
pub open spec fn encode_str(s: Seq<char>) -> Seq<u8> {
    spec_u64_to_le_bytes(encode_utf8(s).len() as u64) + encode_utf8(s)
}

/// The length prefix is honest only when the UTF-8 byte length fits in
/// it; every string held by an executable `String` satisfies this.
pub open spec fn str_encodable(s: Seq<char>) -> bool {
    encode_utf8(s).len() <= u64::MAX
}

/// The on-disk and on-wire form of one command.
pub open spec fn encode_cmd(c: CmdView) -> Seq<u8> {
    match c {
        CmdView::Put(k, v) => seq![TAG_SET] + encode_str(k) + encode_str(v),
        CmdView::Remove(k) => seq![TAG_REMOVE] + encode_str(k),
        CmdView::Get(k) => seq![TAG_GET] + encode_str(k),
    }
}

pub open spec fn cmd_encodable(c: CmdView) -> bool {
    match c {
        CmdView::Put(k, v) => str_encodable(k) && str_encodable(v),
        CmdView::Remove(k) => str_encodable(k),
        CmdView::Get(k) => str_encodable(k),
    }
}

/// The on-wire form of one error payload.
pub open spec fn encode_err(e: ErrView) -> Seq<u8> {
    match e {
        ErrView::KeyNotFound => seq![ERR_KEY_NOT_FOUND],
        ErrView::IoError(m) => seq![ERR_IO] + encode_str(m),
        ErrView::CorruptLog(m) => seq![ERR_CORRUPT] + encode_str(m),
        ErrView::EngineMismatch => seq![ERR_MISMATCH],
    }
}

pub open spec fn err_encodable(e: ErrView) -> bool {
    match e {
        ErrView::IoError(m) => str_encodable(m),
        ErrView::CorruptLog(m) => str_encodable(m),
        _ => true,
    }
}

/// The on-wire form of one result.
pub open spec fn encode_res(r: ResView) -> Seq<u8> {
    match r {
        ResView::Done => seq![TAG_OK],
        ResView::Absent => seq![TAG_NONE],
        ResView::Value(v) => seq![TAG_SOME] + encode_str(v),
        ResView::Error(e) => seq![TAG_ERROR] + encode_err(e),
    }
}

pub open spec fn res_encodable(r: ResView) -> bool {
    match r {
        ResView::Value(v) => str_encodable(v),
        ResView::Error(e) => err_encodable(e),
        _ => true,
    }
}

// ---------------------------------------------------------------------------
// The decoder, as a mathematical function.  `Short` / `Incomplete` mean
// the input ended before the record did; `Bad` / `Malformed` mean the
// bytes can never be the start of a record, however they are extended.
// ---------------------------------------------------------------------------
pub ghost enum StrDec {
    Got(Seq<char>, int),
    Short,
    Bad,
}

/// Decode one string field from the front of `b`; on success the `int`
/// is the number of bytes consumed.
pub open spec fn dec_str(b: Seq<u8>) -> StrDec {
    if b.len() < 8 {
        StrDec::Short
    } else {
        let n = spec_u64_from_le_bytes(b.subrange(0, 8)) as int;
        if b.len() < 8 + n {
            StrDec::Short
        } else if valid_utf8(b.subrange(8, 8 + n)) {
            StrDec::Got(decode_utf8(b.subrange(8, 8 + n)), 8 + n)
        } else {
            StrDec::Bad
        }
    }
}

pub ghost enum CmdDec {
    Done(CmdView, int),
    Incomplete,
    Malformed,
}

/// Decode one command from the front of `b`.
pub open spec fn dec_cmd(b: Seq<u8>) -> CmdDec {
    if b.len() == 0 {
        CmdDec::Incomplete
    } else if b[0] == TAG_SET {
        match dec_str(b.skip(1)) {
            StrDec::Got(k, n1) => match dec_str(b.skip(1 + n1)) {
                StrDec::Got(v, n2) => CmdDec::Done(CmdView::Put(k, v), 1 + n1 + n2),
                StrDec::Short => CmdDec::Incomplete,
                StrDec::Bad => CmdDec::Malformed,
            },
            StrDec::Short => CmdDec::Incomplete,
            StrDec::Bad => CmdDec::Malformed,
        }
    } else if b[0] == TAG_REMOVE {
        match dec_str(b.skip(1)) {
            StrDec::Got(k, n1) => CmdDec::Done(CmdView::Remove(k), 1 + n1),
            StrDec::Short => CmdDec::Incomplete,
            StrDec::Bad => CmdDec::Malformed,
        }
    } else if b[0] == TAG_GET {
        match dec_str(b.skip(1)) {
            StrDec::Got(k, n1) => CmdDec::Done(CmdView::Get(k), 1 + n1),
            StrDec::Short => CmdDec::Incomplete,
            StrDec::Bad => CmdDec::Malformed,
        }
    } else {
        CmdDec::Malformed
    }
}

pub ghost enum ErrDec {
    Done(ErrView, int),
    Incomplete,
    Malformed,
}

/// Decode one error payload from the front of `b`.
pub open spec fn dec_err(b: Seq<u8>) -> ErrDec {
    if b.len() == 0 {
        ErrDec::Incomplete
    } else if b[0] == ERR_KEY_NOT_FOUND {
        ErrDec::Done(ErrView::KeyNotFound, 1)
    } else if b[0] == ERR_IO {
        match dec_str(b.skip(1)) {
            StrDec::Got(m, n1) => ErrDec::Done(ErrView::IoError(m), 1 + n1),
            StrDec::Short => ErrDec::Incomplete,
            StrDec::Bad => ErrDec::Malformed,
        }
    } else if b[0] == ERR_CORRUPT {
        match dec_str(b.skip(1)) {
            StrDec::Got(m, n1) => ErrDec::Done(ErrView::CorruptLog(m), 1 + n1),
            StrDec::Short => ErrDec::Incomplete,
            StrDec::Bad => ErrDec::Malformed,
        }
    } else if b[0] == ERR_MISMATCH {
        ErrDec::Done(ErrView::EngineMismatch, 1)
    } else {
        ErrDec::Malformed
    }
}

pub ghost enum ResDec {
    Done(ResView, int),
    Incomplete,
    Malformed,
}

/// Decode one result from the front of `b`.
pub open spec fn dec_res(b: Seq<u8>) -> ResDec {
    if b.len() == 0 {
        ResDec::Incomplete
    } else if b[0] == TAG_OK {
        ResDec::Done(ResView::Done, 1)
    } else if b[0] == TAG_NONE {
        ResDec::Done(ResView::Absent, 1)
    } else if b[0] == TAG_SOME {
        match dec_str(b.skip(1)) {
            StrDec::Got(v, n1) => ResDec::Done(ResView::Value(v), 1 + n1),
            StrDec::Short => ResDec::Incomplete,
            StrDec::Bad => ResDec::Malformed,
        }
    } else if b[0] == TAG_ERROR {
        match dec_err(b.skip(1)) {
            ErrDec::Done(e, n1) => ResDec::Done(ResView::Error(e), 1 + n1),
            ErrDec::Incomplete => ResDec::Incomplete,
            ErrDec::Malformed => ResDec::Malformed,
        }
    } else {
        ResDec::Malformed
    }
}

// ---------------------------------------------------------------------------
// Executable encoders.
// ---------------------------------------------------------------------------
/// Append one length-prefixed string field to `out`.
fn push_str_bytes(out: &mut Vec<u8>, s: &String)
    ensures
        final(out)@ == old(out)@ + encode_str(s@),
        str_encodable(s@),
{
    let bs = s.as_str().as_bytes_vec();
    let mut lenb = u64_to_le_bytes(bs.len() as u64);
    out.append(&mut lenb);
    let mut body = bs;
    out.append(&mut body);
    assert(out@ =~= old(out)@ + encode_str(s@));
}

/// Encode one command as one self-delimited record.
pub fn encode_command(c: &KvsCommand) -> (r: Vec<u8>)
    ensures
        r@ == encode_cmd(c@),
        cmd_encodable(c@),
{
    let mut out: Vec<u8> = Vec::new();
    match c {
        KvsCommand::Put(k, v) => {
            out.push(TAG_SET);
            push_str_bytes(&mut out, k);
            push_str_bytes(&mut out, v);
        },
        KvsCommand::Remove(k) => {
            out.push(TAG_REMOVE);
            push_str_bytes(&mut out, k);
        },
        KvsCommand::Get(k) => {
            out.push(TAG_GET);
            push_str_bytes(&mut out, k);
        },
    }
    assert(out@ =~= encode_cmd(c@));
    out
}

/// Encode one result as one self-delimited message.
pub fn encode_result(r: &KvsResult) -> (out: Vec<u8>)
    ensures
        out@ == encode_res(r@),
        res_encodable(r@),
{
    let mut out: Vec<u8> = Vec::new();
    match r {
        KvsResult::Done => {
            out.push(TAG_OK);
        },
        KvsResult::Absent => {
            out.push(TAG_NONE);
        },
        KvsResult::Value(v) => {
            out.push(TAG_SOME);
            push_str_bytes(&mut out, v);
        },
        KvsResult::Error(e) => {
            out.push(TAG_ERROR);
            match e {
                KvError::KeyNotFound => {
                    out.push(ERR_KEY_NOT_FOUND);
                },
                KvError::IoError(m) => {
                    out.push(ERR_IO);
                    push_str_bytes(&mut out, m);
                },
                KvError::CorruptLog(m) => {
                    out.push(ERR_CORRUPT);
                    push_str_bytes(&mut out, m);
                },
                KvError::EngineMismatch => {
                    out.push(ERR_MISMATCH);
                },
            }
        },
    }
    assert(out@ =~= encode_res(r@));
    out
}

// ---------------------------------------------------------------------------
// Executable decoders.  Each one returns exactly what the mathematical
// decoder says about the bytes from `start` on.
// ---------------------------------------------------------------------------
/// Relies on `String::from_utf8`: it succeeds exactly on valid UTF-8
/// input, and returns the decoding of that input.
#[verifier::external_body]
pub(crate) fn string_from_utf8(bytes: Vec<u8>) -> (r: Option<String>)
    ensures
        r is Some <==> valid_utf8(bytes@),
        r matches Some(s) ==> s@ == decode_utf8(bytes@),
{
    String::from_utf8(bytes).ok()
}

enum StrRead {
    Got(String, usize),
    Short,
    Bad,
}

/// Read one string field starting at byte `i`; `Got` carries the offset
/// just past the field.
fn read_str(buf: &Vec<u8>, i: usize) -> (r: StrRead)
    requires
        i <= buf@.len(),
    ensures
        match r {
            StrRead::Got(s, next) => {
                &&& dec_str(buf@.skip(i as int)) == StrDec::Got(s@, (next - i) as int)
                &&& i < next <= buf@.len()
            },
            StrRead::Short => dec_str(buf@.skip(i as int)) is Short,
            StrRead::Bad => dec_str(buf@.skip(i as int)) is Bad,
        },
{
    let ghost tail = buf@.skip(i as int);
    if buf.len() - i < 8 {
        return StrRead::Short;
    }
    let lb = slice_subrange(buf.as_slice(), i, i + 8);
    assert(lb@ =~= tail.subrange(0, 8));
    let n64 = u64_from_le_bytes(lb);
    let rem = buf.len() - i - 8;
    if n64 > rem as u64 {
        return StrRead::Short;
    }
    let n = n64 as usize;
    let sb = slice_to_vec(slice_subrange(buf.as_slice(), i + 8, i + 8 + n));
    assert(sb@ =~= tail.subrange(8, 8 + n as int));
    match string_from_utf8(sb) {
        Option::Some(s) => StrRead::Got(s, i + 8 + n),
        Option::None => StrRead::Bad,
    }
}

/// One step of command decoding: a command and the offset just past its
/// record, or the reason none was decoded.
pub enum Decoded {
    Done(KvsCommand, usize),
    Incomplete,
    Malformed,
}

/// Decode the command record starting at byte `start` of `buf`.
pub fn decode_command(buf: &Vec<u8>, start: usize) -> (r: Decoded)
    requires
        start <= buf@.len(),
    ensures
        match r {
            Decoded::Done(c, next) => {
                &&& dec_cmd(buf@.skip(start as int)) == CmdDec::Done(c@, (next - start) as int)
                &&& start < next <= buf@.len()
            },
            Decoded::Incomplete => dec_cmd(buf@.skip(start as int)) is Incomplete,
            Decoded::Malformed => dec_cmd(buf@.skip(start as int)) is Malformed,
        },
{
    let ghost tail = buf@.skip(start as int);
    if start == buf.len() {
        return Decoded::Incomplete;
    }
    let tag = buf[start];
    assert(tail[0] == tag);
    proof {
        assert(buf@.skip((start + 1) as int) =~= tail.skip(1));
    }
    if tag == TAG_SET {
        match read_str(buf, start + 1) {
            StrRead::Got(k, next1) => {
                proof {
                    assert(buf@.skip(next1 as int) =~= tail.skip(1 + (next1 - (start + 1))));
                }
                match read_str(buf, next1) {
                    StrRead::Got(v, next2) => Decoded::Done(KvsCommand::Put(k, v), next2),
                    StrRead::Short => Decoded::Incomplete,
                    StrRead::Bad => Decoded::Malformed,
                }
            },
            StrRead::Short => Decoded::Incomplete,
            StrRead::Bad => Decoded::Malformed,
        }
    } else if tag == TAG_REMOVE {
        match read_str(buf, start + 1) {
            StrRead::Got(k, next1) => Decoded::Done(KvsCommand::Remove(k), next1),
            StrRead::Short => Decoded::Incomplete,
            StrRead::Bad => Decoded::Malformed,
        }
    } else if tag == TAG_GET {
        match read_str(buf, start + 1) {
            StrRead::Got(k, next1) => Decoded::Done(KvsCommand::Get(k), next1),
            StrRead::Short => Decoded::Incomplete,
            StrRead::Bad => Decoded::Malformed,
        }
    } else {
        Decoded::Malformed
    }
}

/// One step of result decoding, for the client side of the wire.
pub enum DecodedRes {
    Done(KvsResult, usize),
    Incomplete,
    Malformed,
}

/// Decode the result message starting at byte `start` of `buf`.
pub fn decode_result(buf: &Vec<u8>, start: usize) -> (r: DecodedRes)
    requires
        start <= buf@.len(),
    ensures
        match r {
            DecodedRes::Done(v, next) => {
                &&& dec_res(buf@.skip(start as int)) == ResDec::Done(v@, (next - start) as int)
                &&& start < next <= buf@.len()
            },
            DecodedRes::Incomplete => dec_res(buf@.skip(start as int)) is Incomplete,
            DecodedRes::Malformed => dec_res(buf@.skip(start as int)) is Malformed,
        },
{
    let ghost tail = buf@.skip(start as int);
    if start == buf.len() {
        return DecodedRes::Incomplete;
    }
    let tag = buf[start];
    assert(tail[0] == tag);
    proof {
        assert(buf@.skip((start + 1) as int) =~= tail.skip(1));
    }
    if tag == TAG_OK {
        DecodedRes::Done(KvsResult::Done, start + 1)
    } else if tag == TAG_NONE {
        DecodedRes::Done(KvsResult::Absent, start + 1)
    } else if tag == TAG_SOME {
        match read_str(buf, start + 1) {
            StrRead::Got(v, next1) => DecodedRes::Done(KvsResult::Value(v), next1),
            StrRead::Short => DecodedRes::Incomplete,
            StrRead::Bad => DecodedRes::Malformed,
        }
    } else if tag == TAG_ERROR {
        let etail = start + 1;
        let ghost err_bytes = buf@.skip(etail as int);
        if etail == buf.len() {
            return DecodedRes::Incomplete;
        }
        let etag = buf[etail];
        assert(err_bytes[0] == etag);
        proof {
            assert(buf@.skip((etail + 1) as int) =~= err_bytes.skip(1));
        }
        if etag == ERR_KEY_NOT_FOUND {
            DecodedRes::Done(KvsResult::Error(KvError::KeyNotFound), etail + 1)
        } else if etag == ERR_IO {
            match read_str(buf, etail + 1) {
                StrRead::Got(m, next1) => DecodedRes::Done(
                    KvsResult::Error(KvError::IoError(m)),
                    next1,
                ),
                StrRead::Short => DecodedRes::Incomplete,
                StrRead::Bad => DecodedRes::Malformed,
            }
        } else if etag == ERR_CORRUPT {
            match read_str(buf, etail + 1) {
                StrRead::Got(m, next1) => DecodedRes::Done(
                    KvsResult::Error(KvError::CorruptLog(m)),
                    next1,
                ),
                StrRead::Short => DecodedRes::Incomplete,
                StrRead::Bad => DecodedRes::Malformed,
            }
        } else if etag == ERR_MISMATCH {
            DecodedRes::Done(KvsResult::Error(KvError::EngineMismatch), etail + 1)
        } else {
            DecodedRes::Malformed
        }
    } else {
        DecodedRes::Malformed
    }
}

// ---------------------------------------------------------------------------
// Round-trip and truncation laws of the codec.
// ---------------------------------------------------------------------------
/// Law: decoding a stream that starts with an encoded string field
/// reads back exactly that string and consumes exactly the field.
pub proof fn lemma_dec_str_encode(s: Seq<char>, rest: Seq<u8>)
    requires
        str_encodable(s),
    ensures
        dec_str(encode_str(s) + rest) == StrDec::Got(s, encode_str(s).len() as int),
{
    lemma_auto_spec_u64_to_from_le_bytes();
    let eb = encode_utf8(s);
    let b = encode_str(s) + rest;
    assert(b.subrange(0, 8) =~= spec_u64_to_le_bytes(eb.len() as u64));
    assert(spec_u64_from_le_bytes(b.subrange(0, 8)) == eb.len() as u64);
    assert(b.subrange(8, 8 + eb.len() as int) =~= eb);
    encode_utf8_valid_utf8(s);
    encode_utf8_decode_utf8(s);
}

/// Law: decoding a stream that starts with an encoded command yields
/// that command and consumes exactly its record, however the stream
/// continues.
pub proof fn lemma_dec_cmd_encode(c: CmdView, rest: Seq<u8>)
    requires
        cmd_encodable(c),
    ensures
        dec_cmd(encode_cmd(c) + rest) == CmdDec::Done(c, encode_cmd(c).len() as int),
{
    let b = encode_cmd(c) + rest;
    match c {
        CmdView::Put(k, v) => {
            assert(b[0] == TAG_SET);
            assert(b.skip(1) =~= encode_str(k) + (encode_str(v) + rest));
            lemma_dec_str_encode(k, encode_str(v) + rest);
            let n1 = encode_str(k).len() as int;
            assert(b.skip(1 + n1) =~= encode_str(v) + rest);
            lemma_dec_str_encode(v, rest);
        },
        CmdView::Remove(k) => {
            assert(b[0] == TAG_REMOVE);
            assert(b.skip(1) =~= encode_str(k) + rest);
            lemma_dec_str_encode(k, rest);
        },
        CmdView::Get(k) => {
            assert(b[0] == TAG_GET);
            assert(b.skip(1) =~= encode_str(k) + rest);
            lemma_dec_str_encode(k, rest);
        },
    }
}

/// Law: decoding a stream that starts with an encoded result yields
/// that result and consumes exactly its message.
pub proof fn lemma_dec_res_encode(r: ResView, rest: Seq<u8>)
    requires
        res_encodable(r),
    ensures
        dec_res(encode_res(r) + rest) == ResDec::Done(r, encode_res(r).len() as int),
{
    let b = encode_res(r) + rest;
    match r {
        ResView::Done => {
            assert(b[0] == TAG_OK);
        },
        ResView::Absent => {
            assert(b[0] == TAG_NONE);
        },
        ResView::Value(v) => {
            assert(b[0] == TAG_SOME);
            assert(b.skip(1) =~= encode_str(v) + rest);
            lemma_dec_str_encode(v, rest);
        },
        ResView::Error(e) => {
            assert(b[0] == TAG_ERROR);
            assert(b.skip(1) =~= encode_err(e) + rest);
            let eb = encode_err(e) + rest;
            match e {
                ErrView::KeyNotFound => {
                    assert(eb[0] == ERR_KEY_NOT_FOUND);
                },
                ErrView::EngineMismatch => {
                    assert(eb[0] == ERR_MISMATCH);
                },
                ErrView::IoError(m) => {
                    assert(eb[0] == ERR_IO);
                    assert(eb.skip(1) =~= encode_str(m) + rest);
                    lemma_dec_str_encode(m, rest);
                },
                ErrView::CorruptLog(m) => {
                    assert(eb[0] == ERR_CORRUPT);
                    assert(eb.skip(1) =~= encode_str(m) + rest);
                    lemma_dec_str_encode(m, rest);
                },
            }
        },
    }
}

/// Law: a strict prefix of an encoded string field is only ever short,
/// never malformed.
pub proof fn lemma_dec_str_prefix(s: Seq<char>, t: Seq<u8>)
    requires
        str_encodable(s),
        t.len() < encode_str(s).len(),
        t == encode_str(s).subrange(0, t.len() as int),
    ensures
        dec_str(t) is Short,
{
    if t.len() >= 8 {
        lemma_auto_spec_u64_to_from_le_bytes();
        let eb = encode_utf8(s);
        assert(t.subrange(0, 8) =~= spec_u64_to_le_bytes(eb.len() as u64));
        assert(spec_u64_from_le_bytes(t.subrange(0, 8)) == eb.len() as u64);
    }
}

/// Law: a strict prefix of an encoded command record is incomplete,
/// never malformed.  This is what lets replay tolerate a log whose
/// tail was cut off mid-record by a crash.
pub proof fn lemma_dec_cmd_prefix(c: CmdView, t: Seq<u8>)
    requires
        cmd_encodable(c),
        t.len() < encode_cmd(c).len(),
        t == encode_cmd(c).subrange(0, t.len() as int),
    ensures
        dec_cmd(t) is Incomplete,
{
    if t.len() > 0 {
        let e = encode_cmd(c);
        match c {
            CmdView::Put(k, v) => {
                assert(t[0] == e[0] && e[0] == TAG_SET);
                let t1 = t.skip(1);
                let e1 = encode_str(k);
                let e2 = encode_str(v);
                assert(e.skip(1) =~= e1 + e2);
                if t1.len() < e1.len() {
                    assert(t1 =~= e1.subrange(0, t1.len() as int));
                    lemma_dec_str_prefix(k, t1);
                } else {
                    let tail2 = t1.skip(e1.len() as int);
                    assert(t1 =~= e1 + tail2);
                    lemma_dec_str_encode(k, tail2);
                    assert(tail2.len() < e2.len());
                    assert(tail2 =~= e2.subrange(0, tail2.len() as int));
                    lemma_dec_str_prefix(v, tail2);
                    assert(t.skip(1 + e1.len() as int) =~= tail2);
                }
            },
            CmdView::Remove(k) => {
                assert(t[0] == e[0] && e[0] == TAG_REMOVE);
                let t1 = t.skip(1);
                assert(t1 =~= encode_str(k).subrange(0, t1.len() as int));
                lemma_dec_str_prefix(k, t1);
            },
            CmdView::Get(k) => {
                assert(t[0] == e[0] && e[0] == TAG_GET);
                let t1 = t.skip(1);
                assert(t1 =~= encode_str(k).subrange(0, t1.len() as int));
                lemma_dec_str_prefix(k, t1);
            },
        }
    }
}

// ---------------------------------------------------------------------------
// Streams of records: a log segment is the concatenation of encoded
// commands, and replay recovers every complete record in order.
// ---------------------------------------------------------------------------
/// The concatenated encoding of a sequence of commands: the record
/// contents of a log segment.
pub open spec fn encode_seq(cmds: Seq<CmdView>) -> Seq<u8>
    decreases cmds.len(),
{
    if cmds.len() == 0 {
        Seq::empty()
    } else {
        encode_cmd(cmds[0]) + encode_seq(cmds.drop_first())
    }
}

pub open spec fn seq_encodable(cmds: Seq<CmdView>) -> bool {
    forall|i: int| 0 <= i < cmds.len() ==> cmd_encodable(#[trigger] cmds[i])
}

/// The commands recovered from a byte stream: every complete record in
/// order, stopping silently at a truncated tail; nothing when some
/// record is malformed.
pub open spec fn spec_records(b: Seq<u8>) -> Option<Seq<CmdView>>
    decreases b.len(),
{
    match dec_cmd(b) {
        CmdDec::Done(c, n) => if 1 <= n <= b.len() {
            match spec_records(b.skip(n)) {
                Option::Some(rest) => Option::Some(seq![c] + rest),
                Option::None => Option::None,
            }
        } else {
            Option::None
        },
        CmdDec::Incomplete => Option::Some(Seq::empty()),
        CmdDec::Malformed => Option::None,
    }
}

/// A segment's records split at any record boundary.
pub proof fn lemma_encode_seq_split(cmds: Seq<CmdView>, j: int)
    requires
        0 <= j <= cmds.len(),
    ensures
        encode_seq(cmds) == encode_seq(cmds.take(j)) + encode_seq(cmds.skip(j)),
    decreases j,
{
    if j == 0 {
        assert(cmds.take(0) =~= Seq::empty());
        assert(cmds.skip(0) =~= cmds);
        assert(encode_seq(cmds.take(0)) + encode_seq(cmds.skip(0)) =~= encode_seq(cmds));
    } else {
        lemma_encode_seq_split(cmds.drop_first(), j - 1);
        assert(cmds.drop_first().take(j - 1) =~= cmds.take(j).drop_first());
        assert(cmds.drop_first().skip(j - 1) =~= cmds.skip(j));
        assert(cmds.take(j)[0] == cmds[0]);
        assert(encode_seq(cmds.take(j)) + encode_seq(cmds.skip(j)) =~= encode_seq(cmds));
    }
}

/// Appending one command to a segment appends exactly its record.
pub proof fn lemma_encode_seq_snoc(cmds: Seq<CmdView>, c: CmdView)
    ensures
        encode_seq(cmds.push(c)) == encode_seq(cmds) + encode_cmd(c),
{
    let all = cmds.push(c);
    lemma_encode_seq_split(all, cmds.len() as int);
    assert(all.take(cmds.len() as int) =~= cmds);
    assert(all.skip(cmds.len() as int) =~= seq![c]);
    assert(seq![c].drop_first() =~= Seq::<CmdView>::empty());
    assert(seq![c][0] == c);
    assert(encode_seq(seq![c]) == encode_cmd(c) + encode_seq(seq![c].drop_first()));
    assert(encode_seq(seq![c]) =~= encode_cmd(c));
    assert(encode_seq(cmds) + encode_seq(seq![c]) =~= encode_seq(cmds) + encode_cmd(c));
}

/// Every record takes at least nine bytes, so a segment bounds the
/// number of records it holds.
pub proof fn lemma_encode_seq_min_len(cmds: Seq<CmdView>)
    ensures
        encode_seq(cmds).len() >= 9 * cmds.len(),
    decreases cmds.len(),
{
    lemma_auto_spec_u64_to_from_le_bytes();
    if cmds.len() > 0 {
        lemma_encode_seq_min_len(cmds.drop_first());
        assert(encode_cmd(cmds[0]).len() >= 9);
    }
}

/// Law: replay of a stream that starts with whole records recovers
/// those records first, and then whatever the rest of the stream holds.
pub proof fn lemma_records_prepend(cmds: Seq<CmdView>, tail: Seq<u8>)
    requires
        seq_encodable(cmds),
    ensures
        spec_records(tail) is Some ==> spec_records(encode_seq(cmds) + tail) == Option::Some(
            cmds + spec_records(tail)->0,
        ),
        spec_records(tail) is None ==> spec_records(encode_seq(cmds) + tail) is None,
    decreases cmds.len(),
{
    if cmds.len() == 0 {
        assert(encode_seq(cmds) + tail =~= tail);
        if spec_records(tail) is Some {
            assert(cmds + spec_records(tail)->0 =~= spec_records(tail)->0);
        }
    } else {
        let c = cmds[0];
        let b = encode_seq(cmds) + tail;
        let rest_bytes = encode_seq(cmds.drop_first()) + tail;
        assert(b =~= encode_cmd(c) + rest_bytes);
        lemma_dec_cmd_encode(c, rest_bytes);
        let n = encode_cmd(c).len() as int;
        lemma_auto_spec_u64_to_from_le_bytes();
        assert(n >= 1);
        assert(b.skip(n) =~= rest_bytes);
        lemma_records_prepend(cmds.drop_first(), tail);
        if spec_records(tail) is Some {
            assert(seq![c] + (cmds.drop_first() + spec_records(tail)->0) =~= cmds + spec_records(
                tail,
            )->0);
        }
    }
}

/// Law: a whole segment replays to exactly the commands written to it.
pub proof fn lemma_records_full(cmds: Seq<CmdView>)
    requires
        seq_encodable(cmds),
    ensures
        spec_records(encode_seq(cmds)) == Option::Some(cmds),
{
    lemma_records_prepend(cmds, Seq::empty());
    assert(encode_seq(cmds) + Seq::<u8>::empty() =~= encode_seq(cmds));
    assert(cmds + Seq::<CmdView>::empty() =~= cmds);
}

/// Law: truncating a segment anywhere inside record `j` (or exactly at
/// its start) still replays cleanly, recovering precisely the first `j`
/// records.
pub proof fn lemma_records_truncated(cmds: Seq<CmdView>, j: int, t: int)
    requires
        seq_encodable(cmds),
        0 <= j <= cmds.len(),
        encode_seq(cmds.take(j)).len() <= t <= encode_seq(cmds).len(),
        j < cmds.len() ==> t < encode_seq(cmds.take(j + 1)).len(),
    ensures
        spec_records(encode_seq(cmds).take(t)) == Option::Some(cmds.take(j)),
{
    let b = encode_seq(cmds);
    let head = cmds.take(j);
    let done = encode_seq(head).len() as int;
    lemma_encode_seq_split(cmds, j);
    let partial = b.take(t).skip(done);
    assert(b.take(t) =~= encode_seq(head) + partial);
    if t == done {
        assert(partial =~= Seq::<u8>::empty());
        assert(spec_records(partial) == Option::Some(Seq::<CmdView>::empty()));
    } else {
        assert(j < cmds.len());
        lemma_encode_seq_split(cmds, j + 1);
        assert(cmds.take(j + 1) =~= cmds.take(j).push(cmds[j]));
        lemma_encode_seq_snoc(cmds.take(j), cmds[j]);
        let e = encode_cmd(cmds[j]);
        assert(partial.len() < e.len());
        assert(partial =~= e.subrange(0, partial.len() as int));
        lemma_dec_cmd_prefix(cmds[j], partial);
        assert(spec_records(partial) == Option::Some(Seq::<CmdView>::empty()));
    }
    lemma_records_prepend(head, partial);
    assert(head + Seq::<CmdView>::empty() =~= head);
}

} // verus!
