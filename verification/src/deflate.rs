//! Raw deflate, all at once or a piece at a time.

use crate::inflate;
use flate2::Compress;
use flate2::Compression;
use flate2::FlushCompress;
use flate2::Status;
use flate2::write::DeflateEncoder;
use std::io::Write;
use vstd::prelude::*;

verus! {

/// `flate2::Compress`, a streaming deflater.
#[verifier::external_type_specification]
#[verifier::external_body]
pub struct ExCompress(flate2::Compress);

/// The bytes that a deflater has consumed.
pub uninterp spec fn deflater_read(c: Compress) -> Seq<u8>;

/// The bytes that a deflater has produced.
pub uninterp spec fn deflater_written(c: Compress) -> Seq<u8>;

/// The bytes that a deflater would still produce if it were to finish now. There are none
/// once it has finished.
pub uninterp spec fn deflater_pending(c: Compress) -> Seq<u8>;

/// The compression level that a deflater for raw deflate data was made with; none for one of
/// another format.
pub uninterp spec fn deflater_level(c: Compress) -> Option<u32>;

/// What a deflater's stream is if it finishes now.
pub open spec fn deflater_stream(c: Compress) -> Seq<u8> {
    deflater_written(c) + deflater_pending(c)
}

/// Whether the last call of a deflater that had room for output was an error. The deflater
/// keeps that status.
pub uninterp spec fn deflater_failed(c: Compress) -> bool;

/// One call of a deflater: the input, how much room there is for output, and whether it is
/// to finish.
pub struct DeflateCall {
    pub input: Seq<u8>,
    pub room: nat,
    pub finish: bool,
}

/// What a deflater is: the bytes that it has consumed, those that it has produced, those
/// that it would still produce if it were to finish now, and whether it has failed.
#[verifier::ext_equal]
pub struct DeflaterView {
    pub read: Seq<u8>,
    pub written: Seq<u8>,
    pub pending: Seq<u8>,
    pub failed: bool,
}

/// The calls of a deflater since it was made.
pub uninterp spec fn deflater_calls(c: Compress) -> Seq<DeflateCall>;

/// What a deflater for raw deflate data that was made with a level is after some calls.
pub uninterp spec fn deflater_after(level: u32, calls: Seq<DeflateCall>) -> DeflaterView;

/// What a deflater is.
pub open spec fn deflater_state(c: Compress) -> DeflaterView {
    DeflaterView {
        read: deflater_read(c),
        written: deflater_written(c),
        pending: deflater_pending(c),
        failed: deflater_failed(c),
    }
}

/// A deflater for raw deflate data that is what its level and its calls made it.
pub open spec fn deflater_ok(c: Compress) -> bool {
    &&& deflater_level(c) is Some
    &&& deflater_state(c) == deflater_after(deflater_level(c)->0, deflater_calls(c))
}

/// The deflater has failed after some calls.
pub open spec fn failing(level: u32, calls: Seq<DeflateCall>) -> bool {
    deflater_after(level, calls).failed
}

/// The calls of a deflater once it has been handed all of `bytes`: each hands it what is
/// left, until nothing is, or until it fails.
pub open spec fn fed(level: u32, calls: Seq<DeflateCall>, bytes: Seq<u8>, room: nat) -> Seq<
    DeflateCall,
>
    decreases bytes.len(), deflater_after(level, calls).pending.len(),
{
    let before = deflater_after(level, calls);
    let next = calls.push(DeflateCall { input: bytes, room, finish: false });
    let now = deflater_after(level, next);
    let taken = now.read.len() - before.read.len();
    if now.failed || taken >= bytes.len() {
        next
    } else if taken > 0 {
        fed(level, next, bytes.skip(taken), room)
    } else if now.pending.len() < before.pending.len() {
        fed(level, next, bytes, room)
    } else {
        next
    }
}

/// The calls of a deflater once it has been told to finish until it has, or until it fails.
pub open spec fn ended(level: u32, calls: Seq<DeflateCall>, room: nat) -> Seq<DeflateCall>
    decreases deflater_after(level, calls).pending.len(),
{
    let before = deflater_after(level, calls);
    let next = calls.push(DeflateCall { input: Seq::empty(), room, finish: true });
    let now = deflater_after(level, next);
    if !now.failed && 0 < now.pending.len() < before.pending.len() {
        ended(level, next, room)
    } else {
        next
    }
}

/// The raw deflate data that all of some data is encoded to at a level; nothing where that
/// is an error.
pub uninterp spec fn deflation(data: Seq<u8>, level: u32) -> Option<Seq<u8>>;

/// Some data in raw deflate data, where it can be encoded.
pub open spec fn deflated(data: Seq<u8>, level: u32) -> Seq<u8> {
    deflation(data, level)->0
}

/// `Compress::new` for raw deflate data: nothing consumed, nothing produced, not finished
/// and not failed. What the deflater is depends on the level alone.
#[verifier::external_body]
pub(crate) fn new_deflater(level: u32) -> (r: Compress)
    requires
        level <= 9,
    ensures
        deflater_read(r) == Seq::<u8>::empty(),
        deflater_written(r) == Seq::<u8>::empty(),
        deflater_pending(r).len() > 0,
        deflater_level(r) == Some(level),
        !deflater_failed(r),
        deflater_calls(r) == Seq::<DeflateCall>::empty(),
        deflater_state(r) == deflater_after(level, Seq::empty()),
{
    Compress::new(Compression::new(level), false)
}

/// `Compress::total_in`: how many bytes were consumed. The count is kept in 64 bits.
pub assume_specification[ Compress::total_in ](c: &Compress) -> (r: u64)
    ensures
        r == deflater_read(*c).len(),
;

/// `Compress::total_out`: how many bytes were produced. The count is kept in 64 bits.
pub assume_specification[ Compress::total_out ](c: &Compress) -> (r: u64)
    ensures
        r == deflater_written(*c).len(),
;

/// How one deflate step ended.
pub enum DeflateStep {
    More,
    StreamEnd,
    Failed,
}

/// `Compress::compress`, with `FlushCompress::Finish` where `finish` is set: consumes some
/// of `input` and puts what it produces at the front of `output`.
///
/// It stops short of the input, or of the end, only for want of room. A step that takes
/// no input only hands out what was pending. Without `finish` the stream stays open; it
/// ends once nothing is pending. The stream, if it were to finish, decodes to what was
/// consumed. With room for output, an error is what the deflater's status then says, and a
/// step that was to finish but did not end the stream leaves something pending. What the
/// deflater is afterwards depends on its level and on its calls alone.
#[verifier::external_body]
pub(crate) fn deflate_step(
    c: &mut Compress,
    input: &[u8],
    output: &mut Vec<u8>,
    finish: bool,
) -> (r: DeflateStep)
    requires
        deflater_level(*old(c)) is Some,
    ensures
        final(output)@.len() == old(output)@.len(),
        deflater_level(*final(c)) == deflater_level(*old(c)),
        inflate::taken(deflater_read(*old(c)), deflater_read(*final(c)), input@),
        inflate::taken(deflater_written(*old(c)), deflater_written(*final(c)), final(output)@),
        r !is Failed && !finish && deflater_pending(*old(c)).len() > 0 ==> deflater_pending(
            *final(c),
        ).len() > 0,
        r !is Failed && !finish && deflater_pending(*old(c)).len() > 0 ==> deflater_read(*final(c))
            == deflater_read(*old(c)) + input@ || deflater_written(*final(c)).len()
            == deflater_written(*old(c)).len() + old(output)@.len(),
        r !is Failed && deflater_read(*final(c)) == deflater_read(*old(c)) ==> deflater_stream(
            *final(c),
        ) == deflater_stream(*old(c)),
        r is More && finish ==> deflater_written(*final(c)).len() == deflater_written(
            *old(c),
        ).len() + old(output)@.len(),
        r is StreamEnd ==> deflater_pending(*final(c)).len() == 0,
        r !is Failed ==> inflate::inflation(deflater_stream(*final(c))) == (
            deflater_read(*final(c)),
            false,
        ),
        old(output)@.len() > 0 ==> (r is Failed <==> deflater_failed(*final(c))),
        old(output)@.len() > 0 && finish && r is More ==> deflater_pending(*final(c)).len() > 0,
        deflater_calls(*final(c)) == deflater_calls(*old(c)).push(
            DeflateCall { input: input@, room: old(output)@.len(), finish },
        ),
        deflater_state(*final(c)) == deflater_after(
            deflater_level(*old(c))->0,
            deflater_calls(*final(c)),
        ),
{
    let flush = if finish {
        FlushCompress::Finish
    } else {
        FlushCompress::None
    };
    match c.compress(input, output, flush) {
        Ok(Status::StreamEnd) => DeflateStep::StreamEnd,
        Ok(Status::Ok) => DeflateStep::More,
        Ok(Status::BufError) => DeflateStep::More,
        Err(_) => DeflateStep::Failed,
    }
}

/// `write::DeflateEncoder` around a byte vector: writes all of `data` and finishes. Whether
/// that succeeds, and what comes out, depends on the data and the level alone; what comes
/// out decodes to the data.
#[verifier::external_body]
pub(crate) fn deflate_all(data: &[u8], level: u32) -> (r: Option<Vec<u8>>)
    requires
        level <= 9,
    ensures
        (match r {
            Some(v) => Some(v@),
            None => None,
        }) == deflation(data@, level),
        r is Some ==> inflate::inflation(r->0@) == (data@, false),
{
    let mut encoder = DeflateEncoder::new(Vec::new(), Compression::new(level));
    encoder.write_all(data).ok()?;
    encoder.finish().ok()
}

/// A step appended what it produced to `out`.
proof fn lemma_appended(
    out0: Seq<u8>,
    w0: Seq<u8>,
    w1: Seq<u8>,
    w2: Seq<u8>,
    buf: Seq<u8>,
    fresh: Seq<u8>,
)
    requires
        w0.is_prefix_of(w1),
        inflate::taken(w1, w2, buf),
        fresh == buf.take(w2.len() - w1.len()),
    ensures
        w0.is_prefix_of(w2),
        out0 + w1.skip(w0.len() as int) + fresh == out0 + w2.skip(w0.len() as int),
{
    assert(w2.skip(w0.len() as int) =~= w1.skip(w0.len() as int) + fresh);
    assert(out0 + w1.skip(w0.len() as int) + fresh =~= out0 + (w1.skip(w0.len() as int) + fresh));
    assert(w0 =~= w2.take(w0.len() as int)) by {
        assert(w0 =~= w1.take(w0.len() as int));
    }
}

/// Deflates `bytes` onto `out`; false exactly where the deflater failed, with what it had
/// produced until then in `out`.
pub(crate) fn deflate_onto(
    c: &mut Compress,
    scratch: &mut Vec<u8>,
    bytes: &[u8],
    out: &mut Vec<u8>,
) -> (ok: bool)
    requires
        deflater_ok(*old(c)),
        deflater_pending(*old(c)).len() > 0,
        old(scratch)@.len() > 0,
    ensures
        deflater_ok(*final(c)),
        deflater_calls(*final(c)) == fed(
            deflater_level(*old(c))->0,
            deflater_calls(*old(c)),
            bytes@,
            old(scratch)@.len(),
        ),
        final(scratch)@.len() == old(scratch)@.len(),
        deflater_level(*final(c)) == deflater_level(*old(c)),
        deflater_written(*old(c)).is_prefix_of(deflater_written(*final(c))),
        final(out)@ == old(out)@ + deflater_written(*final(c)).skip(
            deflater_written(*old(c)).len() as int,
        ),
        ok == !deflater_failed(*final(c)),
        inflate::taken(deflater_read(*old(c)), deflater_read(*final(c)), bytes@),
        ok ==> deflater_read(*final(c)) == deflater_read(*old(c)) + bytes@,
        ok ==> deflater_pending(*final(c)).len() > 0,
        ok ==> inflate::inflation(deflater_stream(*final(c))) == (deflater_read(*final(c)), false),
{
    let n: usize = bytes.len();
    let mut at: usize = 0;
    let ghost level = deflater_level(*c)->0;
    let ghost w0 = deflater_written(*c);
    let ghost r0 = deflater_read(*c);
    proof {
        assert(w0.skip(w0.len() as int) =~= Seq::<u8>::empty());
        assert(out@ + Seq::<u8>::empty() =~= out@);
        assert(r0 + bytes@.take(0) =~= r0);
        assert(bytes@.skip(0) =~= bytes@);
    }
    loop
        invariant
            at <= n == bytes@.len(),
            scratch@.len() == old(scratch)@.len(),
            scratch@.len() > 0,
            deflater_ok(*c),
            deflater_level(*c) == deflater_level(*old(c)),
            fed(level, deflater_calls(*old(c)), bytes@, scratch@.len()) == fed(
                level,
                deflater_calls(*c),
                bytes@.skip(at as int),
                scratch@.len(),
            ),
            level == deflater_level(*old(c))->0,
            w0 == deflater_written(*old(c)),
            r0 == deflater_read(*old(c)),
            w0.is_prefix_of(deflater_written(*c)),
            out@ == old(out)@ + deflater_written(*c).skip(w0.len() as int),
            deflater_read(*c) == r0 + bytes@.take(at as int),
            deflater_pending(*c).len() > 0,
        decreases n - at, deflater_pending(*c).len(),
    {
        let ghost w1 = deflater_written(*c);
        let ghost r1 = deflater_read(*c);
        let ghost pending = deflater_pending(*c);
        let in_before: u64 = c.total_in();
        let out_before: u64 = c.total_out();
        let piece = vstd::slice::slice_subrange(bytes, at, n);
        assert(piece@ =~= bytes@.skip(at as int));
        let room: usize = scratch.len();
        let status = deflate_step(c, piece, scratch, false);
        assert(deflater_written(*c).len() - w1.len() <= room);
        let consumed: usize = (c.total_in() - in_before) as usize;
        let produced: usize = (c.total_out() - out_before) as usize;
        let fresh = vstd::slice::slice_subrange(scratch.as_slice(), 0, produced);
        proof {
            assert(fresh@ =~= scratch@.take(produced as int));
            lemma_appended(old(out)@, w0, w1, deflater_written(*c), scratch@, fresh@);
        }
        out.extend_from_slice(fresh);
        assert(out@ =~= old(out)@ + deflater_written(*c).skip(w0.len() as int));
        proof {
            assert(bytes@.take(at as int) + piece@.take(consumed as int) =~= bytes@.take(
                at + consumed,
            ));
            assert(deflater_read(*c) =~= r0 + bytes@.take(at + consumed));
        }
        if let DeflateStep::Failed = status {
            return false;
        }
        proof {
            if consumed == 0 {
                assert(deflater_read(*c) =~= r1);
                assert(deflater_stream(*c).len() == w1.len() + pending.len());
            }
            assert(piece@.skip(consumed as int) =~= bytes@.skip(at + consumed));
        }
        at = at + consumed;
        if at >= n {
            assert(bytes@.take(at as int) =~= bytes@);
            return true;
        }
    }
}

/// Finishes the stream onto `out`; false exactly where the deflater failed, with what it had
/// produced until then in `out`.
pub(crate) fn finish_onto(c: &mut Compress, scratch: &mut Vec<u8>, out: &mut Vec<u8>) -> (ok: bool)
    requires
        deflater_ok(*old(c)),
        old(scratch)@.len() > 0,
    ensures
        deflater_ok(*final(c)),
        deflater_calls(*final(c)) == ended(
            deflater_level(*old(c))->0,
            deflater_calls(*old(c)),
            old(scratch)@.len(),
        ),
        final(scratch)@.len() == old(scratch)@.len(),
        deflater_level(*final(c)) == deflater_level(*old(c)),
        deflater_written(*old(c)).is_prefix_of(deflater_written(*final(c))),
        final(out)@ == old(out)@ + deflater_written(*final(c)).skip(
            deflater_written(*old(c)).len() as int,
        ),
        ok == !deflater_failed(*final(c)),
        deflater_read(*final(c)) == deflater_read(*old(c)),
        ok ==> deflater_written(*final(c)) == deflater_stream(*old(c)),
        ok ==> inflate::inflation(deflater_written(*final(c))) == (deflater_read(*final(c)), false),
{
    let ghost w0 = deflater_written(*c);
    proof {
        assert(w0.skip(w0.len() as int) =~= Seq::<u8>::empty());
        assert(out@ + Seq::<u8>::empty() =~= out@);
    }
    let ghost level = deflater_level(*c)->0;
    let nothing: Vec<u8> = Vec::new();
    assert(nothing@ =~= Seq::<u8>::empty());
    loop
        invariant
            scratch@.len() == old(scratch)@.len(),
            scratch@.len() > 0,
            deflater_ok(*c),
            level == deflater_level(*old(c))->0,
            ended(level, deflater_calls(*old(c)), scratch@.len()) == ended(
                level,
                deflater_calls(*c),
                scratch@.len(),
            ),
            nothing@ == Seq::<u8>::empty(),
            deflater_level(*c) == deflater_level(*old(c)),
            w0 == deflater_written(*old(c)),
            w0.is_prefix_of(deflater_written(*c)),
            out@ == old(out)@ + deflater_written(*c).skip(w0.len() as int),
            deflater_read(*c) == deflater_read(*old(c)),
            deflater_stream(*c) == deflater_stream(*old(c)),
        decreases deflater_pending(*c).len(),
    {
        let ghost w1 = deflater_written(*c);
        let ghost r1 = deflater_read(*c);
        let ghost pending = deflater_pending(*c);
        let out_before: u64 = c.total_out();
        let room: usize = scratch.len();
        let status = deflate_step(c, nothing.as_slice(), scratch, true);
        assert(deflater_written(*c).len() - w1.len() <= room);
        let produced: usize = (c.total_out() - out_before) as usize;
        let fresh = vstd::slice::slice_subrange(scratch.as_slice(), 0, produced);
        proof {
            assert(fresh@ =~= scratch@.take(produced as int));
            lemma_appended(old(out)@, w0, w1, deflater_written(*c), scratch@, fresh@);
            assert(deflater_read(*c) =~= r1);
        }
        out.extend_from_slice(fresh);
        assert(out@ =~= old(out)@ + deflater_written(*c).skip(w0.len() as int));
        match status {
            DeflateStep::Failed => {
                return false;
            },
            DeflateStep::StreamEnd => {
                assert(deflater_stream(*c) =~= deflater_written(*c));
                return true;
            },
            DeflateStep::More => {
                assert(deflater_stream(*c).len() == w1.len() + pending.len());
            },
        }
    }
}

} // verus!
