//! Undoing raw deflate, a piece of the stream at a time.

use flate2::Decompress;
use flate2::FlushDecompress;
use flate2::Status;
use vstd::prelude::*;

verus! {

/// `flate2::Decompress`, a streaming inflater.
#[verifier::external_type_specification]
#[verifier::external_body]
pub struct ExDecompress(flate2::Decompress);

/// The bytes that an inflater has consumed.
pub uninterp spec fn inflater_read(dec: Decompress) -> Seq<u8>;

/// The bytes that an inflater has produced.
pub uninterp spec fn inflater_written(dec: Decompress) -> Seq<u8>;

/// Whether an inflater was made for raw deflate data.
pub uninterp spec fn inflater_raw(dec: Decompress) -> bool;

/// What raw deflate data decodes to as far as it goes, and whether it is corrupt.
pub uninterp spec fn inflation(data: Seq<u8>) -> (Seq<u8>, bool);

/// What raw deflate data decodes to as far as it goes.
pub open spec fn inflated(data: Seq<u8>) -> Seq<u8> {
    inflation(data).0
}

/// Whether raw deflate data is corrupt.
pub open spec fn corrupt(data: Seq<u8>) -> bool {
    inflation(data).1
}

/// The stream ends within `data`: whatever follows changes nothing.
pub open spec fn stream_over(data: Seq<u8>, out: Seq<u8>) -> bool {
    forall|t: Seq<u8>| #[trigger] inflation(data + t) == (out, false)
}

/// What follows `data` leaves it as it is: corrupt, or decoded to what it decodes to.
pub open spec fn lasting(data: Seq<u8>) -> bool {
    forall|t: Seq<u8>|
        {
            &&& corrupt(data) ==> (#[trigger] inflation(data + t)).1
            &&& !corrupt(data) ==> inflated(data).is_prefix_of(inflation(data + t).0)
        }
}

/// `Decompress::new` for raw deflate data: nothing consumed, nothing produced.
#[verifier::external_body]
pub(crate) fn new_inflater() -> (r: Decompress)
    ensures
        inflater_raw(r),
        inflater_read(r) == Seq::<u8>::empty(),
        inflater_written(r) == Seq::<u8>::empty(),
        inflation(inflater_read(r)) == (inflater_written(r), false),
{
    Decompress::new(false)
}

/// `Decompress::total_in`: how many bytes were consumed. The count is kept in 64 bits.
pub assume_specification[ Decompress::total_in ](dec: &Decompress) -> (r: u64)
    ensures
        r == inflater_read(*dec).len(),
;

/// `Decompress::total_out`: how many bytes were produced. The count is kept in 64 bits.
pub assume_specification[ Decompress::total_out ](dec: &Decompress) -> (r: u64)
    ensures
        r == inflater_written(*dec).len(),
;

/// How one inflate step ended.
pub enum InflateStep {
    More,
    StreamEnd,
    Corrupt,
}

/// `after` is `before` with some bytes off the front of `from` behind it.
pub open spec fn taken(before: Seq<u8>, after: Seq<u8>, from: Seq<u8>) -> bool {
    &&& before.len() <= after.len() <= before.len() + from.len()
    &&& after == before + from.take(after.len() - before.len())
}

/// `Decompress::decompress`: consumes some of `input` and puts what it produces at the
/// front of `output`.
///
/// What was produced is the front of what all of the data decodes to, whatever follows it.
/// Without progress, and with room in `output`, there was no input left and everything that
/// the data consumed decodes to has been produced. At the end of the stream it has been too,
/// and nothing that follows counts. Only corrupt data fails, and stays corrupt whatever
/// follows it.
#[verifier::external_body]
pub(crate) fn inflate_step(dec: &mut Decompress, input: &[u8], output: &mut Vec<u8>) -> (r:
    InflateStep)
    requires
        inflater_raw(*old(dec)),
    ensures
        inflater_raw(*final(dec)),
        final(output)@.len() == old(output)@.len(),
        taken(inflater_read(*old(dec)), inflater_read(*final(dec)), input@),
        taken(inflater_written(*old(dec)), inflater_written(*final(dec)), final(output)@),
        inflater_written(*final(dec)).is_prefix_of(inflated(inflater_read(*old(dec)) + input@)),
        forall|t: Seq<u8>|
            inflater_written(*final(dec)).is_prefix_of(
                (#[trigger] inflation(inflater_read(*old(dec)) + input@ + t)).0,
            ),
        r is More && inflater_read(*final(dec)) == inflater_read(
            *old(dec),
        ) && inflater_written(*final(dec)) == inflater_written(*old(dec)) && old(output)@.len() > 0
            ==> input@.len() == 0 && inflation(inflater_read(*final(dec))) == (
            inflater_written(*final(dec)),
            false,
        ),
        r is StreamEnd ==> stream_over(inflater_read(*final(dec)), inflater_written(*final(dec))),
        r is Corrupt ==> corrupt(inflater_read(*old(dec)) + input@),
        r is Corrupt ==> forall|t: Seq<u8>| (#[trigger] inflation(inflater_read(*old(dec)) + input@
            + t)).1,
{
    match dec.decompress(input, output, FlushDecompress::None) {
        Ok(Status::StreamEnd) => InflateStep::StreamEnd,
        Ok(Status::Ok) => InflateStep::More,
        Ok(Status::BufError) => InflateStep::More,
        Err(_) => InflateStep::Corrupt,
    }
}

/// The inflater has dealt with all of `packed`.
pub open spec fn caught_up(dec: Decompress, packed: Seq<u8>) -> bool {
    let read = inflater_read(dec);
    let written = inflater_written(dec);
    &&& inflater_raw(dec)
    &&& inflation(packed) == (written, false)
    &&& read == packed || stream_over(read, written) && stream_over(packed, written)
}

proof fn lemma_over_extend(data: Seq<u8>, out: Seq<u8>, more: Seq<u8>)
    requires
        stream_over(data, out),
    ensures
        stream_over(data + more, out),
{
    assert forall|t: Seq<u8>| #[trigger] inflation(data + more + t) == (out, false) by {
        assert(data + more + t =~= data + (more + t));
    }
}

/// Inflates `input`, the next piece of a stream of which `packed` came before, onto
/// `buf`; true if the data is corrupt.
pub(crate) fn inflate_onto(
    dec: &mut Decompress,
    scratch: &mut Vec<u8>,
    input: &[u8],
    buf: &mut Vec<u8>,
    Ghost(packed): Ghost<Seq<u8>>,
) -> (failed: bool)
    requires
        caught_up(*old(dec), packed),
        old(scratch)@.len() > 0,
    ensures
        final(scratch)@.len() == old(scratch)@.len(),
        inflater_written(*old(dec)).is_prefix_of(inflater_written(*final(dec))),
        final(buf)@ == old(buf)@ + inflater_written(*final(dec)).skip(
            inflater_written(*old(dec)).len() as int,
        ),
        inflater_written(*final(dec)).is_prefix_of(inflated(packed + input@)),
        lasting(packed + input@),
        failed ==> corrupt(packed + input@),
        !failed ==> caught_up(*final(dec), packed + input@),
{
    let ghost full = packed + input@;
    let ghost w0 = inflater_written(*dec);
    let ghost buf0 = buf@;
    let n: usize = input.len();
    let mut at: usize = 0;
    let ghost over = inflater_read(*dec) != packed;
    let ghost mut first = true;
    proof {
        if over {
            lemma_over_extend(packed, w0, input@);
            assert(full + Seq::<u8>::empty() =~= full);
            assert(inflation(full + Seq::<u8>::empty()) == (w0, false));
        }
        assert(input@.skip(0) =~= input@);
        assert(w0.skip(w0.len() as int) =~= Seq::<u8>::empty());
        assert(buf0 + Seq::<u8>::empty() =~= buf0);
    }
    loop
        invariant
            at <= n == input@.len(),
            scratch@.len() == old(scratch)@.len(),
            scratch@.len() > 0,
            inflater_raw(*dec),
            full == packed + input@,
            w0 == inflater_written(*old(dec)),
            w0.is_prefix_of(inflater_written(*dec)),
            buf0 == old(buf)@,
            buf@ == buf0 + inflater_written(*dec).skip(w0.len() as int),
            !over ==> inflater_read(*dec) + input@.skip(at as int) == full,
            over ==> stream_over(inflater_read(*dec), inflater_written(*dec)),
            over ==> stream_over(full, inflater_written(*dec)),
            over ==> inflation(full) == (inflater_written(*dec), false),
            !first ==> inflater_written(*dec).is_prefix_of(inflated(full)),
        decreases
                if first {
                    1int
                } else {
                    0int
                },
                input@.len() - at + inflated(full).len() - inflater_written(*dec).len(),
    {
        let ghost written0 = inflater_written(*dec);
        let ghost read0 = inflater_read(*dec);
        let in_before: u64 = dec.total_in();
        let out_before: u64 = dec.total_out();
        let piece = vstd::slice::slice_subrange(input, at, n);
        assert(piece@ =~= input@.skip(at as int));
        let room: usize = scratch.len();
        let status = inflate_step(dec, piece, scratch);
        assert(inflater_written(*dec).len() - written0.len() <= room);
        let consumed: usize = (dec.total_in() - in_before) as usize;
        let produced: usize = (dec.total_out() - out_before) as usize;
        if produced > 0 {
            let fresh = vstd::slice::slice_subrange(scratch.as_slice(), 0, produced);
            buf.extend_from_slice(fresh);
            assert(buf@ =~= buf0 + written0.skip(w0.len() as int) + fresh@);
        }
        proof {
            let written1 = inflater_written(*dec);
            assert(written1.skip(w0.len() as int) =~= written0.skip(w0.len() as int)
                + scratch@.take(produced as int));
            assert(buf@ =~= buf0 + written1.skip(w0.len() as int));
            assert(w0 =~= written1.take(w0.len() as int)) by {
                assert(w0 =~= written0.take(w0.len() as int));
            }
            assert(input@.skip(at + consumed) =~= piece@.skip(consumed as int));
            assert(piece@.take(consumed as int) + piece@.skip(consumed as int) =~= piece@);
            if over {
                assert(inflation(read0 + piece@) == (written0, false));
                assert(written1 =~= written0);
                lemma_over_extend(read0, written0, piece@.take(consumed as int));
            } else {
                assert(inflater_read(*dec) + input@.skip(at + consumed) =~= full);
            }
            first = false;
        }
        at = at + consumed;
        match status {
            InflateStep::StreamEnd => {
                proof {
                    if !over {
                        lemma_over_extend(
                            inflater_read(*dec),
                            inflater_written(*dec),
                            input@.skip(at as int),
                        );
                        assert(full + Seq::<u8>::empty() =~= full);
                        assert(inflation(full + Seq::<u8>::empty()) == (
                            inflater_written(*dec),
                            false,
                        ));
                    }
                }
                return false;
            },
            InflateStep::Corrupt => {
                assert(read0 + piece@ =~= full);
                return true;
            },
            InflateStep::More => {},
        }
        if consumed == 0 && produced == 0 {
            proof {
                assert(inflater_read(*dec) + Seq::<u8>::empty() =~= inflater_read(*dec));
                assert(piece@ =~= Seq::<u8>::empty());
                if !over {
                    assert(read0 + piece@ =~= full);
                }
            }
            return false;
        }
    }
}

} // verus!
