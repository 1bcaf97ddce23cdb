//! Reading a row set from a stream of bytes, a chunk at a time.

use crate::builder;
use crate::doc::Doc;
use crate::inflate;
use crate::inflate::inflate_onto;
use crate::inflate::new_inflater;
use crate::resp_model;
use crate::resp_model::RespModel;
use crate::resp_wire;
use crate::resp_wire::scan_header;
use crate::resp_wire::scan_record;
use crate::resp_wire::HeaderScan;
use crate::resp_wire::Scan;
use crate::rowset;
use crate::rowset::RowSet;
use crate::store::E4XStoreReadOnly;
use crate::text::owned_bytes;
use flate2::Decompress;
use vstd::prelude::*;

verus! {

/// Bytes of scratch space for one inflate step.
pub const SCRATCH_LEN: usize = 65536;

/// The row set's bytes within what was fed: all of them where they come plain,
/// otherwise what follows the codec byte, inflated if that byte is one.
pub open spec fn payload(plain: bool, fed: Seq<u8>) -> Seq<u8> {
    if plain {
        fed
    } else if fed.len() == 0 {
        Seq::empty()
    } else if fed[0] == 1 {
        inflate::inflated(fed.skip(1))
    } else {
        fed.skip(1)
    }
}

/// What was fed is corrupt deflate data.
pub open spec fn spoiled(plain: bool, fed: Seq<u8>) -> bool {
    !plain && fed.len() > 0 && fed[0] == 1 && inflate::corrupt(fed.skip(1))
}

/// The streaming builder: every record that is whole is in the arenas as soon as its
/// last byte was fed.
pub struct RespStreamBuilder {
    codec_read: bool,
    inflate: Option<Decompress>,
    scratch: Vec<u8>,
    buf: Vec<u8>,
    header_done: bool,
    finished: bool,
    overflowed: bool,
    rows: RowSet,
    model: Ghost<RespModel>,
    fed: Ghost<Seq<u8>>,
    all: Ghost<Seq<u8>>,
    plain: Ghost<bool>,
}

impl View for RespStreamBuilder {
    type V = RespModel;

    closed spec fn view(&self) -> RespModel {
        self.model@
    }
}

impl RespStreamBuilder {
    /// The bytes that were fed.
    pub closed spec fn fed(self) -> Seq<u8> {
        self.all@
    }

    /// Whether the bytes come without codec byte and compression.
    pub closed spec fn plain(self) -> bool {
        self.plain@
    }

    /// Whether further bytes are ignored: behind a terminator, or once the document no
    /// longer fits the arenas.
    pub open spec fn stopped(self) -> bool {
        self@.finished || !builder::fits(self@.draft)
    }

    /// Flags, buffer and arenas are those of `m`.
    spec fn at(self, m: RespModel) -> bool {
        &&& self.header_done == m.header_done
        &&& self.finished == m.finished
        &&& !self.finished ==> self.buf@ == m.buf
        &&& self.rows.holds(m)
    }

    /// The codec byte and the inflater go with what was fed.
    spec fn codec_ok(self) -> bool {
        if self.plain@ {
            self.codec_read && self.inflate is None
        } else if !self.codec_read {
            self.inflate is None && self.fed@.len() == 0
        } else {
            &&& self.fed@.len() > 0
            &&& self.inflate is Some <==> self.fed@[0] == 1
        }
    }

    pub closed spec fn wf(self) -> bool {
        let m = self.model@;
        &&& self.scratch@.len() == SCRATCH_LEN
        &&& self.overflowed == !builder::fits(m.draft)
        &&& !self.overflowed ==> self.at(m)
        &&& self.codec_ok()
        &&& self.fed@.is_prefix_of(self.all@)
        &&& !self.finished && !self.overflowed ==> self.all@ == self.fed@
        &&& self.inflate is Some ==> inflate::lasting(self.fed@.skip(1))
        &&& !self.finished && !self.overflowed ==> !spoiled(self.plain@, self.fed@)
        &&& !self.finished && !self.overflowed && self.inflate is Some ==> inflate::caught_up(
            self.inflate->0,
            self.fed@.skip(1),
        )
        &&& !spoiled(self.plain@, self.fed@) ==> m == resp_model::absorbed(
            payload(self.plain@, self.fed@),
        )
    }

    /// What a builder holds that is in use: the row set of all bytes fed, or no more than
    /// that this does not fit the arenas.
    pub proof fn lemma_absorbed(self)
        requires
            self.wf(),
            !spoiled(self.plain(), self.fed()),
        ensures
            builder::fits(self@.draft) <==> builder::fits(
                resp_model::absorbed(payload(self.plain(), self.fed())).draft,
            ),
            builder::fits(self@.draft) ==> self@ == resp_model::absorbed(
                payload(self.plain(), self.fed()),
            ),
    {
        let plain = self.plain@;
        let counted = self.fed@;
        let all = self.all@;
        let m = self.model@;
        let rest = all.skip(counted.len() as int);
        assert(all =~= counted + rest) by {
            assert(counted =~= all.take(counted.len() as int));
        }
        lemma_fed_more(counted, rest);
        rowset::lemma_envelope_fits();
        if self.finished || self.overflowed {
            assert(resp_model::absorbed(Seq::empty()) =~= resp_model::start_model());
            let before = payload(plain, counted);
            let after = payload(plain, all);
            assert(before.is_prefix_of(after)) by {
                if !plain && counted.len() > 0 && counted[0] == 1 {
                    let packed = counted.skip(1);
                    assert(inflate::inflation(packed + rest) == inflate::inflation(all.skip(1)));
                }
            }
            let more = after.skip(before.len() as int);
            assert(after =~= before + more);
            resp_model::lemma_streaming(before, more);
            if !m.finished {
                let ext = resp_model::extended(m, more);
                let start = RespModel { buf: before, ..resp_model::start_model() };
                resp_model::lemma_records_header(resp_model::with_header(start));
                assert(m.header_done);
                rowset::lemma_records_fits(ext);
            }
        }
    }

    /// Where a stream is cut does not matter: two builders that were fed the same bytes, in
    /// chunks of any size, hold the same row set, or neither can. What was fed must not be
    /// corrupt.
    pub proof fn lemma_cuts_alike(self, other: Self)
        requires
            self.wf(),
            other.wf(),
            self.plain() == other.plain(),
            self.fed() == other.fed(),
            !spoiled(self.plain(), self.fed()),
        ensures
            builder::fits(self@.draft) <==> builder::fits(other@.draft),
            builder::fits(self@.draft) ==> self@ == other@,
    {
        self.lemma_absorbed();
        other.lemma_absorbed();
    }

    /// A builder for a stream that begins with the codec byte.
    pub fn new() -> (r: Self)
        ensures
            r.wf(),
            !r.plain(),
            r.fed() == Seq::<u8>::empty(),
            r@ == resp_model::start_model(),
    {
        proof {
            rowset::lemma_envelope_fits();
            assert(resp_model::absorbed(Seq::empty()) =~= resp_model::start_model());
        }
        RespStreamBuilder {
            codec_read: false,
            inflate: None,
            scratch: vec![0u8; SCRATCH_LEN],
            buf: Vec::new(),
            header_done: false,
            finished: false,
            overflowed: false,
            rows: RowSet::new(),
            model: Ghost(resp_model::start_model()),
            fed: Ghost(Seq::empty()),
            all: Ghost(Seq::empty()),
            plain: Ghost(false),
        }
    }

    /// A builder for bytes without codec byte and compression.
    pub fn new_decompressed() -> (r: Self)
        ensures
            r.wf(),
            r.plain(),
            r.fed() == Seq::<u8>::empty(),
            r@ == resp_model::start_model(),
    {
        let mut me = Self::new();
        assert(me.all@ =~= Seq::<u8>::empty());
        assert(me.fed@ =~= Seq::<u8>::empty());
        me.codec_read = true;
        me.inflate = None;
        me.plain = Ghost(true);
        me
    }

    /// Consumes the codec byte off the first chunk; gives the bytes behind it.
    fn consume_codec_flag<'r>(&mut self, raw: &'r [u8]) -> (rest: &'r [u8])
        requires
            old(self).codec_ok(),
            !old(self).plain@ && old(self).codec_read && old(self).inflate is Some
                ==> inflate::caught_up(old(self).inflate->0, old(self).fed@.skip(1)),
        ensures
            final(self).scratch == old(self).scratch,
            final(self).buf == old(self).buf,
            final(self).header_done == old(self).header_done,
            final(self).finished == old(self).finished,
            final(self).overflowed == old(self).overflowed,
            final(self).rows == old(self).rows,
            final(self).model == old(self).model,
            final(self).fed == old(self).fed,
            final(self).all == old(self).all,
            final(self).plain == old(self).plain,
            ({
                let now = old(self).fed@ + raw@;
                &&& final(self).plain@ ==> rest@ == raw@ && final(self).inflate is None
                    && final(self).codec_read
                &&& !final(self).plain@ && now.len() == 0 ==> !final(self).codec_read
                    && final(self).inflate is None && rest@.len() == 0
                &&& !final(self).plain@ && now.len() > 0 ==> {
                    &&& final(self).codec_read
                    &&& final(self).inflate is Some <==> now[0] == 1
                    &&& final(self).inflate is Some ==> exists|packed: Seq<u8>| #[trigger]
                        inflate::caught_up(final(self).inflate->0, packed) && packed + rest@
                            == now.skip(1) && (old(self).fed@.len() > 0 ==> packed == old(
                            self,
                        ).fed@.skip(1)) && (old(self).fed@.len() == 0 ==> packed.len() == 0)
                    &&& final(self).inflate is Some && old(self).fed@.len() == 0
                        ==> inflate::inflater_written(final(self).inflate->0).len() == 0
                    &&& final(self).inflate is None ==> (if old(self).fed@.len() > 0 {
                        rest@ == raw@
                    } else {
                        rest@ == raw@.skip(1)
                    })
                }
            }),
    {
        if self.codec_read {
            proof {
                if !self.plain@ && self.inflate is Some {
                    let packed = self.fed@.skip(1);
                    assert((self.fed@ + raw@).skip(1) =~= packed + raw@);
                }
            }
            return raw;
        }
        let n: usize = raw.len();
        if n == 0 {
            return raw;
        }
        let flag: u8 = raw[0];
        let rest = vstd::slice::slice_subrange(raw, 1, n);
        self.codec_read = true;
        proof {
            assert(self.fed@ + raw@ =~= raw@);
            assert(rest@ =~= raw@.skip(1));
        }
        if flag == 1 {
            let dec = new_inflater();
            self.inflate = Some(dec);
            proof {
                let packed = Seq::<u8>::empty();
                assert(inflate::caught_up(self.inflate->0, packed));
                assert(packed + rest@ =~= raw@.skip(1));
            }
        } else {
            self.inflate = None;
        }
        rest
    }

    /// Reads the header if it is whole; false where the document does not fit.
    fn try_parse_header(&mut self, Ghost(m): Ghost<RespModel>) -> (ok: bool)
        requires
            old(self).at(m),
            !m.header_done,
            !m.finished,
        ensures
            ok <==> builder::fits(resp_model::with_header(m).draft),
            ok ==> final(self).at(resp_model::with_header(m)),
            final(self).scratch == old(self).scratch,
            final(self).codec_read == old(self).codec_read,
            final(self).inflate == old(self).inflate,
            final(self).fed == old(self).fed,
            final(self).all == old(self).all,
            final(self).plain == old(self).plain,
            final(self).overflowed == old(self).overflowed,
            final(self).model == old(self).model,
    {
        proof {
            self.rows.lemma_holds(m);
            resp_wire::lemma_header_stable(m.buf, Seq::empty());
        }
        let ghost next = resp_model::with_header(m);
        match scan_header(self.buf.as_slice()) {
            HeaderScan::NeedMore => true,
            HeaderScan::Bad => {
                self.header_done = true;
                self.finished = true;
                proof {
                    self.rows.lemma_holds_same(m, next);
                }
                true
            },
            HeaderScan::Ready { consumed, root_qname, ns_uri, row_el, names } => {
                if !self.rows.commit_header(
                    root_qname.as_str(),
                    ns_uri.as_str(),
                    row_el.as_str(),
                    &names,
                    Ghost(m),
                    Ghost(next),
                ) {
                    return false;
                }
                let total: usize = self.buf.len();
                let left = owned_bytes(
                    vstd::slice::slice_subrange(self.buf.as_slice(), consumed, total),
                );
                assert(left@ =~= m.buf.skip(consumed as int));
                self.buf = left;
                self.header_done = true;
                proof {
                    self.rows.lemma_holds(next);
                }
                true
            },
        }
    }

    /// Reads every record that is whole; false where the document does not fit.
    fn parse_records(&mut self, Ghost(m): Ghost<RespModel>) -> (ok: bool)
        requires
            old(self).at(m),
        ensures
            ok <==> builder::fits(resp_model::with_records(m).draft),
            ok ==> final(self).at(resp_model::with_records(m)),
            final(self).scratch == old(self).scratch,
            final(self).codec_read == old(self).codec_read,
            final(self).inflate == old(self).inflate,
            final(self).fed == old(self).fed,
            final(self).all == old(self).all,
            final(self).plain == old(self).plain,
            final(self).overflowed == old(self).overflowed,
            final(self).model == old(self).model,
    {
        proof {
            self.rows.lemma_holds(m);
        }
        if !self.header_done || self.finished {
            return true;
        }
        let ghost target = resp_model::with_records(m);
        let ghost mut now = m;
        let total: usize = self.buf.len();
        let mut pos: usize = 0;
        assert(self.buf@.skip(0) =~= self.buf@);
        loop
            invariant
                pos <= total == self.buf@.len(),
                now.buf == self.buf@.skip(pos as int),
                now.header_done,
                !now.finished,
                self.header_done,
                !self.finished,
                self.rows.holds(now),
                target == resp_model::with_records(now),
                target == resp_model::with_records(m),
                self.scratch == old(self).scratch,
                self.codec_read == old(self).codec_read,
                self.inflate == old(self).inflate,
                self.fed == old(self).fed,
                self.all == old(self).all,
                self.plain == old(self).plain,
                self.overflowed == old(self).overflowed,
                self.model == old(self).model,
            decreases total - pos,
        {
            let ghost cols = now.cols.len();
            proof {
                self.rows.lemma_holds(now);
                resp_wire::lemma_record_stable(now.buf, Seq::empty(), cols);
            }
            let data = vstd::slice::slice_subrange(self.buf.as_slice(), pos, total);
            assert(data@ =~= now.buf);
            match scan_record(data, self.rows.column_count()) {
                Scan::Incomplete => {
                    if pos > 0 {
                        self.buf = owned_bytes(data);
                    }
                    assert(self.buf@ =~= now.buf);
                    return true;
                },
                Scan::Row { len } => {
                    let ghost cells = resp_wire::record_at(now.buf, cols)->cells;
                    let ghost next = RespModel {
                        buf: now.buf.skip(len as int),
                        draft: resp_model::with_row(now, cells),
                        ..now
                    };
                    proof {
                        rowset::lemma_records_fits(next);
                    }
                    if !self.rows.push_row(data, Ghost(now), Ghost(cells)) {
                        return false;
                    }
                    proof {
                        self.rows.lemma_holds_same(
                            RespModel { draft: resp_model::with_row(now, cells), ..now },
                            next,
                        );
                        assert(now.buf.skip(len as int) =~= self.buf@.skip(pos + len));
                        now = next;
                    }
                    pos += len;
                },
                Scan::End { len } => {
                    self.finished = true;
                    proof {
                        self.rows.lemma_holds_same(now, target);
                    }
                    return true;
                },
                Scan::Fault { len, msg } => {
                    if !self.rows.append_fault(msg.as_str(), Ghost(now)) {
                        return false;
                    }
                    self.finished = true;
                    proof {
                        self.rows.lemma_holds(target);
                    }
                    return true;
                },
                Scan::Malformed => {
                    self.finished = true;
                    proof {
                        self.rows.lemma_holds_same(now, target);
                    }
                    return true;
                },
            }
        }
    }

    /// Stops on corrupt data: of the bytes that it still gave, a header counts.
    fn stop_broken(&mut self, Ghost(m): Ghost<RespModel>, Ghost(more): Ghost<Seq<u8>>)
        requires
            old(self).at(resp_model::extended(m, more)),
            !m.finished,
            !old(self).overflowed,
        ensures
            final(self).scratch == old(self).scratch,
            final(self).codec_read == old(self).codec_read,
            final(self).inflate == old(self).inflate,
            final(self).fed == old(self).fed,
            final(self).all == old(self).all,
            final(self).plain == old(self).plain,
            final(self).model@ == resp_model::broken_off(m, more),
            final(self).overflowed == !builder::fits(final(self).model@.draft),
            !final(self).overflowed ==> final(self).finished && final(self).at(
                final(self).model@,
            ),
    {
        let ghost ext = resp_model::extended(m, more);
        let ghost end = resp_model::broken_off(m, more);
        proof {
            self.rows.lemma_holds(ext);
        }
        if !self.header_done {
            if !self.try_parse_header(Ghost(ext)) {
                self.overflowed = true;
                self.model = Ghost(end);
                return;
            }
            proof {
                self.rows.lemma_holds_same(resp_model::with_header(ext), end);
            }
        } else {
            proof {
                self.rows.lemma_holds_same(ext, end);
            }
        }
        self.finished = true;
        self.model = Ghost(end);
        proof {
            self.rows.lemma_holds(end);
        }
    }

    /// Feeds a chunk: inflates it where the stream is compressed, then reads the header
    /// and every record that is whole. Corrupt compressed data stops the builder; what
    /// came before it stays, but of the chunk itself only a header counts.
    pub fn feed(&mut self, raw: &[u8])
        requires
            old(self).wf(),
        ensures
            final(self).wf(),
            final(self).plain() == old(self).plain(),
            final(self).fed() == old(self).fed() + raw@,
            old(self).stopped() ==> final(self)@ == old(self)@,
            !old(self).stopped() ==> {
                &&& !spoiled(final(self).plain(), final(self).fed()) ==> final(self)@
                    == resp_model::absorbed(payload(final(self).plain(), final(self).fed()))
                &&& spoiled(final(self).plain(), final(self).fed()) ==> exists|more: Seq<u8>|
                    (payload(old(self).plain(), old(self).fed()) + more).is_prefix_of(
                        payload(final(self).plain(), final(self).fed()),
                    ) && final(self)@ == #[trigger] resp_model::broken_off(old(self)@, more)
            },
    {
        if self.finished || self.overflowed {
            self.all = Ghost(self.all@ + raw@);
            return;
        }
        let ghost m = self.model@;
        let ghost fed0 = self.fed@;
        let ghost plain = self.plain@;
        let ghost now = fed0 + raw@;
        let rest = self.consume_codec_flag(raw);
        let ghost mut packed = Seq::<u8>::empty();
        proof {
            if self.inflate is Some {
                packed = choose|packed: Seq<u8>| #[trigger]
                    inflate::caught_up(self.inflate->0, packed) && packed + rest@ == now.skip(1)
                        && (fed0.len() > 0 ==> packed == fed0.skip(1)) && (fed0.len() == 0
                        ==> packed.len() == 0);
                if fed0.len() == 0 {
                    assert(packed =~= Seq::<u8>::empty());
                }
            }
        }
        let ghost mut more = rest@;
        let ghost mut written0 = Seq::<u8>::empty();
        let failed: bool = match &mut self.inflate {
            Some(dec) => {
                let ghost w0 = inflate::inflater_written(*dec);
                let failed = inflate_onto(
                    dec,
                    &mut self.scratch,
                    rest,
                    &mut self.buf,
                    Ghost(packed),
                );
                proof {
                    written0 = w0;
                    more = inflate::inflater_written(*dec).skip(w0.len() as int);
                    assert(w0 + more =~= inflate::inflater_written(*dec));
                }
                failed
            },
            None => {
                self.buf.extend_from_slice(rest);
                assert(self.buf@ =~= m.buf + rest@);
                false
            },
        };
        let ghost ext = resp_model::extended(m, more);
        self.fed = Ghost(now);
        self.all = Ghost(now);
        proof {
            lemma_fed_more(fed0, raw@);
            if self.inflate is None {
                assert(payload(plain, now) =~= payload(plain, fed0) + more);
            } else {
                assert(now.len() > 0 && now[0] == 1);
                assert(written0 =~= payload(plain, fed0));
                assert(written0 + more =~= inflate::inflater_written(self.inflate->0));
            }
            resp_model::lemma_streaming(payload(plain, fed0), more);
            self.rows.lemma_holds_same(m, ext);
        }
        if failed {
            self.stop_broken(Ghost(m), Ghost(more));
            return;
        }
        let ghost target = resp_model::settled(ext);
        assert(target == resp_model::absorbed(payload(plain, now)));
        if !self.header_done {
            let ghost h = resp_model::with_header(ext);
            proof {
                rowset::lemma_records_fits(h);
            }
            if !self.try_parse_header(Ghost(ext)) {
                self.overflowed = true;
                self.model = Ghost(target);
                return;
            }
            if !self.parse_records(Ghost(h)) {
                self.overflowed = true;
                self.model = Ghost(target);
                return;
            }
        } else {
            if !self.parse_records(Ghost(ext)) {
                self.overflowed = true;
                self.model = Ghost(target);
                return;
            }
        }
        self.model = Ghost(target);
        proof {
            self.rows.lemma_holds(target);
        }
    }

    /// Freezes the arenas: the document of everything fed, `None` where it does not fit
    /// them. A stream that broke off gives what had come of it.
    pub fn finish(self) -> (r: Option<E4XStoreReadOnly>)
        requires
            self.wf(),
        ensures
            r is Some <==> builder::fits(self@.draft),
            r matches Some(store) ==> store.doc() == (Doc {
                nodes: self@.draft.nodes,
                decls: self@.draft.decls,
            }) && store.refs() == builder::refs_of(self@.draft.log),
    {
        let mut me = self;
        let ghost m = self.model@;
        if me.overflowed {
            return None;
        }
        if !me.finished {
            proof {
                resp_model::lemma_settled_again(
                    RespModel {
                        buf: payload(self.plain@, self.fed@),
                        ..resp_model::start_model()
                    },
                );
                assert(resp_model::settled(m) == m);
            }
            if !me.header_done {
                let ghost h = resp_model::with_header(m);
                proof {
                    rowset::lemma_records_fits(h);
                }
                if !me.try_parse_header(Ghost(m)) {
                    return None;
                }
                if !me.parse_records(Ghost(h)) {
                    return None;
                }
            } else if !me.parse_records(Ghost(m)) {
                return None;
            }
        }
        Some(me.rows.finish(Ghost(m)))
    }
}

impl E4XStoreReadOnly {
    /// Builds the document of a whole row set, given without codec byte and compression;
    /// `None` where it does not fit the arenas.
    pub fn from_binary(bytes: &[u8]) -> (r: Option<Self>)
        ensures
            r is Some <==> builder::fits(resp_model::absorbed(bytes@).draft),
            r matches Some(store) ==> store.doc() == (Doc {
                nodes: resp_model::absorbed(bytes@).draft.nodes,
                decls: resp_model::absorbed(bytes@).draft.decls,
            }) && store.refs() == builder::refs_of(resp_model::absorbed(bytes@).draft.log),
    {
        let mut builder = RespStreamBuilder::new_decompressed();
        proof {
            rowset::lemma_envelope_fits();
            assert(Seq::<u8>::empty() + bytes@ =~= bytes@);
        }
        builder.feed(bytes);
        builder.finish()
    }
}

/// A chunk behind what was fed.
proof fn lemma_fed_more(fed: Seq<u8>, raw: Seq<u8>)
    ensures
        fed.len() > 0 ==> (fed + raw).skip(1) == fed.skip(1) + raw,
        fed.len() > 0 ==> (fed + raw)[0] == fed[0],
        fed.len() == 0 ==> fed + raw == raw,
{
    if fed.len() > 0 {
        assert((fed + raw).skip(1) =~= fed.skip(1) + raw);
    } else {
        assert(fed + raw =~= raw);
    }
}

} // verus!
