//! The chunked emission state machine.
//!
//! A response stream frames incrementally arriving serialized records as one
//! bracketed document and hands it to the transport in right-sized chunks.
//! The machine here makes every decision of that loop: what framing to write,
//! when to yield a chunk, when to suspend, and when the stream is over. The
//! driving loop (the part that actually polls a database cursor and serializes
//! rows) reports each observation as a `SourceEvent` and performs whatever
//! `StepResult` asks.

use vstd::prelude::*;
use vstd::seq_lib::*;
use crate::bytebuf::{buf_bytes, buf_extend, buf_len, buf_take, buf_with_capacity};
use crate::framing::{framed, record_tokens, lemma_record_tokens_push, lemma_full_tokens_flatten};

verus! {

/// The default target chunk size in bytes.
pub const DEFAULT_CHUNK_SIZE: usize = 2048;

/// How much framing has been written and whether the source is exhausted.
///
/// `New -> Started` on the first record, `-> Finished` when the source is
/// exhausted (directly from `New` if it yields no record), `-> Dead` when the
/// stream is polled again after `Finished`. No transition moves backward.
#[derive(Debug)]
pub enum RecStreamState {
    New,
    Started,
    Finished,
    Dead,
}

/// One observation of the record source, reported by the driving loop.
#[derive(Debug)]
pub enum SourceEvent {
    /// The source yielded a record; these are its serialized bytes.
    Record(Vec<u8>),
    /// The source reported a row-level error; the row is logged and skipped.
    RowError,
    /// A record could not be serialized; it is dropped before any framing for
    /// it is written, so the document stays well formed.
    WriteError,
    /// The source is exhausted.
    Exhausted,
    /// The source cannot currently yield; nothing is buffered, so suspend.
    NotReady,
}

/// What the transport loop should do after the machine consumed one event.
pub enum StepResult {
    /// Yield these bytes as the next chunk of the response body.
    Chunk(bytes::BytesMut),
    /// Nothing has accumulated: propagate "not ready" and suspend.
    Wait,
    /// Poll the source again and hand the next event back.
    More,
}

/// The chunked emission state machine of one response stream.
///
/// It owns the output buffer and the framing bytes; the ghost fields record
/// the accepted records, the yielded chunks, and how every chunk splits into
/// whole framing tokens, so `wf` can tie what was emitted to the framed
/// document.
pub struct RecStream {
    /// How much framing has been written and whether the source is exhausted.
    pub state: RecStreamState,
    /// Target chunk size: a chunk is yielded once the buffer reaches it.
    pub size: usize,
    /// The output buffer holding the chunk being accumulated.
    pub buf: bytes::BytesMut,
    /// Framing bytes written once before the first record.
    pub prefix: Vec<u8>,
    /// Framing bytes written between neighbouring records.
    pub separator: Vec<u8>,
    /// Framing bytes written once after the last record.
    pub suffix: Vec<u8>,
    /// The serialized records accepted into the output so far.
    pub recs: Ghost<Seq<Seq<u8>>>,
    /// The chunks yielded to the transport so far.
    pub emitted: Ghost<Seq<Seq<u8>>>,
    /// For each yielded chunk, the whole framing tokens it is made of.
    pub pieces: Ghost<Seq<Seq<Seq<u8>>>>,
    /// The whole framing tokens now in the output buffer.
    pub buf_pieces: Ghost<Seq<Seq<u8>>>,
}

impl RecStream {
    /// The framing tokens the machine has committed to the output so far:
    /// nothing before the first record, then the prefix and the records with
    /// separators between them, and the suffix once the source is exhausted.
    pub open spec fn toks(self) -> Seq<Seq<u8>> {
        match self.state {
            RecStreamState::New => Seq::<Seq<u8>>::empty(),
            RecStreamState::Started => seq![self.prefix@] + record_tokens(self.separator@, self.recs@),
            RecStreamState::Finished => seq![self.prefix@] + record_tokens(self.separator@, self.recs@) + seq![self.suffix@],
            RecStreamState::Dead => seq![self.prefix@] + record_tokens(self.separator@, self.recs@) + seq![self.suffix@],
        }
    }

    /// Well-formedness: every yielded chunk is the concatenation of whole
    /// framing tokens, the buffer holds whole tokens, and chunks plus buffer
    /// together hold exactly the committed token sequence.
    pub open spec fn wf(self) -> bool {
        &&& self.pieces@.len() == self.emitted@.len()
        &&& (forall|k: int| 0 <= k < self.emitted@.len() ==> self.emitted@[k] == (#[trigger] self.pieces@[k]).flatten())
        &&& buf_bytes(self.buf) == self.buf_pieces@.flatten()
        &&& self.pieces@.flatten() + self.buf_pieces@ == self.toks()
        &&& self.emitted@.flatten() + buf_bytes(self.buf) == self.toks().flatten()
        &&& (self.state is New ==> self.recs@.len() == 0 && self.emitted@.len() == 0
            && self.pieces@.len() == 0 && self.buf_pieces@.len() == 0 && buf_bytes(self.buf).len() == 0)
        &&& (self.state is Started ==> self.recs@.len() >= 1)
        &&& ((self.state is Finished || self.state is Dead) ==> self.buf_pieces@.len() == 0
            && buf_bytes(self.buf).len() == 0)
    }

    /// The framing configuration of `self` and `other` is the same.
    pub open spec fn same_framing(self, other: RecStream) -> bool {
        &&& self.size == other.size
        &&& self.prefix@ == other.prefix@
        &&& self.separator@ == other.separator@
        &&& self.suffix@ == other.suffix@
    }

    /// The buffer contents after accepting one record: the old bytes, then
    /// the prefix (first record) or the separator (later record), then the
    /// record itself.
    pub open spec fn grown_buf(self, rec: Seq<u8>) -> Seq<u8> {
        buf_bytes(self.buf) + (if self.state is New { self.prefix@ } else { self.separator@ }) + rec
    }

    /// The final chunk on exhaustion: the buffered bytes, the prefix if no
    /// record was ever written, and the suffix.
    pub open spec fn closing_chunk(self) -> Seq<u8> {
        buf_bytes(self.buf) + (if self.state is New { self.prefix@ } else { Seq::<u8>::empty() }) + self.suffix@
    }
}

/// Builds the emission state machine for one response stream from its framing
/// bytes and target chunk size. The buffer is pre-sized to the target size
/// plus a one-half growth margin so one accumulation pass does not reallocate.
pub fn build_stream(prefix: Vec<u8>, separator: Vec<u8>, suffix: Vec<u8>, size: usize) -> (s: RecStream)
    ensures
        s.wf(),
        s.state is New,
        s.size == size,
        s.prefix@ == prefix@,
        s.separator@ == separator@,
        s.suffix@ == suffix@,
        s.recs@ == Seq::<Seq<u8>>::empty(),
        s.emitted@ == Seq::<Seq<u8>>::empty(),
{
    let margin: usize = size / 2;
    let cap: usize = if margin <= usize::MAX - size { size + margin } else { size };
    let s = RecStream {
        state: RecStreamState::New,
        size: size,
        buf: buf_with_capacity(cap),
        prefix: prefix,
        separator: separator,
        suffix: suffix,
        recs: Ghost(Seq::empty()),
        emitted: Ghost(Seq::empty()),
        pieces: Ghost(Seq::empty()),
        buf_pieces: Ghost(Seq::empty()),
    };
    proof {
        assert(s.pieces@.flatten() + s.buf_pieces@ =~~= s.toks());
        assert(s.emitted@.flatten() + buf_bytes(s.buf) =~= s.toks().flatten());
    }
    s
}

impl RecStream {
    /// Begins one poll of the transport. Returns whether the machine should
    /// go on to poll the record source; `false` means the stream is over and
    /// the transport must report end-of-stream. Once `Finished` or `Dead`,
    /// nothing is ever re-emitted and no resource is touched again.
    pub fn begin_poll(&mut self) -> (go: bool)
        requires
            old(self).wf(),
        ensures
            final(self).wf(),
            final(self).same_framing(*old(self)),
            final(self).recs@ == old(self).recs@,
            final(self).emitted@ == old(self).emitted@,
            final(self).pieces@ == old(self).pieces@,
            buf_bytes(final(self).buf) == buf_bytes(old(self).buf),
            go == (old(self).state is New || old(self).state is Started),
            go ==> final(self).state == old(self).state,
            !go ==> final(self).state is Dead,
    {
        match self.state {
            RecStreamState::New => true,
            RecStreamState::Started => true,
            RecStreamState::Finished => {
                self.state = RecStreamState::Dead;
                false
            }
            RecStreamState::Dead => false,
        }
    }

    /// Consumes one observation of the record source and decides what the
    /// transport loop does next: a record is framed (prefix before the first,
    /// separator before every later one) and appended, and the buffer is
    /// yielded once it reaches the target size; errored rows are skipped
    /// whole; exhaustion closes the document and always yields the final
    /// chunk; backpressure yields what has accumulated or suspends.
    pub fn on_event(&mut self, ev: &SourceEvent) -> (r: StepResult)
        requires
            old(self).wf(),
            old(self).state is New || old(self).state is Started,
        ensures
            final(self).wf(),
            final(self).same_framing(*old(self)),
            (ev matches SourceEvent::Record(rec) ==> {
                &&& final(self).state is Started
                &&& final(self).recs@ == old(self).recs@.push(rec@)
                &&& (old(self).grown_buf(rec@).len() >= old(self).size ==> {
                    &&& r matches StepResult::Chunk(c) && buf_bytes(c) == old(self).grown_buf(rec@)
                    &&& final(self).emitted@ == old(self).emitted@.push(old(self).grown_buf(rec@))
                    &&& buf_bytes(final(self).buf).len() == 0
                })
                &&& (old(self).grown_buf(rec@).len() < old(self).size ==> {
                    &&& r is More
                    &&& final(self).emitted@ == old(self).emitted@
                    &&& buf_bytes(final(self).buf) == old(self).grown_buf(rec@)
                })
            }),
            ((ev is RowError || ev is WriteError) ==> {
                &&& r is More
                &&& final(self).state == old(self).state
                &&& final(self).recs@ == old(self).recs@
                &&& final(self).emitted@ == old(self).emitted@
                &&& buf_bytes(final(self).buf) == buf_bytes(old(self).buf)
            }),
            (ev is Exhausted ==> {
                &&& final(self).state is Finished
                &&& final(self).recs@ == old(self).recs@
                &&& r matches StepResult::Chunk(c) && buf_bytes(c) == old(self).closing_chunk()
                &&& final(self).emitted@ == old(self).emitted@.push(old(self).closing_chunk())
                &&& buf_bytes(final(self).buf).len() == 0
            }),
            (ev is NotReady ==> {
                &&& final(self).state == old(self).state
                &&& final(self).recs@ == old(self).recs@
                &&& (buf_bytes(old(self).buf).len() == 0 ==> r is Wait
                    && final(self).emitted@ == old(self).emitted@
                    && buf_bytes(final(self).buf).len() == 0)
                &&& (buf_bytes(old(self).buf).len() > 0 ==> {
                    &&& r matches StepResult::Chunk(c) && buf_bytes(c) == buf_bytes(old(self).buf)
                    &&& final(self).emitted@ == old(self).emitted@.push(buf_bytes(old(self).buf))
                    &&& buf_bytes(final(self).buf).len() == 0
                })
            }),
    {
        match ev {
            SourceEvent::Record(rec) => {
                let ghost pre = *old(self);
                match self.state {
                    RecStreamState::New => {
                        buf_extend(&mut self.buf, self.prefix.as_slice());
                        self.state = RecStreamState::Started;
                        proof {
                            self.buf_pieces@ = self.buf_pieces@.push(pre.prefix@);
                        }
                    }
                    RecStreamState::Started => {
                        buf_extend(&mut self.buf, self.separator.as_slice());
                        proof {
                            self.buf_pieces@ = self.buf_pieces@.push(pre.separator@);
                        }
                    }
                    RecStreamState::Finished => {
                        assert(false);
                    }
                    RecStreamState::Dead => {
                        assert(false);
                    }
                }
                buf_extend(&mut self.buf, rec.as_slice());
                proof {
                    self.recs@ = self.recs@.push(rec@);
                    self.buf_pieces@ = self.buf_pieces@.push(rec@);
                    lemma_accept_record(pre, *self, rec@);
                }
                let n: usize = buf_len(&self.buf);
                if n >= self.size {
                    let ghost mid = *self;
                    let c = buf_take(&mut self.buf);
                    proof {
                        self.emitted@ = self.emitted@.push(buf_bytes(c));
                        self.pieces@ = self.pieces@.push(mid.buf_pieces@);
                        self.buf_pieces@ = Seq::empty();
                        lemma_flush(mid, *self, buf_bytes(c));
                    }
                    StepResult::Chunk(c)
                } else {
                    StepResult::More
                }
            }
            SourceEvent::RowError => StepResult::More,
            SourceEvent::WriteError => StepResult::More,
            SourceEvent::Exhausted => {
                let ghost pre = *old(self);
                match self.state {
                    RecStreamState::New => {
                        buf_extend(&mut self.buf, self.prefix.as_slice());
                        proof {
                            self.buf_pieces@ = self.buf_pieces@.push(pre.prefix@);
                        }
                    }
                    _ => {}
                }
                buf_extend(&mut self.buf, self.suffix.as_slice());
                self.state = RecStreamState::Finished;
                proof {
                    self.buf_pieces@ = self.buf_pieces@.push(pre.suffix@);
                    lemma_close(pre, *self);
                }
                let ghost mid = *self;
                let c = buf_take(&mut self.buf);
                proof {
                    self.emitted@ = self.emitted@.push(buf_bytes(c));
                    self.pieces@ = self.pieces@.push(mid.buf_pieces@);
                    self.buf_pieces@ = Seq::empty();
                    lemma_flush(mid, *self, buf_bytes(c));
                }
                StepResult::Chunk(c)
            }
            SourceEvent::NotReady => {
                let n: usize = buf_len(&self.buf);
                if n == 0 {
                    StepResult::Wait
                } else {
                    let ghost mid = *self;
                    let c = buf_take(&mut self.buf);
                    proof {
                        self.emitted@ = self.emitted@.push(buf_bytes(c));
                        self.pieces@ = self.pieces@.push(mid.buf_pieces@);
                        self.buf_pieces@ = Seq::empty();
                        lemma_flush(mid, *self, buf_bytes(c));
                    }
                    StepResult::Chunk(c)
                }
            }
        }
    }
}

/// The record payloads a source script delivers: every record that precedes
/// the first exhaustion signal.
pub open spec fn delivered(events: Seq<SourceEvent>) -> Seq<Seq<u8>>
    decreases events.len(),
{
    if events.len() == 0 {
        Seq::<Seq<u8>>::empty()
    } else {
        match events[0] {
            SourceEvent::Record(r) => seq![r@] + delivered(events.drop_first()),
            SourceEvent::Exhausted => Seq::<Seq<u8>>::empty(),
            _ => delivered(events.drop_first()),
        }
    }
}

/// No exhaustion signal occurs in `events`.
pub open spec fn no_stop(events: Seq<SourceEvent>) -> bool {
    forall|j: int| 0 <= j < events.len() ==> !((#[trigger] events[j]) is Exhausted)
}

/// While no exhaustion signal has occurred, `delivered` distributes over
/// concatenation.
pub proof fn lemma_delivered_append(a: Seq<SourceEvent>, b: Seq<SourceEvent>)
    requires
        no_stop(a),
    ensures
        delivered(a + b) == delivered(a) + delivered(b),
    decreases a.len(),
{
    if a.len() == 0 {
        assert(a + b =~= b);
        assert(delivered(a) + delivered(b) =~= delivered(b));
    } else {
        assert((a + b).drop_first() =~= a.drop_first() + b);
        assert forall|j: int| 0 <= j < a.drop_first().len() implies !((#[trigger] a.drop_first()[j]) is Exhausted) by {
            assert(a.drop_first()[j] == a[j + 1]);
        }
        lemma_delivered_append(a.drop_first(), b);
        assert((a + b)[0] == a[0]);
        match a[0] {
            SourceEvent::Record(r) => {
                assert(seq![r@] + (delivered(a.drop_first()) + delivered(b)) =~= (seq![r@] + delivered(a.drop_first())) + delivered(b));
            }
            SourceEvent::Exhausted => {
                assert(false);
            }
            _ => {}
        }
    }
}

/// What a script of one event delivers.
pub proof fn lemma_delivered_one(ev: SourceEvent)
    ensures
        (ev matches SourceEvent::Record(r) ==> delivered(seq![ev]) == seq![r@]),
        !(ev is Record) ==> delivered(seq![ev]) == Seq::<Seq<u8>>::empty(),
{
    assert(seq![ev][0] == ev);
    assert(seq![ev].drop_first() =~= Seq::<SourceEvent>::empty());
    assert(delivered(Seq::<SourceEvent>::empty()) == Seq::<Seq<u8>>::empty());
    match ev {
        SourceEvent::Record(r) => {
            assert(delivered(seq![ev]) =~= seq![r@]);
        }
        SourceEvent::Exhausted => {
            assert(delivered(seq![ev]) =~= Seq::<Seq<u8>>::empty());
        }
        _ => {
            assert(delivered(seq![ev]) =~= Seq::<Seq<u8>>::empty());
        }
    }
}

/// The byte contents of a sequence of chunks, chunk by chunk.
pub open spec fn chunk_views(cs: Seq<bytes::BytesMut>) -> Seq<Seq<u8>> {
    cs.map_values(|c: bytes::BytesMut| buf_bytes(c))
}

proof fn lemma_chunk_views_push(cs: Seq<bytes::BytesMut>, c: bytes::BytesMut)
    ensures
        chunk_views(cs.push(c)) == chunk_views(cs).push(buf_bytes(c)),
{
    assert(chunk_views(cs.push(c)) =~= chunk_views(cs).push(buf_bytes(c)));
}

/// How far a state still is from `Dead`; only drives termination measures.
spec fn state_rank(s: RecStreamState) -> int {
    match s {
        RecStreamState::New => 2,
        RecStreamState::Started => 2,
        RecStreamState::Finished => 1,
        RecStreamState::Dead => 0,
    }
}

impl RecStream {
    /// Runs the machine over a finite script of source observations, the way
    /// the transport loop would, and collects every chunk it yields; if the
    /// script runs out without an exhaustion signal, the source counts as
    /// exhausted there. The chunks concatenate to exactly the framed document
    /// over the delivered records, in source order; the final chunk is always
    /// emitted, so at least one chunk comes out; a source that delivers no
    /// record yields exactly one chunk holding `prefix + suffix`.
    pub fn run_stream(&mut self, events: &Vec<SourceEvent>) -> (out: Vec<bytes::BytesMut>)
        requires
            old(self).wf(),
            old(self).state is New,
        ensures
            final(self).wf(),
            final(self).state is Dead,
            final(self).same_framing(*old(self)),
            final(self).recs@ == delivered(events@),
            chunk_views(out@) == final(self).emitted@,
            final(self).emitted@.flatten() == framed(old(self).prefix@, old(self).separator@, old(self).suffix@, delivered(events@)),
            out@.len() >= 1,
            delivered(events@).len() == 0 ==> out@.len() == 1
                && buf_bytes(out@[0]) == old(self).prefix@ + old(self).suffix@,
    {
        let mut out: Vec<bytes::BytesMut> = Vec::new();
        let mut i: usize = 0;
        let mut done = false;
        proof {
            assert(chunk_views(out@) =~= self.emitted@);
            assert(events@.take(0) =~= Seq::<SourceEvent>::empty());
            assert(self.recs@ =~= delivered(events@.take(0)));
        }
        while !done
            invariant
                self.wf(),
                self.same_framing(*old(self)),
                i <= events@.len(),
                chunk_views(out@) == self.emitted@,
                (self.state is New || self.state is Started) ==> no_stop(events@.take(i as int))
                    && self.recs@ == delivered(events@.take(i as int)),
                (self.state is Finished || self.state is Dead) ==> self.recs@ == delivered(events@)
                    && self.emitted@.len() >= 1,
                self.state is New ==> out@.len() == 0,
                ((self.state is Finished || self.state is Dead) && self.recs@.len() == 0)
                    ==> self.emitted@ == seq![old(self).prefix@ + old(self).suffix@],
                done ==> self.state is Dead,
            decreases 2 * (events@.len() - i) + state_rank(self.state) + (if done { 0int } else { 1int }),
        {
            let go = self.begin_poll();
            if !go {
                done = true;
            } else {
                let ghost i0 = i as int;
                let ghost pre = *self;
                if i < events.len() {
                    let ev = &events[i];
                    i = i + 1;
                    let step = self.on_event(ev);
                    proof {
                        assert(events@[i0] == *ev);
                        assert(events@.take(i0 + 1) =~= events@.take(i0) + seq![events@[i0]]);
                        lemma_delivered_append(events@.take(i0), seq![events@[i0]]);
                        lemma_delivered_one(events@[i0]);
                        if events@[i0] is Exhausted {
                            assert(events@ =~= events@.take(i0) + events@.skip(i0));
                            lemma_delivered_append(events@.take(i0), events@.skip(i0));
                            assert(events@.skip(i0)[0] is Exhausted);
                            assert(delivered(events@.skip(i0)) =~= Seq::<Seq<u8>>::empty());
                            assert(self.recs@ =~~= delivered(events@));
                        } else {
                            assert forall|j: int| 0 <= j < events@.take(i0 + 1).len() implies !((#[trigger] events@.take(i0 + 1)[j]) is Exhausted) by {
                                if j < i0 {
                                    assert(events@.take(i0 + 1)[j] == events@.take(i0)[j]);
                                } else {
                                    assert(events@.take(i0 + 1)[j] == events@[i0]);
                                }
                            }
                            assert(no_stop(events@.take(i0 + 1)));
                            match events@[i0] {
                                SourceEvent::Record(r) => {
                                    assert(self.recs@ =~~= delivered(events@.take(i0 + 1)));
                                }
                                _ => {
                                    assert(self.recs@ =~~= delivered(events@.take(i0 + 1)));
                                }
                            }
                        }
                        if pre.state is New && events@[i0] is Exhausted {
                            assert(pre.emitted@ =~~= Seq::<Seq<u8>>::empty());
                            assert(pre.closing_chunk() =~= pre.prefix@ + pre.suffix@);
                            assert(self.emitted@ =~~= seq![old(self).prefix@ + old(self).suffix@]);
                        }
                    }
                    match step {
                        StepResult::Chunk(c) => {
                            proof {
                                lemma_chunk_views_push(out@, c);
                            }
                            out.push(c);
                        }
                        StepResult::Wait => {}
                        StepResult::More => {}
                    }
                } else {
                    let step = self.on_event(&SourceEvent::Exhausted);
                    proof {
                        assert(events@.take(i0) =~= events@);
                        if pre.state is New {
                            assert(pre.emitted@ =~~= Seq::<Seq<u8>>::empty());
                            assert(pre.closing_chunk() =~= pre.prefix@ + pre.suffix@);
                            assert(self.emitted@ =~~= seq![old(self).prefix@ + old(self).suffix@]);
                        }
                    }
                    match step {
                        StepResult::Chunk(c) => {
                            proof {
                                lemma_chunk_views_push(out@, c);
                            }
                            out.push(c);
                        }
                        StepResult::Wait => {}
                        StepResult::More => {}
                    }
                }
            }
        }
        proof {
            lemma_stream_complete(*self);
            assert(out@.len() == chunk_views(out@).len());
            if delivered(events@).len() == 0 {
                assert(self.emitted@ == seq![old(self).prefix@ + old(self).suffix@]);
                assert(chunk_views(out@)[0] == buf_bytes(out@[0]));
            }
        }
        out
    }
}

/// A stream in a terminal state has emitted, across all its chunks, exactly
/// the framed document over the records it accepted: the prefix, the records
/// in source order joined by separators, and the suffix.
pub proof fn lemma_stream_complete(s: RecStream)
    requires
        s.wf(),
        s.state is Finished || s.state is Dead,
    ensures
        s.emitted@.flatten() == framed(s.prefix@, s.separator@, s.suffix@, s.recs@),
{
    lemma_full_tokens_flatten(s.prefix@, s.separator@, s.suffix@, s.recs@);
    assert(buf_bytes(s.buf) =~= Seq::<u8>::empty());
    assert(s.emitted@.flatten() + buf_bytes(s.buf) =~= s.emitted@.flatten());
}

/// Chunk boundaries never split a record or a framing token: every chunk the
/// stream has yielded is the concatenation of whole framing tokens, and the
/// chunks' token lists, followed by the tokens still buffered, make up
/// exactly the stream's committed token sequence.
pub proof fn lemma_chunks_whole_tokens(s: RecStream)
    requires
        s.wf(),
    ensures
        s.pieces@.len() == s.emitted@.len(),
        forall|k: int| 0 <= k < s.emitted@.len() ==> s.emitted@[k] == (#[trigger] s.pieces@[k]).flatten(),
        s.pieces@.flatten() + s.buf_pieces@ == s.toks(),
{
}

/// After the framing token and the record bytes are appended and the ghost
/// record and token lists are extended to match, the machine is well formed
/// again and its buffer holds exactly the grown contents.
proof fn lemma_accept_record(pre: RecStream, post: RecStream, rec: Seq<u8>)
    requires
        pre.wf(),
        pre.state is New || pre.state is Started,
        post.state is Started,
        post.same_framing(pre),
        post.recs@ == pre.recs@.push(rec),
        post.emitted@ == pre.emitted@,
        post.pieces@ == pre.pieces@,
        post.buf_pieces@ == pre.buf_pieces@
            .push(if pre.state is New { pre.prefix@ } else { pre.separator@ })
            .push(rec),
        buf_bytes(post.buf) == pre.grown_buf(rec),
    ensures
        post.wf(),
{
    let tok = if pre.state is New { pre.prefix@ } else { pre.separator@ };
    pre.buf_pieces@.lemma_flatten_push(tok);
    pre.buf_pieces@.push(tok).lemma_flatten_push(rec);
    lemma_record_tokens_push(pre.separator@, pre.recs@, rec);
    if pre.state is New {
        assert(pre.recs@ =~~= Seq::<Seq<u8>>::empty());
        assert(post.toks() =~~= seq![pre.prefix@] + seq![rec]);
        assert(post.buf_pieces@ =~~= seq![pre.prefix@] + seq![rec]);
        assert(post.pieces@.flatten() + post.buf_pieces@ =~~= post.toks());
        assert(post.toks() =~~= pre.toks() + seq![pre.prefix@] + seq![rec]);
        lemma_flatten_concat(pre.toks() + seq![pre.prefix@], seq![rec]);
        lemma_flatten_concat(pre.toks(), seq![pre.prefix@]);
        Seq::lemma_flatten_singleton(seq![pre.prefix@]);
        Seq::lemma_flatten_singleton(seq![rec]);
        assert(post.toks().flatten() =~= pre.toks().flatten() + tok + rec);
    } else {
        assert(post.toks() =~~= pre.toks().push(tok).push(rec));
        pre.toks().lemma_flatten_push(tok);
        pre.toks().push(tok).lemma_flatten_push(rec);
        assert(post.pieces@.flatten() + post.buf_pieces@ =~~= (pre.pieces@.flatten() + pre.buf_pieces@).push(tok).push(rec));
    }
    assert(post.emitted@.flatten() + buf_bytes(post.buf) =~= post.toks().flatten());
}

/// Closing the document (appending the prefix, if no record was written, and
/// the suffix, and moving to `Finished`) keeps the machine well formed,
/// except that the buffer is still to be flushed.
proof fn lemma_close(pre: RecStream, post: RecStream)
    requires
        pre.wf(),
        pre.state is New || pre.state is Started,
        post.state is Finished,
        post.same_framing(pre),
        post.recs@ == pre.recs@,
        post.emitted@ == pre.emitted@,
        post.pieces@ == pre.pieces@,
        post.buf_pieces@ == (if pre.state is New {
            pre.buf_pieces@.push(pre.prefix@)
        } else {
            pre.buf_pieces@
        }).push(pre.suffix@),
        buf_bytes(post.buf) == pre.closing_chunk(),
    ensures
        post.pieces@.len() == post.emitted@.len(),
        forall|k: int| 0 <= k < post.emitted@.len() ==> post.emitted@[k] == (#[trigger] post.pieces@[k]).flatten(),
        buf_bytes(post.buf) == post.buf_pieces@.flatten(),
        post.pieces@.flatten() + post.buf_pieces@ == post.toks(),
        post.emitted@.flatten() + buf_bytes(post.buf) == post.toks().flatten(),
{
    if pre.state is New {
        pre.buf_pieces@.lemma_flatten_push(pre.prefix@);
        pre.buf_pieces@.push(pre.prefix@).lemma_flatten_push(pre.suffix@);
        assert(pre.recs@ =~~= Seq::<Seq<u8>>::empty());
        assert(record_tokens(pre.separator@, pre.recs@) =~~= Seq::<Seq<u8>>::empty());
        assert(post.toks() =~~= seq![pre.prefix@] + seq![pre.suffix@]);
        assert(post.buf_pieces@ =~~= seq![pre.prefix@] + seq![pre.suffix@]);
        assert(post.pieces@.flatten() + post.buf_pieces@ =~~= post.toks());
        lemma_flatten_concat(seq![pre.prefix@], seq![pre.suffix@]);
        Seq::lemma_flatten_singleton(seq![pre.prefix@]);
        Seq::lemma_flatten_singleton(seq![pre.suffix@]);
        assert(post.emitted@.flatten() + buf_bytes(post.buf) =~= post.toks().flatten());
    } else {
        pre.buf_pieces@.lemma_flatten_push(pre.suffix@);
        assert(post.toks() =~~= pre.toks().push(pre.suffix@));
        pre.toks().lemma_flatten_push(pre.suffix@);
        assert(post.pieces@.flatten() + post.buf_pieces@ =~~= (pre.pieces@.flatten() + pre.buf_pieces@).push(pre.suffix@));
        assert(post.emitted@.flatten() + buf_bytes(post.buf) =~= post.toks().flatten());
    }
}

/// Flushing the buffer into a chunk (and recording its token list) keeps the
/// machine well formed: the chunk carries exactly the buffered whole tokens.
proof fn lemma_flush(mid: RecStream, post: RecStream, chunk: Seq<u8>)
    requires
        mid.pieces@.len() == mid.emitted@.len(),
        forall|k: int| 0 <= k < mid.emitted@.len() ==> mid.emitted@[k] == (#[trigger] mid.pieces@[k]).flatten(),
        buf_bytes(mid.buf) == mid.buf_pieces@.flatten(),
        mid.pieces@.flatten() + mid.buf_pieces@ == mid.toks(),
        mid.emitted@.flatten() + buf_bytes(mid.buf) == mid.toks().flatten(),
        mid.state is Started || mid.state is Finished,
        mid.state is Started ==> mid.recs@.len() >= 1,
        chunk == buf_bytes(mid.buf),
        post.state == mid.state,
        post.same_framing(mid),
        post.recs@ == mid.recs@,
        post.emitted@ == mid.emitted@.push(chunk),
        post.pieces@ == mid.pieces@.push(mid.buf_pieces@),
        post.buf_pieces@ == Seq::<Seq<u8>>::empty(),
        buf_bytes(post.buf).len() == 0,
    ensures
        post.wf(),
{
    mid.pieces@.lemma_flatten_push(mid.buf_pieces@);
    mid.emitted@.lemma_flatten_push(chunk);
    assert(post.toks() =~~= mid.toks());
    assert(buf_bytes(post.buf) =~= Seq::<u8>::empty());
    assert(post.pieces@.flatten() + post.buf_pieces@ =~~= mid.pieces@.flatten() + mid.buf_pieces@);
    assert(post.emitted@.flatten() + buf_bytes(post.buf) =~= mid.emitted@.flatten() + chunk);
    assert forall|k: int| 0 <= k < post.emitted@.len() implies post.emitted@[k] == (#[trigger] post.pieces@[k]).flatten() by {
        if k < mid.emitted@.len() {
            assert(mid.emitted@[k] == mid.pieces@[k].flatten());
        } else {
            assert(post.pieces@[k] == mid.buf_pieces@);
        }
    }
}

} // verus!
