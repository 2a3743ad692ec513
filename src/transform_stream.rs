//! The write/end protocol that stitches chunk boundaries together through the carry-over buffer.
use vstd::prelude::*;
use vstd::slice::slice_subrange;
use crate::base::{Buffer, Chunk};
use crate::errors::Error;
use crate::model::{
    concat, initial_state, is_eof, lemma_process_bounds, lemma_single_eof, lemma_stream_chunking_transparency,
    lemma_writes_push, lemma_writes_then_end, process, writes, ScanState,
};
use crate::token::{Event, NextOutputType};
use crate::tokenizer::{agrees, LexUnitHandler, Tokenizer};

verus! {

/// The entry point: feeds written bytes to the tokenizer, carrying the bytes of an
/// incomplete trailing construct over to the next write.
pub struct TransformStream<H> {
    tokenizer: Tokenizer<H>,
    buffer: Buffer,
    has_buffered_data: bool,
    finished: bool,
    written: Ghost<Seq<Seq<u8>>>,
    initial: Ghost<ScanState>,
    failed: Ghost<bool>,
}

/// The writes `written` from state `init` delivered `events` and left `pending` carried and
/// the tokenizer in `state`, where the handler answers as `ds` says.
pub open spec fn history(
    written: Seq<Seq<u8>>,
    init: ScanState,
    ds: spec_fn(int) -> NextOutputType,
    events: Seq<Event>,
    pending: Seq<u8>,
    state: ScanState,
) -> bool {
    let w = writes(written, Seq::empty(), init, ds, 0);
    &&& w.0 == events
    &&& w.1 == pending
    &&& w.2 == state
}

proof fn lemma_history_write(
    written: Seq<Seq<u8>>,
    x: Seq<u8>,
    init: ScanState,
    old_events: Seq<Event>,
    old_decisions: Seq<NextOutputType>,
    old_pending: Seq<u8>,
    old_state: ScanState,
    events: Seq<Event>,
    decisions: Seq<NextOutputType>,
    pending: Seq<u8>,
    state: ScanState,
)
    requires
        forall|ds: spec_fn(int) -> NextOutputType| #[trigger] agrees(ds, old_decisions)
            ==> history(written, init, ds, old_events, old_pending, old_state),
        old_decisions.len() <= decisions.len(),
        decisions.subrange(0, old_decisions.len() as int) == old_decisions,
        forall|ds: spec_fn(int) -> NextOutputType| #[trigger] agrees(ds, decisions) ==> {
            let c = old_pending + x;
            let o = process(c, old_state, false, ds, old_events.len() as int);
            &&& events == old_events + o.events
            &&& state == o.state
            &&& pending == c.subrange(c.len() - o.blocked, c.len() as int)
        },
    ensures
        forall|ds: spec_fn(int) -> NextOutputType| #[trigger] agrees(ds, decisions)
            ==> history(written.push(x), init, ds, events, pending, state),
{
    assert forall|ds: spec_fn(int) -> NextOutputType| #[trigger] agrees(ds, decisions)
        implies history(written.push(x), init, ds, events, pending, state) by {
        assert forall|i: int| 0 <= i < old_decisions.len() implies ds(i) == #[trigger] old_decisions[i] by {
            assert(decisions.subrange(0, old_decisions.len() as int)[i] == decisions[i]);
        }
        assert(agrees(ds, old_decisions));
        lemma_writes_push(written, x, Seq::empty(), init, ds, 0);
    }
}

impl<H: LexUnitHandler> TransformStream<H> {
    pub closed spec fn wf(&self) -> bool {
        &&& self.tokenizer.wf()
        &&& self.buffer.wf()
        &&& self.has_buffered_data ==> self.buffer@.len() > 0
        &&& !self.failed@ && !self.finished ==> forall|ds: spec_fn(int) -> NextOutputType|
            #[trigger] agrees(ds, self.tokenizer.decisions()) ==> history(
                self.written@,
                self.initial@,
                ds,
                self.tokenizer.events(),
                self.pending(),
                self.tokenizer.state(),
            )
    }

    /// Everything written so far, one entry per write.
    pub closed spec fn written(&self) -> Seq<Seq<u8>> {
        self.written@
    }

    /// The state the stream started in.
    pub closed spec fn initial(&self) -> ScanState {
        self.initial@
    }

    /// Whether a write has failed.
    pub closed spec fn failed(&self) -> bool {
        self.failed@
    }

    /// The bytes carried over from the previous write.
    pub closed spec fn pending(&self) -> Seq<u8> {
        if self.has_buffered_data {
            self.buffer@
        } else {
            Seq::empty()
        }
    }

    pub closed spec fn capacity(&self) -> nat {
        self.buffer.capacity_spec()
    }

    pub closed spec fn is_finished(&self) -> bool {
        self.finished
    }

    pub closed spec fn events(&self) -> Seq<Event> {
        self.tokenizer.events()
    }

    pub closed spec fn decisions(&self) -> Seq<NextOutputType> {
        self.tokenizer.decisions()
    }

    pub closed spec fn state(&self) -> ScanState {
        self.tokenizer.state()
    }

    /// A stream whose carry-over buffer holds at most `buffer_capacity` bytes; tags are
    /// delivered in full until the handler asks otherwise.
    pub fn new(buffer_capacity: usize, lex_unit_handler: H) -> (r: Self)
        ensures
            r.wf(),
            !r.is_finished(),
            r.pending() == Seq::<u8>::empty(),
            r.capacity() == buffer_capacity,
            r.events() == Seq::<Event>::empty(),
            r.state() == initial_state(NextOutputType::LexUnit),
            r.written() == Seq::<Seq<u8>>::empty(),
            r.initial() == initial_state(NextOutputType::LexUnit),
            !r.failed(),
    {
        Self::with_output_type(buffer_capacity, lex_unit_handler, NextOutputType::LexUnit)
    }

    /// A stream like `new`'s that starts in the output mode `initial_output_type`.
    pub fn with_output_type(
        buffer_capacity: usize,
        lex_unit_handler: H,
        initial_output_type: NextOutputType,
    ) -> (r: Self)
        ensures
            r.wf(),
            !r.is_finished(),
            r.pending() == Seq::<u8>::empty(),
            r.capacity() == buffer_capacity,
            r.events() == Seq::<Event>::empty(),
            r.state() == initial_state(initial_output_type),
            r.written() == Seq::<Seq<u8>>::empty(),
            r.initial() == initial_state(initial_output_type),
            !r.failed(),
    {
        TransformStream {
            tokenizer: Tokenizer::new(lex_unit_handler, initial_output_type),
            buffer: Buffer::new(buffer_capacity),
            has_buffered_data: false,
            finished: false,
            written: Ghost(Seq::empty()),
            initial: Ghost(initial_state(initial_output_type)),
            failed: Ghost(false),
        }
    }

    /// Tokenizes the carried bytes followed by `data`, as a chunk that more input follows.
    /// Fails when the bytes to carry over do not fit in the buffer; when bytes are already
    /// carried, that is checked on all of them together with `data`, before tokenizing.
    pub fn write(&mut self, data: &[u8]) -> (r: Result<(), Error>)
        requires
            old(self).wf(),
            !old(self).is_finished(),
        ensures
            final(self).wf(),
            !final(self).is_finished(),
            final(self).capacity() == old(self).capacity(),
            old(self).decisions().len() <= final(self).decisions().len(),
            final(self).decisions().subrange(0, old(self).decisions().len() as int)
                == old(self).decisions(),
            final(self).written() == old(self).written().push(data@),
            final(self).initial() == old(self).initial(),
            final(self).failed() == (old(self).failed() || r is Err),
            old(self).pending().len() > 0 && old(self).pending().len() + data@.len()
                > old(self).capacity() ==> {
                &&& r == Err::<(), Error>(Error::BufferCapacityExceeded)
                &&& final(self).events() == old(self).events()
                &&& final(self).pending() == old(self).pending()
                &&& final(self).state() == old(self).state()
            },
            forall|ds: spec_fn(int) -> NextOutputType|
                agrees(ds, final(self).decisions()) && (#[trigger] process(
                    old(self).pending() + data@,
                    old(self).state(),
                    false,
                    ds,
                    old(self).events().len() as int,
                )).blocked > old(self).capacity() ==> r == Err::<(), Error>(
                    Error::BufferCapacityExceeded,
                ),
            forall|ds: spec_fn(int) -> NextOutputType|
                agrees(ds, final(self).decisions()) && !(old(self).pending().len() > 0
                    && old(self).pending().len() + data@.len() > old(self).capacity()) ==> {
                    let chunk = old(self).pending() + data@;
                    let o = #[trigger] process(
                        old(self).pending() + data@,
                        old(self).state(),
                        false,
                        ds,
                        old(self).events().len() as int,
                    );
                    &&& final(self).events() == old(self).events() + o.events
                    &&& final(self).state() == o.state
                    &&& o.blocked > old(self).capacity() ==> r == Err::<(), Error>(
                        Error::BufferCapacityExceeded,
                    )
                    &&& o.blocked <= old(self).capacity() ==> {
                        &&& r is Ok
                        &&& final(self).pending() == chunk.subrange(
                            chunk.len() - o.blocked,
                            chunk.len() as int,
                        )
                    }
                },
    {
        let ghost chunk_bytes = self.pending() + data@;
        let ghost old_decisions = self.tokenizer.decisions();
        let ghost old_events = self.tokenizer.events();
        let ghost old_pending = self.pending();
        let ghost old_state = self.tokenizer.state();
        let buffered = self.has_buffered_data;
        let blocked_byte_count = if buffered {
            if let Err(e) = self.buffer.append(data) {
                self.written = Ghost(self.written@.push(data@));
                self.failed = Ghost(true);
                return Err(e);
            }
            let chunk = Chunk::from_slice(self.buffer.bytes());
            self.tokenizer.tokenize(&chunk)
        } else {
            assert(data@ =~= chunk_bytes);
            let chunk = Chunk::from_slice(data);
            self.tokenizer.tokenize(&chunk)
        };
        proof {
            lemma_process_bounds(
                chunk_bytes,
                old(self).state(),
                false,
                crate::tokenizer::answers(self.tokenizer.decisions()),
                old(self).events().len() as int,
            );
        }
        let need_to_buffer = blocked_byte_count > 0;
        if need_to_buffer {
            if buffered {
                self.buffer.shrink_to_last(blocked_byte_count);
            } else {
                let blocked_bytes = slice_subrange(data, data.len() - blocked_byte_count, data.len());
                if let Err(e) = self.buffer.init_with(blocked_bytes) {
                    self.has_buffered_data = false;
                    self.written = Ghost(self.written@.push(data@));
                    self.failed = Ghost(true);
                    return Err(e);
                }
            }
        }
        self.has_buffered_data = need_to_buffer;
        proof {
            if !need_to_buffer {
                assert(chunk_bytes.subrange(chunk_bytes.len() as int, chunk_bytes.len() as int) =~= Seq::<u8>::empty());
            }
            assert forall|ds: spec_fn(int) -> NextOutputType| #[trigger] agrees(ds, self.tokenizer.decisions()) implies {
                let c = old_pending + data@;
                let o = process(c, old_state, false, ds, old_events.len() as int);
                &&& self.tokenizer.events() == old_events + o.events
                &&& self.tokenizer.state() == o.state
                &&& self.pending() == c.subrange(c.len() - o.blocked, c.len() as int)
            } by {
                let o = process(chunk_bytes, old_state, false, ds, old_events.len() as int);
            }
            if !self.failed@ {
                lemma_history_write(
                    self.written@,
                    data@,
                    self.initial@,
                    old_events,
                    old_decisions,
                    old_pending,
                    old_state,
                    self.tokenizer.events(),
                    self.tokenizer.decisions(),
                    self.pending(),
                    self.tokenizer.state(),
                );
            }
        }
        self.written = Ghost(self.written@.push(data@));
        Ok(())
    }

    /// Tokenizes the carried bytes as the last chunk, which ends with the `Eof` token.
    pub fn end(&mut self) -> (r: Result<(), Error>)
        requires
            old(self).wf(),
            !old(self).is_finished(),
        ensures
            final(self).wf(),
            final(self).is_finished(),
            r is Ok,
            !old(self).failed() ==> forall|ds: spec_fn(int) -> NextOutputType|
                agrees(ds, final(self).decisions()) ==> final(self).events() == (#[trigger] process(
                    concat(old(self).written()),
                    old(self).initial(),
                    true,
                    ds,
                    0,
                )).events,
            !old(self).failed() ==> final(self).events().len() > 0 && forall|i: int|
                0 <= i < final(self).events().len() ==> (is_eof(#[trigger] final(self).events()[i])
                    <==> i == final(self).events().len() - 1),
            old(self).decisions().len() <= final(self).decisions().len(),
            final(self).decisions().subrange(0, old(self).decisions().len() as int)
                == old(self).decisions(),
            forall|ds: spec_fn(int) -> NextOutputType|
                agrees(ds, final(self).decisions()) ==> {
                    let o = #[trigger] process(
                        old(self).pending(),
                        old(self).state(),
                        true,
                        ds,
                        old(self).events().len() as int,
                    );
                    &&& final(self).events() == old(self).events() + o.events
                    &&& final(self).state() == o.state
                },
    {
        let ghost old_decisions = self.tokenizer.decisions();
        let ghost old_events = self.tokenizer.events();
        let ghost old_pending = self.pending();
        let ghost old_state = self.tokenizer.state();
        self.finished = true;
        if self.has_buffered_data {
            let chunk = Chunk::last(self.buffer.bytes());
            self.tokenizer.tokenize(&chunk);
        } else {
            let chunk = Chunk::last_empty();
            self.tokenizer.tokenize(&chunk);
        }
        proof {
            if !self.failed@ {
                assert forall|ds: spec_fn(int) -> NextOutputType| #[trigger] agrees(ds, self.tokenizer.decisions())
                    implies self.tokenizer.events() == process(concat(self.written@), self.initial@, true, ds, 0).events by {
                    assert forall|i: int| 0 <= i < old_decisions.len() implies ds(i) == #[trigger] old_decisions[i] by {
                        assert(self.tokenizer.decisions().subrange(0, old_decisions.len() as int)[i]
                            == self.tokenizer.decisions()[i]);
                    }
                    assert(agrees(ds, old_decisions));
                    let o = process(old_pending, old_state, true, ds, old_events.len() as int);
                    lemma_writes_then_end(self.written@, Seq::empty(), self.initial@, ds, 0);
                    lemma_stream_chunking_transparency(self.written@, Seq::empty(), self.initial@, ds, 0);
                    assert(Seq::<u8>::empty() + concat(self.written@) =~= concat(self.written@));
                }
                let ds = crate::tokenizer::answers(self.tokenizer.decisions());
                assert(agrees(ds, self.tokenizer.decisions()));
                let o = process(concat(self.written@), self.initial@, true, ds, 0);
                lemma_single_eof(concat(self.written@), self.initial@, true, ds, 0);
            }
        }
        Ok(())
    }

    /// The tokenizer, for reading its output mode and stored previews.
    pub fn get_tokenizer(&self) -> (r: &Tokenizer<H>)
        requires
            self.wf(),
        ensures
            r.wf(),
            r.events() == self.events(),
            r.state() == self.state(),
    {
        &self.tokenizer
    }
}

} // verus!
