//! The incremental tokenizer: full tokens or tag previews delivered to a handler, and the
//! slot that keeps confirmed previews.
use vstd::prelude::*;
use vstd::slice::{slice_subrange, slice_to_vec};
use crate::base::Chunk;
use crate::lexer::{classify_exec, scan_while_exec, ByteClass, LT, SLASH};
use crate::model::{initial_state, process, step, ScanState, Step};
use crate::token::{Event, LexUnit, NextOutputType, Span, StoredPreview, TagPreview, TokenDescriptor, TokenModel};

verus! {

/// The consumer of what the tokenizer recognizes.
pub trait LexUnitHandler {
    /// Receives a lex unit that is not a tag; `chunk` is the chunk its `raw` span points into.
    fn handle(&mut self, lex_unit: &LexUnit, chunk: &[u8]);

    /// Receives a start or end tag and answers how the tags that follow are delivered.
    fn handle_tag(&mut self, lex_unit: &LexUnit, chunk: &[u8]) -> NextOutputType;

    /// Receives a tag preview and answers how the tags that follow are delivered: with
    /// `LexUnit`, the previewed tag itself is delivered again in full.
    fn handle_tag_preview(&mut self, preview: &TagPreview, chunk: &[u8]) -> NextOutputType;
}

impl View for StoredPreview {
    type V = (Seq<u8>, bool);

    open spec fn view(&self) -> (Seq<u8>, bool) {
        (self.name@, self.end_tag)
    }
}

/// The previews kept so far, the latest preview, and whether it was confirmed.
pub struct PreviewSlot {
    pub stored: Seq<(Seq<u8>, bool)>,
    pub pending: Option<(Seq<u8>, bool)>,
    pub confirmed: bool,
}

/// Keeps a pending preview once it was confirmed, when the next preview or the end of the
/// stream comes.
pub open spec fn flush(p: PreviewSlot) -> Seq<(Seq<u8>, bool)> {
    if p.confirmed && p.pending is Some {
        p.stored.push(p.pending->0)
    } else {
        p.stored
    }
}

/// The preview slot after the events `evs` were delivered.
pub open spec fn preview_slot(evs: Seq<Event>) -> PreviewSlot
    decreases evs.len(),
{
    if evs.len() == 0 {
        PreviewSlot { stored: Seq::empty(), pending: None, confirmed: false }
    } else {
        let p = preview_slot(evs.drop_last());
        match evs.last() {
            Event::Preview { name, end_tag } => PreviewSlot {
                stored: flush(p),
                pending: Some((name, end_tag)),
                confirmed: false,
            },
            Event::Confirm => PreviewSlot { confirmed: true, ..p },
            Event::Unit { token: TokenModel::Eof, .. } => PreviewSlot {
                stored: flush(p),
                pending: None,
                confirmed: false,
            },
            _ => p,
        }
    }
}

/// Whether `e` ends the time of a pending preview: a newer preview, or the end of the stream.
pub open spec fn replaces_preview(e: Event) -> bool {
    e is Preview || crate::model::is_eof(e)
}

pub open spec fn has_confirm(b: Seq<Event>) -> bool {
    exists|i: int| 0 <= i < b.len() && #[trigger] b[i] == Event::Confirm
}

proof fn lemma_slot_through(a: Seq<Event>, name: Seq<u8>, end_tag: bool, b: Seq<Event>)
    requires
        forall|i: int| 0 <= i < b.len() ==> !replaces_preview(#[trigger] b[i]),
    ensures
        preview_slot(a.push(Event::Preview { name, end_tag }) + b) == (PreviewSlot {
            stored: flush(preview_slot(a)),
            pending: Some((name, end_tag)),
            confirmed: has_confirm(b),
        }),
    decreases b.len(),
{
    let ap = a.push(Event::Preview { name, end_tag });
    if b.len() == 0 {
        assert(ap + b =~= ap);
        assert(ap.drop_last() =~= a);
    } else {
        let b2 = b.drop_last();
        assert forall|i: int| 0 <= i < b2.len() implies !replaces_preview(#[trigger] b2[i]) by {
            assert(b2[i] == b[i]);
        }
        lemma_slot_through(a, name, end_tag, b2);
        assert((ap + b).drop_last() =~= ap + b2);
        assert((ap + b).last() == b.last());
        assert(!replaces_preview(b[b.len() - 1]));
        if has_confirm(b2) {
            let i = choose|i: int| 0 <= i < b2.len() && #[trigger] b2[i] == Event::Confirm;
            assert(b[i] == Event::Confirm);
        }
        if b.last() == Event::Confirm {
            assert(b[b.len() - 1] == Event::Confirm);
        }
        if has_confirm(b) && b.last() != Event::Confirm {
            let i = choose|i: int| 0 <= i < b.len() && #[trigger] b[i] == Event::Confirm;
            assert(b2[i] == Event::Confirm);
        }
    }
}

/// A preview is kept, exactly once, when a confirmation comes for it before the next
/// preview or the end of the stream; otherwise it is dropped and never kept.
pub proof fn lemma_preview_confirmation(
    a: Seq<Event>,
    name: Seq<u8>,
    end_tag: bool,
    b: Seq<Event>,
    x: Event,
)
    requires
        forall|i: int| 0 <= i < b.len() ==> !replaces_preview(#[trigger] b[i]),
        replaces_preview(x),
    ensures
        preview_slot((a.push(Event::Preview { name, end_tag }) + b).push(x)).stored == if has_confirm(b) {
            flush(preview_slot(a)).push((name, end_tag))
        } else {
            flush(preview_slot(a))
        },
{
    let evs = a.push(Event::Preview { name, end_tag }) + b;
    lemma_slot_through(a, name, end_tag, b);
    assert(evs.push(x).drop_last() =~= evs);
}

/// Whether `ds` gives the recorded answers `d` to the events numbered from 0.
pub open spec fn agrees(ds: spec_fn(int) -> NextOutputType, d: Seq<NextOutputType>) -> bool {
    forall|i: int| 0 <= i < d.len() ==> ds(i) == #[trigger] d[i]
}

fn is_letter_exec(b: u8) -> (r: bool)
    ensures
        r == crate::lexer::is_letter(b),
{
    (65 <= b && b <= 90) || (97 <= b && b <= 122)
}

/// The answers `d` as a function of the event number.
pub open spec fn answers(d: Seq<NextOutputType>) -> spec_fn(int) -> NextOutputType {
    |i: int| if 0 <= i < d.len() { d[i] } else { NextOutputType::LexUnit }
}

/// What the next step does, as computed from the unread input.
enum Plan {
    Blocked,
    Empty,
    Preview { start: usize, end: usize },
    Construct { token: TokenDescriptor, len: usize },
}

fn plan_step(rest: &[u8], st: ScanState, last: bool) -> (r: Plan)
    ensures
        r is Blocked <==> step(rest@, st, last) is Blocked,
        r is Empty ==> rest@.len() == 0 && step(rest@, st, last) == (if last {
            Step::EndOfStream
        } else {
            Step::Drained
        }),
        r matches Plan::Preview { start, end } ==> {
            &&& 1 <= start <= end < rest@.len()
            &&& step(rest@, st, last) == (Step::Advance {
                event: Some(Event::Preview { name: rest@.subrange(start as int, end as int), end_tag: rest@[1] == SLASH }),
                consumed: 0,
            })
        },
        r matches Plan::Construct { token, len } ==> {
            &&& 0 < len <= rest@.len()
            &&& !(token@ is Eof)
            &&& step(rest@, st, last) == (Step::Advance {
                event: if st.previewed {
                    if token@.is_tag() { Some(Event::Confirm) } else { None }
                } else if st.mode == NextOutputType::LexUnit {
                    Some(Event::Unit { token: token@, raw: rest@.subrange(0, len as int) })
                } else {
                    None
                },
                consumed: len as int,
            })
        },
{
    proof {
        reveal(step);
    }
    if rest.len() == 0 {
        return Plan::Empty;
    }
    if !st.previewed && st.mode == NextOutputType::TagPreview && rest.len() >= 2 && rest[0] == LT
        && (is_letter_exec(rest[1]) || (rest.len() >= 3 && rest[1] == SLASH && is_letter_exec(rest[2]))) {
        let ns: usize = if rest[1] == SLASH { 2 } else { 1 };
        let ne = scan_while_exec(rest, ns, ByteClass::TagName);
        proof {
            crate::lexer::lemma_scan_while_bounds(rest@, ns as int, ByteClass::TagName);
        }
        if ne < rest.len() {
            return Plan::Preview { start: ns, end: ne };
        }
    }
    proof {
        crate::lexer::lemma_classify_bounds(rest@, last);
    }
    match classify_exec(rest, last) {
        None => Plan::Blocked,
        Some((token, len)) => Plan::Construct { token, len },
    }
}

/// Tokenizing `s` from `st0` so far delivered `evs` from the event numbered `k0` on, and
/// what remains is tokenizing the input from `pos` in state `st`.
pub open spec fn carried(
    s: Seq<u8>,
    st0: ScanState,
    last: bool,
    ds: spec_fn(int) -> NextOutputType,
    k0: int,
    evs: Seq<Event>,
    st: ScanState,
    pos: int,
) -> bool {
    let o = process(s, st0, last, ds, k0);
    let o2 = process(s.subrange(pos, s.len() as int), st, last, ds, evs.len() as int);
    &&& o.events == evs.subrange(k0, evs.len() as int) + o2.events
    &&& o.blocked == o2.blocked
    &&& o.state == o2.state
}

proof fn lemma_inv_start(s: Seq<u8>, st0: ScanState, last: bool, ev0: Seq<Event>, d0: Seq<NextOutputType>)
    ensures
        forall|ds: spec_fn(int) -> NextOutputType| #[trigger] agrees(ds, d0)
            ==> carried(s, st0, last, ds, ev0.len() as int, ev0, st0, 0),
{
    assert(s.subrange(0, s.len() as int) =~= s);
    assert forall|ds: spec_fn(int) -> NextOutputType| #[trigger] agrees(ds, d0)
        implies carried(s, st0, last, ds, ev0.len() as int, ev0, st0, 0) by {
        let o = process(s, st0, last, ds, ev0.len() as int);
        assert(ev0.subrange(ev0.len() as int, ev0.len() as int) + o.events =~= o.events);
    }
}

proof fn lemma_agrees_prefix(ds: spec_fn(int) -> NextOutputType, dd: Seq<NextOutputType>, d: NextOutputType)
    requires
        agrees(ds, dd.push(d)),
    ensures
        agrees(ds, dd),
        ds(dd.len() as int) == d,
{
    assert forall|i: int| 0 <= i < dd.len() implies ds(i) == #[trigger] dd[i] by {
        assert(dd.push(d)[i] == dd[i]);
    }
    assert(dd.push(d)[dd.len() as int] == d);
}

proof fn lemma_inv_step(
    s: Seq<u8>,
    st0: ScanState,
    last: bool,
    ev0: Seq<Event>,
    evs: Seq<Event>,
    dd: Seq<NextOutputType>,
    st: ScanState,
    pos: int,
    advance: int,
    ev: Option<Event>,
    d: NextOutputType,
    st2: ScanState,
    evs2: Seq<Event>,
    dd2: Seq<NextOutputType>,
)
    requires
        ev matches Some(e) ==> evs2 == evs.push(e) && dd2 == dd.push(d),
        ev is None ==> evs2 == evs && dd2 == dd,
        0 <= pos,
        0 <= advance,
        pos + advance <= s.len(),
        ev0.len() <= evs.len() == dd.len(),
        step(s.subrange(pos, s.len() as int), st, last) == (Step::Advance { event: ev, consumed: advance }),
        st2 == crate::model::next_state(st, ev, d),
        forall|ds: spec_fn(int) -> NextOutputType| #[trigger] agrees(ds, dd)
            ==> carried(s, st0, last, ds, ev0.len() as int, evs, st, pos),
    ensures
        forall|ds: spec_fn(int) -> NextOutputType| #[trigger] agrees(ds, dd2)
            ==> carried(s, st0, last, ds, ev0.len() as int, evs2, st2, pos + advance),
{
    let rs = s.subrange(pos, s.len() as int);
    let k0 = ev0.len() as int;
    assert(rs.subrange(advance, rs.len() as int) =~= s.subrange(pos + advance, s.len() as int));
    match ev {
        Some(e) => {
            assert forall|ds: spec_fn(int) -> NextOutputType| #[trigger] agrees(ds, dd.push(d))
                implies carried(s, st0, last, ds, k0, evs.push(e), st2, pos + advance) by {
                lemma_agrees_prefix(ds, dd, d);
                let o2 = process(s.subrange(pos + advance, s.len() as int), st2, last, ds, evs.len() + 1 as int);
                assert(evs.push(e).subrange(k0, evs.len() + 1 as int) =~= evs.subrange(k0, evs.len() as int).push(e));
                assert(evs.subrange(k0, evs.len() as int) + (seq![e] + o2.events)
                    =~= evs.subrange(k0, evs.len() as int).push(e) + o2.events);
            }
        },
        None => {
            assert forall|ds: spec_fn(int) -> NextOutputType| #[trigger] agrees(ds, dd)
                implies carried(s, st0, last, ds, k0, evs, st2, pos + advance) by {
            }
        },
    }
}

proof fn lemma_inv_end(
    s: Seq<u8>,
    st0: ScanState,
    last: bool,
    ev0: Seq<Event>,
    d0: Seq<NextOutputType>,
    evs: Seq<Event>,
    dd: Seq<NextOutputType>,
    st: ScanState,
    pos: int,
    eof: Option<NextOutputType>,
    evs2: Seq<Event>,
    dd2: Seq<NextOutputType>,
)
    requires
        eof matches Some(d) ==> evs2 == evs.push(Event::Unit { token: TokenModel::Eof, raw: Seq::empty() }) && dd2 == dd.push(d),
        eof is None ==> evs2 == evs && dd2 == dd,
        0 <= pos <= s.len(),
        ev0.len() == d0.len(),
        ev0.len() <= evs.len() == dd.len(),
        evs.subrange(0, ev0.len() as int) == ev0,
        dd.subrange(0, ev0.len() as int) == d0,
        !(step(s.subrange(pos, s.len() as int), st, last) is Advance),
        eof is Some <==> step(s.subrange(pos, s.len() as int), st, last) is EndOfStream,
        forall|ds: spec_fn(int) -> NextOutputType| #[trigger] agrees(ds, dd)
            ==> carried(s, st0, last, ds, ev0.len() as int, evs, st, pos),
    ensures
        evs2.subrange(0, ev0.len() as int) == ev0,
        dd2.subrange(0, ev0.len() as int) == d0,
        forall|ds: spec_fn(int) -> NextOutputType| #[trigger] agrees(ds, dd2) ==> {
            let o = process(s, st0, last, ds, ev0.len() as int);
            &&& evs2 == ev0 + o.events
            &&& o.blocked == if step(s.subrange(pos, s.len() as int), st, last) is Blocked {
                s.len() - pos
            } else {
                0
            }
            &&& o.state == st
        },
{
    let k0 = ev0.len() as int;
    let rs = s.subrange(pos, s.len() as int);
    assert(evs =~= ev0 + evs.subrange(k0, evs.len() as int));
    match eof {
        Some(d) => {
            let e = Event::Unit { token: TokenModel::Eof, raw: Seq::<u8>::empty() };
            assert(evs.push(e).subrange(0, k0) =~= ev0);
            assert(dd.push(d).subrange(0, k0) =~= d0);
            assert forall|ds: spec_fn(int) -> NextOutputType| #[trigger] agrees(ds, dd.push(d)) implies {
                let o = process(s, st0, last, ds, k0);
                &&& evs.push(e) == ev0 + o.events
                &&& o.blocked == 0
                &&& o.state == st
            } by {
                lemma_agrees_prefix(ds, dd, d);
                let o = process(s, st0, last, ds, k0);
                assert(evs.push(e) =~= ev0 + o.events);
            }
        },
        None => {
            assert forall|ds: spec_fn(int) -> NextOutputType| #[trigger] agrees(ds, dd) implies {
                let o = process(s, st0, last, ds, k0);
                &&& evs == ev0 + o.events
                &&& o.blocked == if step(rs, st, last) is Blocked { s.len() - pos } else { 0 }
                &&& o.state == st
            } by {
                let o = process(s, st0, last, ds, k0);
                assert(evs == ev0 + o.events);
            }
        },
    }
}

/// The incremental tokenizer: it keeps its state, and the pending tag preview, between chunks.
pub struct Tokenizer<H> {
    handler: H,
    state: ScanState,
    pending_preview: Option<StoredPreview>,
    pending_confirmed: bool,
    stored_previews: Vec<StoredPreview>,
    events: Ghost<Seq<Event>>,
    decisions: Ghost<Seq<NextOutputType>>,
}

impl<H: LexUnitHandler> Tokenizer<H> {
    /// Every event delivered so far.
    pub closed spec fn events(&self) -> Seq<Event> {
        self.events@
    }

    /// The handler's answer to each delivered event (the mode then in force where it was
    /// not asked).
    pub closed spec fn decisions(&self) -> Seq<NextOutputType> {
        self.decisions@
    }

    pub closed spec fn state(&self) -> ScanState {
        self.state
    }

    pub closed spec fn wf(&self) -> bool {
        let slot = preview_slot(self.events@);
        &&& self.events@.len() == self.decisions@.len()
        &&& self.stored_previews@.map_values(|p: StoredPreview| p@) == slot.stored
        &&& self.pending_confirmed == slot.confirmed
        &&& match self.pending_preview {
            Some(p) => slot.pending == Some(p@),
            None => slot.pending is None,
        }
    }

    pub fn new(handler: H, initial_mode: NextOutputType) -> (r: Self)
        ensures
            r.wf(),
            r.events() == Seq::<Event>::empty(),
            r.state() == initial_state(initial_mode),
    {
        let r = Tokenizer {
            handler,
            state: ScanState { mode: initial_mode, previewed: false },
            pending_preview: None,
            pending_confirmed: false,
            stored_previews: Vec::new(),
            events: Ghost(Seq::empty()),
            decisions: Ghost(Seq::empty()),
        };
        assert(r.stored_previews@.map_values(|p: StoredPreview| p@) =~= Seq::empty());
        r
    }

    /// The confirmed previews kept so far, in the order they came.
    pub fn stored_previews(&self) -> (r: &Vec<StoredPreview>)
        requires
            self.wf(),
        ensures
            r@.map_values(|p: StoredPreview| p@) == preview_slot(self.events()).stored,
    {
        &self.stored_previews
    }

    /// The handler that receives the output.
    pub fn handler(&self) -> (r: &H) {
        &self.handler
    }

    /// The current output mode.
    pub fn next_output_type(&self) -> (r: NextOutputType)
        ensures
            r == self.state().mode,
    {
        self.state.mode
    }

    /// Tokenizes `chunk`, delivering what it recognizes to the handler in input order, and
    /// returns how many trailing bytes of the chunk belong to a construct that is not
    /// complete yet (none when the chunk is the last one).
    pub fn tokenize(&mut self, chunk: &Chunk) -> (r: usize)
        requires
            old(self).wf(),
        ensures
            final(self).wf(),
            old(self).decisions().len() <= final(self).decisions().len(),
            final(self).decisions().subrange(0, old(self).decisions().len() as int)
                == old(self).decisions(),
            forall|ds: spec_fn(int) -> NextOutputType|
                agrees(ds, final(self).decisions()) ==> {
                    let o = #[trigger] process(
                        chunk.bytes_spec(),
                        old(self).state(),
                        chunk.is_last_spec(),
                        ds,
                        old(self).events().len() as int,
                    );
                    &&& final(self).events() == old(self).events() + o.events
                    &&& r == o.blocked
                    &&& final(self).state() == o.state
                },
    {
        let bytes = chunk.bytes();
        let last = chunk.is_last();
        let n = bytes.len();
        let ghost s = bytes@;
        let ghost st0 = self.state;
        let ghost ev0 = self.events@;
        let ghost d0 = self.decisions@;
        let ghost k0 = ev0.len() as int;
        let mut pos: usize = 0;
        proof {
            lemma_inv_start(s, st0, last, ev0, d0);
        }
        loop
            invariant
                n == s.len(),
                bytes@ == s,
                last == chunk.is_last_spec(),
                s == chunk.bytes_spec(),
                pos <= n,
                self.wf(),
                k0 == ev0.len(),
                ev0 == old(self).events(),
                d0 == old(self).decisions(),
                st0 == old(self).state(),
                self.events@.len() >= k0,
                self.events@.subrange(0, k0) == ev0,
                self.decisions@.subrange(0, k0) == d0,
                forall|ds: spec_fn(int) -> NextOutputType| #[trigger] agrees(ds, self.decisions@)
                    ==> carried(s, st0, last, ds, k0, self.events@, self.state, pos as int),
            decreases crate::model::rank(s.subrange(pos as int, n as int), self.state),
        {
            let rest = slice_subrange(bytes, pos, n);
            let ghost st = self.state;
            let ghost evs = self.events@;
            let ghost dd = self.decisions@;
            let plan = plan_step(rest, self.state, last);
            proof {
                crate::model::lemma_step_facts(rest@, st, last);
            }
            match plan {
                Plan::Blocked => {
                    proof {
                        lemma_inv_end(s, st0, last, ev0, d0, evs, dd, st, pos as int, None, self.events@, self.decisions@);
                    }
                    return n - pos;
                },
                Plan::Empty => {
                    if last {
                        let d = self.state.mode;
                        let unit = LexUnit { token: TokenDescriptor::Eof, raw: Span { start: pos, end: pos } };
                        self.handler.handle(&unit, bytes);
                        self.record_eof(d);
                        proof {
                            lemma_inv_end(s, st0, last, ev0, d0, evs, dd, st, pos as int, Some(d), self.events@, self.decisions@);
                        }
                    } else {
                        proof {
                            lemma_inv_end(s, st0, last, ev0, d0, evs, dd, st, pos as int, None, self.events@, self.decisions@);
                        }
                    }
                    return 0;
                },
                Plan::Preview { start, end } => {
                    let end_tag = rest[1] == SLASH;
                    let preview = TagPreview { name: Span { start: pos + start, end: pos + end }, end_tag };
                    let name = slice_to_vec(slice_subrange(rest, start, end));
                    let d = self.handler.handle_tag_preview(&preview, bytes);
                    let ghost e = Event::Preview { name: name@, end_tag };
                    self.record_preview(StoredPreview { name, end_tag }, d);
                    self.state = ScanState { mode: d, previewed: d == NextOutputType::TagPreview };
                    proof {
                        lemma_inv_step(s, st0, last, ev0, evs, dd, st, pos as int, 0, Some(e), d, self.state, self.events@, self.decisions@);
                    }
                },
                Plan::Construct { token, len } => {
                    if self.state.previewed {
                        if token.is_tag() {
                            let d = self.state.mode;
                            self.record_confirm(d);
                            self.state = ScanState { mode: self.state.mode, previewed: false };
                            proof {
                                lemma_inv_step(s, st0, last, ev0, evs, dd, st, pos as int, len as int, Some(Event::Confirm), d, self.state, self.events@, self.decisions@);
                            }
                        } else {
                            self.state = ScanState { mode: self.state.mode, previewed: false };
                            proof {
                                lemma_inv_step(s, st0, last, ev0, evs, dd, st, pos as int, len as int, None, st.mode, self.state, self.events@, self.decisions@);
                            }
                        }
                    } else if self.state.mode == NextOutputType::LexUnit {
                        let is_tag = token.is_tag();
                        let ghost e = Event::Unit { token: token@, raw: rest@.subrange(0, len as int) };
                        let unit = LexUnit { token, raw: Span { start: pos, end: pos + len } };
                        if is_tag {
                            let d = self.handler.handle_tag(&unit, bytes);
                            self.record(Ghost(e), d);
                            self.state = ScanState { mode: d, previewed: false };
                            proof {
                                lemma_inv_step(s, st0, last, ev0, evs, dd, st, pos as int, len as int, Some(e), d, self.state, self.events@, self.decisions@);
                            }
                        } else {
                            self.handler.handle(&unit, bytes);
                            let d = self.state.mode;
                            self.record(Ghost(e), d);
                            proof {
                                lemma_inv_step(s, st0, last, ev0, evs, dd, st, pos as int, len as int, Some(e), d, self.state, self.events@, self.decisions@);
                            }
                        }
                    } else {
                        proof {
                            lemma_inv_step(s, st0, last, ev0, evs, dd, st, pos as int, len as int, None, st.mode, self.state, self.events@, self.decisions@);
                        }
                    }
                    pos = pos + len;
                },
            }
        }
    }

    fn record(&mut self, e: Ghost<Event>, d: NextOutputType)
        requires
            old(self).wf(),
            !(e@ is Preview || e@ is Confirm || e@ matches Event::Unit { token: TokenModel::Eof, .. }),
        ensures
            final(self).wf(),
            final(self).events@ == old(self).events@.push(e@),
            final(self).decisions@ == old(self).decisions@.push(d),
            final(self).state == old(self).state,
            final(self).handler == old(self).handler,
    {
        assert(self.events@.push(e@).drop_last() =~= self.events@);
        self.events = Ghost(self.events@.push(e@));
        self.decisions = Ghost(self.decisions@.push(d));
    }

    fn flush_pending(&mut self)
        requires
            old(self).wf(),
        ensures
            final(self).stored_previews@.map_values(|p: StoredPreview| p@) == flush(
                preview_slot(old(self).events@),
            ),
            final(self).pending_preview is None,
            final(self).events == old(self).events,
            final(self).decisions == old(self).decisions,
            final(self).state == old(self).state,
            final(self).handler == old(self).handler,
    {
        let ghost before = self.stored_previews@;
        if self.pending_confirmed {
            if let Some(p) = self.pending_preview.take() {
                self.stored_previews.push(p);
                assert(self.stored_previews@.map_values(|p: StoredPreview| p@) =~= before.map_values(
                    |p: StoredPreview| p@,
                ).push(p@));
            }
        }
        self.pending_preview = None;
    }

    fn record_preview(&mut self, p: StoredPreview, d: NextOutputType)
        requires
            old(self).wf(),
        ensures
            final(self).wf(),
            final(self).events@ == old(self).events@.push(Event::Preview { name: p.name@, end_tag: p.end_tag }),
            final(self).decisions@ == old(self).decisions@.push(d),
            final(self).state == old(self).state,
            final(self).handler == old(self).handler,
    {
        let ghost e = Event::Preview { name: p.name@, end_tag: p.end_tag };
        assert(self.events@.push(e).drop_last() =~= self.events@);
        self.flush_pending();
        self.pending_preview = Some(p);
        self.pending_confirmed = false;
        self.events = Ghost(self.events@.push(e));
        self.decisions = Ghost(self.decisions@.push(d));
    }

    fn record_confirm(&mut self, d: NextOutputType)
        requires
            old(self).wf(),
        ensures
            final(self).wf(),
            final(self).events@ == old(self).events@.push(Event::Confirm),
            final(self).decisions@ == old(self).decisions@.push(d),
            final(self).state == old(self).state,
            final(self).handler == old(self).handler,
    {
        assert(self.events@.push(Event::Confirm).drop_last() =~= self.events@);
        self.pending_confirmed = true;
        self.events = Ghost(self.events@.push(Event::Confirm));
        self.decisions = Ghost(self.decisions@.push(d));
    }

    fn record_eof(&mut self, d: NextOutputType)
        requires
            old(self).wf(),
        ensures
            final(self).wf(),
            final(self).events@ == old(self).events@.push(
                Event::Unit { token: TokenModel::Eof, raw: Seq::empty() },
            ),
            final(self).decisions@ == old(self).decisions@.push(d),
            final(self).state == old(self).state,
            final(self).handler == old(self).handler,
    {
        let ghost e = Event::Unit { token: TokenModel::Eof, raw: Seq::empty() };
        assert(self.events@.push(e).drop_last() =~= self.events@);
        self.flush_pending();
        self.pending_confirmed = false;
        self.events = Ghost(self.events@.push(e));
        self.decisions = Ghost(self.decisions@.push(d));
    }
}

} // verus!
