//! The tokenizer as spec functions over the unread input, and the laws that make chunked
//! input tokenize as if it came in one piece.
use vstd::prelude::*;
use crate::lexer::{
    classify, is_letter, lemma_classify_bounds, lemma_classify_extend, lemma_scan_while_bounds,
    lemma_scan_while_extend, scan_while, tag_end, ByteClass, Scan, GT, LT, SLASH,
};
use crate::token::{Event, NextOutputType, TokenModel};

verus! {

/// The tokenizer state that outlives a chunk.
#[derive(Debug, Clone, Copy, PartialEq, Eq, Structural)]
pub struct ScanState {
    /// How tags are delivered.
    pub mode: NextOutputType,
    /// The tag at the start of the unread input was already previewed.
    pub previewed: bool,
}

/// Whether `s` starts with `<` and a letter, or `</` and a letter.
pub open spec fn is_tag_open(s: Seq<u8>) -> bool {
    &&& s.len() >= 2
    &&& s[0] == LT
    &&& (is_letter(s[1]) || (s.len() >= 3 && s[1] == SLASH && is_letter(s[2])))
}

pub open spec fn tag_name_start(s: Seq<u8>) -> int {
    if s[1] == SLASH {
        2
    } else {
        1
    }
}

pub open spec fn tag_name_end(s: Seq<u8>) -> int {
    scan_while(s, tag_name_start(s), ByteClass::TagName)
}

/// One step of the tokenizer on the unread input `s`.
pub enum Step {
    /// The next construct is incomplete: `s` is carried to the next chunk.
    Blocked,
    /// Nothing is left and more input may follow.
    Drained,
    /// Nothing is left and the stream is over.
    EndOfStream,
    /// `consumed` bytes are done with, delivering `event` if any.
    Advance { event: Option<Event>, consumed: int },
}

#[verifier::opaque]
pub open spec fn step(s: Seq<u8>, st: ScanState, last: bool) -> Step {
    if s.len() == 0 {
        if last {
            Step::EndOfStream
        } else {
            Step::Drained
        }
    } else if !st.previewed && st.mode == NextOutputType::TagPreview && is_tag_open(s)
        && tag_name_end(s) < s.len() {
        Step::Advance {
            event: Some(
                Event::Preview {
                    name: s.subrange(tag_name_start(s), tag_name_end(s)),
                    end_tag: s[1] == SLASH,
                },
            ),
            consumed: 0,
        }
    } else {
        match classify(s, last) {
            Scan::Blocked => Step::Blocked,
            Scan::Token { token, len } => Step::Advance {
                event: if st.previewed {
                    if token.is_tag() {
                        Some(Event::Confirm)
                    } else {
                        None
                    }
                } else if st.mode == NextOutputType::LexUnit {
                    Some(Event::Unit { token, raw: s.subrange(0, len) })
                } else {
                    None
                },
                consumed: len,
            },
        }
    }
}

pub proof fn lemma_step_facts(s: Seq<u8>, st: ScanState, last: bool)
    ensures
        step(s, st, last) is Drained ==> s.len() == 0 && !last,
        step(s, st, last) is EndOfStream ==> s.len() == 0 && last,
        step(s, st, last) matches Step::Advance { event, consumed } ==> {
            &&& 0 <= consumed <= s.len()
            &&& consumed == 0 ==> {
                &&& !st.previewed
                &&& st.mode == NextOutputType::TagPreview
                &&& event matches Some(e) && e is Preview
            }
        },
{
    reveal(step);
    lemma_classify_bounds(s, last);
}

/// Whether the handler's answer to `e` picks the next output mode.
pub open spec fn consults(e: Event) -> bool {
    match e {
        Event::Unit { token, .. } => token.is_tag(),
        Event::Preview { .. } => true,
        Event::Confirm => false,
    }
}

/// The state after delivering `e`, when the handler answered `d`.
pub open spec fn next_state(st: ScanState, e: Option<Event>, d: NextOutputType) -> ScanState {
    match e {
        Some(ev) => {
            let mode = if consults(ev) { d } else { st.mode };
            ScanState { mode, previewed: ev is Preview && mode == NextOutputType::TagPreview }
        },
        None => ScanState { mode: st.mode, previewed: false },
    }
}

/// The result of tokenizing one chunk.
pub struct Outcome {
    pub events: Seq<Event>,
    pub blocked: int,
    pub state: ScanState,
}

pub open spec fn rank(s: Seq<u8>, st: ScanState) -> int {
    2 * s.len() + if st.mode == NextOutputType::TagPreview && !st.previewed {
        1int
    } else {
        0int
    }
}

/// Tokenizing `s` from state `st`, where the handler's answer to the event numbered `k`
/// is `ds(k)`.
pub open spec fn process(
    s: Seq<u8>,
    st: ScanState,
    last: bool,
    ds: spec_fn(int) -> NextOutputType,
    k: int,
) -> Outcome
    decreases rank(s, st),
    via process_decreases
{
    match step(s, st, last) {
        Step::Blocked => Outcome { events: Seq::empty(), blocked: s.len() as int, state: st },
        Step::Drained => Outcome { events: Seq::empty(), blocked: 0, state: st },
        Step::EndOfStream => Outcome {
            events: seq![Event::Unit { token: TokenModel::Eof, raw: Seq::empty() }],
            blocked: 0,
            state: st,
        },
        Step::Advance { event, consumed } => {
            let rest = s.subrange(consumed, s.len() as int);
            let st2 = next_state(st, event, ds(k));
            match event {
                Some(e) => {
                    let r = process(rest, st2, last, ds, k + 1);
                    Outcome { events: seq![e] + r.events, blocked: r.blocked, state: r.state }
                },
                None => process(rest, st2, last, ds, k),
            }
        },
    }
}

#[via_fn]
proof fn process_decreases(
    s: Seq<u8>,
    st: ScanState,
    last: bool,
    ds: spec_fn(int) -> NextOutputType,
    k: int,
) {
    lemma_step_facts(s, st, last);
}

/// The state the tokenizer starts a stream in.
pub open spec fn initial_state(mode: NextOutputType) -> ScanState {
    ScanState { mode, previewed: false }
}

pub proof fn lemma_scan_while_full(s: Seq<u8>, i: int, c: ByteClass, j: int)
    requires
        0 <= i <= j < s.len(),
        scan_while(s, i, c) == s.len(),
    ensures
        crate::lexer::in_class(s[j], c),
    decreases j - i,
{
    if i < j {
        lemma_scan_while_full(s, i + 1, c, j);
    }
}

proof fn lemma_tag_end_none(s: Seq<u8>, i: int, q: u8, start: int)
    requires
        0 <= start <= i,
        scan_while(s, start, ByteClass::TagName) == s.len(),
    ensures
        tag_end(s, i, q) is None,
    decreases s.len() - i,
{
    if i < s.len() {
        lemma_scan_while_full(s, start, ByteClass::TagName, i);
        if q == 0 {
            if s[i] == crate::lexer::DQUOTE || s[i] == crate::lexer::SQUOTE {
                lemma_tag_end_none(s, i + 1, s[i], start);
            } else {
                lemma_tag_end_none(s, i + 1, 0, start);
            }
        } else if s[i] == q {
            lemma_tag_end_none(s, i + 1, 0, start);
        } else {
            lemma_tag_end_none(s, i + 1, q, start);
        }
    }
}

/// A step taken before the end of a chunk is taken the same way, whatever input follows.
pub proof fn lemma_step_extend(s: Seq<u8>, f: Seq<u8>, st: ScanState, last: bool)
    requires
        step(s, st, false) is Advance,
    ensures
        step(s + f, st, last) == step(s, st, false),
{
    reveal(step);
    let sf = s + f;
    assert(sf[0] == s[0]);
    if s.len() >= 2 {
        assert(sf[1] == s[1]);
    }
    if s.len() >= 3 {
        assert(sf[2] == s[2]);
    }
    let preview_here = !st.previewed && st.mode == NextOutputType::TagPreview && is_tag_open(s)
        && tag_name_end(s) < s.len();
    if preview_here {
        lemma_scan_while_bounds(s, tag_name_start(s), ByteClass::TagName);
        lemma_scan_while_extend(s, f, tag_name_start(s), ByteClass::TagName);
        assert(sf.subrange(tag_name_start(s), tag_name_end(s)) =~= s.subrange(
            tag_name_start(s),
            tag_name_end(s),
        ));
    } else {
        assert(classify(s, false) is Token);
        lemma_classify_extend(s, f, last);
        lemma_classify_bounds(s, false);
        let len = classify(s, false)->len;
        assert(sf.subrange(0, len) =~= s.subrange(0, len));
        if !st.previewed && st.mode == NextOutputType::TagPreview && is_tag_open(s) {
            lemma_scan_while_bounds(s, tag_name_start(s), ByteClass::TagName);
            lemma_tag_end_none(s, tag_name_start(s), 0, tag_name_start(s));
            assert(false);
        }
        assert(!(!st.previewed && st.mode == NextOutputType::TagPreview && is_tag_open(sf)
            && scan_while(sf, tag_name_start(sf), ByteClass::TagName) < sf.len()));
    }
}


pub proof fn lemma_process_bounds(
    s: Seq<u8>,
    st: ScanState,
    last: bool,
    ds: spec_fn(int) -> NextOutputType,
    k: int,
)
    ensures
        0 <= process(s, st, last, ds, k).blocked <= s.len(),
    decreases rank(s, st),
{
    lemma_step_facts(s, st, last);
    if let Step::Advance { event, consumed } = step(s, st, last) {
        let rest = s.subrange(consumed, s.len() as int);
        let st2 = next_state(st, event, ds(k));
        if event is Some {
            lemma_process_bounds(rest, st2, last, ds, k + 1);
        } else {
            lemma_process_bounds(rest, st2, last, ds, k);
        }
    }
}

/// Tokenizing `s` as a chunk that more input follows, then the bytes it leaves blocked
/// followed by `f`, delivers exactly the events, in the same order and with the same
/// answers asked of the handler, that tokenizing `s + f` in one chunk delivers; the
/// carried bytes and the final state agree too.
pub proof fn lemma_chunking_transparency(
    s: Seq<u8>,
    f: Seq<u8>,
    st: ScanState,
    last: bool,
    ds: spec_fn(int) -> NextOutputType,
    k: int,
)
    ensures
        ({
            let r = process(s, st, false, ds, k);
            let carry = s.subrange(s.len() - r.blocked, s.len() as int);
            let r2 = process(carry + f, r.state, last, ds, k + r.events.len());
            process(s + f, st, last, ds, k) == (Outcome {
                events: r.events + r2.events,
                blocked: r2.blocked,
                state: r2.state,
            })
        }),
    decreases rank(s, st),
{
    let r = process(s, st, false, ds, k);
    lemma_process_bounds(s, st, false, ds, k);
    let carry = s.subrange(s.len() - r.blocked, s.len() as int);
    let r2 = process(carry + f, r.state, last, ds, k + r.events.len());
    lemma_step_facts(s, st, false);
    match step(s, st, false) {
        Step::Blocked => {
            assert(carry =~= s);
            assert(r.events + r2.events =~= r2.events);
        },
        Step::Drained => {
            assert(carry + f =~= f);
            assert(s + f =~= f);
            assert(r.events + r2.events =~= r2.events);
        },
        Step::EndOfStream => {},
        Step::Advance { event, consumed } => {
            lemma_step_extend(s, f, st, last);
            let rest = s.subrange(consumed, s.len() as int);
            assert((s + f).subrange(consumed, (s + f).len() as int) =~= rest + f);
            let st2 = next_state(st, event, ds(k));
            let k2 = if event is Some { k + 1 } else { k };
            lemma_chunking_transparency(rest, f, st2, last, ds, k2);
            let r1 = process(rest, st2, false, ds, k2);
            lemma_process_bounds(rest, st2, false, ds, k2);
            assert(rest.subrange(rest.len() - r1.blocked, rest.len() as int) =~= carry);
            if let Some(e) = event {
                let r3 = process(rest + f, st2, last, ds, k2);
                assert(seq![e] + r1.events + r2.events =~= seq![e] + (r1.events + r2.events));
            }
        },
    }
}


/// All bytes of `chunks`, in order.
pub open spec fn concat(chunks: Seq<Seq<u8>>) -> Seq<u8>
    decreases chunks.len(),
{
    if chunks.len() == 0 {
        Seq::empty()
    } else {
        chunks[0] + concat(chunks.drop_first())
    }
}

/// The events of writing each of `chunks` in turn after the carried bytes `carry`, each
/// write tokenizing the carried bytes followed by the written ones and carrying what is
/// left blocked, and then ending the stream.
pub open spec fn stream_events(
    chunks: Seq<Seq<u8>>,
    carry: Seq<u8>,
    st: ScanState,
    ds: spec_fn(int) -> NextOutputType,
    k: int,
) -> Seq<Event>
    decreases chunks.len(),
{
    if chunks.len() == 0 {
        process(carry, st, true, ds, k).events
    } else {
        let c = carry + chunks[0];
        let r = process(c, st, false, ds, k);
        r.events + stream_events(
            chunks.drop_first(),
            c.subrange(c.len() - r.blocked, c.len() as int),
            r.state,
            ds,
            k + r.events.len(),
        )
    }
}

/// What writing each of `chunks` in turn after the carried bytes `carry` delivers, and the
/// bytes carried and the state after the last of them.
pub open spec fn writes(
    chunks: Seq<Seq<u8>>,
    carry: Seq<u8>,
    st: ScanState,
    ds: spec_fn(int) -> NextOutputType,
    k: int,
) -> (Seq<Event>, Seq<u8>, ScanState)
    decreases chunks.len(),
{
    if chunks.len() == 0 {
        (Seq::empty(), carry, st)
    } else {
        let c = carry + chunks[0];
        let r = process(c, st, false, ds, k);
        let w = writes(
            chunks.drop_first(),
            c.subrange(c.len() - r.blocked, c.len() as int),
            r.state,
            ds,
            k + r.events.len(),
        );
        (r.events + w.0, w.1, w.2)
    }
}

/// One more write extends what the writes before it delivered.
pub proof fn lemma_writes_push(
    chunks: Seq<Seq<u8>>,
    x: Seq<u8>,
    carry: Seq<u8>,
    st: ScanState,
    ds: spec_fn(int) -> NextOutputType,
    k: int,
)
    ensures
        ({
            let w = writes(chunks, carry, st, ds, k);
            let c = w.1 + x;
            let r = process(c, w.2, false, ds, k + w.0.len());
            writes(chunks.push(x), carry, st, ds, k) == (
                w.0 + r.events,
                c.subrange(c.len() - r.blocked, c.len() as int),
                r.state,
            )
        }),
    decreases chunks.len(),
{
    if chunks.len() == 0 {
        assert(chunks.push(x).drop_first() =~= chunks);
        assert(chunks.push(x)[0] == x);
        let c = carry + x;
        let r = process(c, st, false, ds, k);
        let cc = c.subrange(c.len() - r.blocked, c.len() as int);
        let w0 = writes(chunks.push(x).drop_first(), cc, r.state, ds, k + r.events.len());
        assert(w0 == (Seq::<Event>::empty(), cc, r.state));
        assert(writes(chunks, carry, st, ds, k) == (Seq::<Event>::empty(), carry, st));
        assert(Seq::<Event>::empty() + r.events =~= r.events);
        assert(r.events + Seq::<Event>::empty() =~= r.events);
    } else {
        let c = carry + chunks[0];
        let r = process(c, st, false, ds, k);
        let carry2 = c.subrange(c.len() - r.blocked, c.len() as int);
        assert(chunks.push(x).drop_first() =~= chunks.drop_first().push(x));
        assert(chunks.push(x)[0] == chunks[0]);
        lemma_writes_push(chunks.drop_first(), x, carry2, r.state, ds, k + r.events.len());
        let w = writes(chunks.drop_first(), carry2, r.state, ds, k + r.events.len());
        let r2 = process(w.1 + x, w.2, false, ds, k + r.events.len() + w.0.len());
        assert(r.events + (w.0 + r2.events) =~= (r.events + w.0) + r2.events);
    }
}

/// Ending the stream after the writes delivers what they delivered, then what tokenizing
/// the bytes they left carried as the last chunk delivers.
pub proof fn lemma_writes_then_end(
    chunks: Seq<Seq<u8>>,
    carry: Seq<u8>,
    st: ScanState,
    ds: spec_fn(int) -> NextOutputType,
    k: int,
)
    ensures
        ({
            let w = writes(chunks, carry, st, ds, k);
            stream_events(chunks, carry, st, ds, k) == w.0 + process(w.1, w.2, true, ds, k + w.0.len()).events
        }),
    decreases chunks.len(),
{
    if chunks.len() == 0 {
        let w = writes(chunks, carry, st, ds, k);
        assert(w.0 + process(w.1, w.2, true, ds, k).events =~= process(carry, st, true, ds, k).events);
    } else {
        let c = carry + chunks[0];
        let r = process(c, st, false, ds, k);
        let carry2 = c.subrange(c.len() - r.blocked, c.len() as int);
        lemma_writes_then_end(chunks.drop_first(), carry2, r.state, ds, k + r.events.len());
        let w = writes(chunks.drop_first(), carry2, r.state, ds, k + r.events.len());
        let e = process(w.1, w.2, true, ds, k + r.events.len() + w.0.len()).events;
        assert(r.events + (w.0 + e) =~= (r.events + w.0) + e);
    }
}

/// However the input is split into writes, the stream delivers the events that one write
/// of the whole input followed by the end of the stream delivers.
pub proof fn lemma_stream_chunking_transparency(
    chunks: Seq<Seq<u8>>,
    carry: Seq<u8>,
    st: ScanState,
    ds: spec_fn(int) -> NextOutputType,
    k: int,
)
    ensures
        stream_events(chunks, carry, st, ds, k) == process(carry + concat(chunks), st, true, ds, k).events,
    decreases chunks.len(),
{
    if chunks.len() == 0 {
        assert(carry + concat(chunks) =~= carry);
    } else {
        let c = carry + chunks[0];
        let rest = concat(chunks.drop_first());
        let r = process(c, st, false, ds, k);
        lemma_chunking_transparency(c, rest, st, true, ds, k);
        let carry2 = c.subrange(c.len() - r.blocked, c.len() as int);
        lemma_stream_chunking_transparency(chunks.drop_first(), carry2, r.state, ds, k + r.events.len());
        assert(carry + concat(chunks) =~= c + rest);
    }
}

pub open spec fn is_eof(e: Event) -> bool {
    e matches Event::Unit { token: TokenModel::Eof, .. }
}

/// A chunk that more input follows delivers no `Eof`; the last chunk delivers exactly one,
/// after every other event.
pub proof fn lemma_single_eof(
    s: Seq<u8>,
    st: ScanState,
    last: bool,
    ds: spec_fn(int) -> NextOutputType,
    k: int,
)
    ensures
        ({
            let evs = process(s, st, last, ds, k).events;
            &&& last ==> evs.len() > 0
            &&& forall|i: int| 0 <= i < evs.len() ==> (is_eof(#[trigger] evs[i]) <==> (last && i
                == evs.len() - 1))
        }),
    decreases rank(s, st),
{
    reveal(step);
    lemma_step_facts(s, st, last);
    if let Step::Advance { event, consumed } = step(s, st, last) {
        let rest = s.subrange(consumed, s.len() as int);
        let st2 = next_state(st, event, ds(k));
        if let Some(e) = event {
            lemma_single_eof(rest, st2, last, ds, k + 1);
            let r = process(rest, st2, last, ds, k + 1);
            let evs = process(s, st, last, ds, k).events;
            assert(!is_eof(e));
            assert forall|i: int| 0 <= i < evs.len() implies (is_eof(#[trigger] evs[i]) <==> (last
                && i == evs.len() - 1)) by {
                if i > 0 {
                    assert(evs[i] == r.events[i - 1]);
                }
            }
        } else {
            lemma_single_eof(rest, st2, last, ds, k);
        }
    }
}

/// Over any split of the input into writes, exactly one `Eof` is delivered, and last.
pub proof fn lemma_stream_single_eof(chunks: Seq<Seq<u8>>, st: ScanState, ds: spec_fn(int) -> NextOutputType)
    ensures
        ({
            let evs = stream_events(chunks, Seq::empty(), st, ds, 0);
            &&& evs.len() > 0
            &&& forall|i: int| 0 <= i < evs.len() ==> (is_eof(#[trigger] evs[i]) <==> i == evs.len() - 1)
        }),
{
    lemma_stream_chunking_transparency(chunks, Seq::empty(), st, ds, 0);
    lemma_single_eof(Seq::<u8>::empty() + concat(chunks), st, true, ds, 0);
}

} // verus!
