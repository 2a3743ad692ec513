//! The constructs of the markup, as spec functions over the unread bytes, and the scanners
//! that compute them.
//!
//! Text runs up to the next `<`. `<` and a letter opens a start tag, `</` and a letter an end
//! tag; a tag ends at the first `>` outside quotes. `<!--` opens a comment that `-->` closes;
//! any other `<!` or `</` opens a construct up to the next `>`: a doctype where `doctype`
//! follows `<!`, else a comment. A `<` that opens none of these is text of its own. A
//! construct is complete only once its end is seen, or the input is over: an unterminated tag
//! at the end of the input is text, an unterminated comment a comment.
use vstd::prelude::*;
use vstd::slice::slice_subrange;
use crate::token::{AttributeSpans, Span, TokenDescriptor, TokenModel};

verus! {

pub const LT: u8 = 60;
pub const GT: u8 = 62;
pub const SLASH: u8 = 47;
pub const BANG: u8 = 33;
pub const DASH: u8 = 45;
pub const EQUALS: u8 = 61;
pub const DQUOTE: u8 = 34;
pub const SQUOTE: u8 = 39;

/// The sets of bytes that the scanners run over.
#[derive(Debug, Clone, Copy, PartialEq, Eq, Structural)]
pub enum ByteClass {
    Space,
    SpaceOrSlash,
    NonSpace,
    TagName,
    AttrName,
    Unquoted,
    Except(u8),
}

pub open spec fn is_space(b: u8) -> bool {
    b == 9 || b == 10 || b == 12 || b == 13 || b == 32
}

pub open spec fn is_letter(b: u8) -> bool {
    (65 <= b <= 90) || (97 <= b <= 122)
}

pub open spec fn in_class(b: u8, c: ByteClass) -> bool {
    match c {
        ByteClass::Space => is_space(b),
        ByteClass::SpaceOrSlash => is_space(b) || b == SLASH,
        ByteClass::NonSpace => !is_space(b),
        ByteClass::TagName => !(is_space(b) || b == SLASH || b == GT),
        ByteClass::AttrName => !(is_space(b) || b == SLASH || b == EQUALS || b == GT),
        ByteClass::Unquoted => !(is_space(b) || b == GT),
        ByteClass::Except(x) => b != x,
    }
}

/// The first index at or after `i` whose byte is not in `c`, or the length.
pub open spec fn scan_while(s: Seq<u8>, i: int, c: ByteClass) -> int
    decreases s.len() - i,
{
    if i >= s.len() {
        s.len() as int
    } else if in_class(s[i], c) {
        scan_while(s, i + 1, c)
    } else {
        i
    }
}

/// The index of the `>` that closes a tag, scanning from `i` with the open quote `q` (0: none).
pub open spec fn tag_end(s: Seq<u8>, i: int, q: u8) -> Option<int>
    decreases s.len() - i,
{
    if i < 0 || i >= s.len() {
        None
    } else if q == 0 {
        if s[i] == GT {
            Some(i)
        } else if s[i] == DQUOTE || s[i] == SQUOTE {
            tag_end(s, i + 1, s[i])
        } else {
            tag_end(s, i + 1, 0)
        }
    } else if s[i] == q {
        tag_end(s, i + 1, 0)
    } else {
        tag_end(s, i + 1, q)
    }
}

/// The index of the first `-->` at or after `i`.
pub open spec fn comment_end(s: Seq<u8>, i: int) -> Option<int>
    decreases s.len() - i,
{
    if i < 0 || i + 3 > s.len() {
        None
    } else if s[i] == DASH && s[i + 1] == DASH && s[i + 2] == GT {
        Some(i)
    } else {
        comment_end(s, i + 1)
    }
}

pub proof fn lemma_scan_while_bounds(s: Seq<u8>, i: int, c: ByteClass)
    requires
        0 <= i <= s.len(),
    ensures
        i <= scan_while(s, i, c) <= s.len(),
        scan_while(s, i, c) < s.len() ==> !in_class(s[scan_while(s, i, c)], c),
    decreases s.len() - i,
{
    if i < s.len() && in_class(s[i], c) {
        lemma_scan_while_bounds(s, i + 1, c);
    }
}

pub proof fn lemma_scan_while_extend(s: Seq<u8>, f: Seq<u8>, i: int, c: ByteClass)
    requires
        0 <= i <= s.len(),
        scan_while(s, i, c) < s.len(),
    ensures
        scan_while(s + f, i, c) == scan_while(s, i, c),
    decreases s.len() - i,
{
    assert((s + f)[i] == s[i]);
    if in_class(s[i], c) {
        lemma_scan_while_extend(s, f, i + 1, c);
    }
}

pub proof fn lemma_tag_end_bounds(s: Seq<u8>, i: int, q: u8)
    requires
        0 <= i,
    ensures
        tag_end(s, i, q) matches Some(j) ==> i <= j < s.len() && s[j] == GT,
    decreases s.len() - i,
{
    if i < s.len() {
        if q == 0 {
            if s[i] != GT {
                if s[i] == DQUOTE || s[i] == SQUOTE {
                    lemma_tag_end_bounds(s, i + 1, s[i]);
                } else {
                    lemma_tag_end_bounds(s, i + 1, 0);
                }
            }
        } else if s[i] == q {
            lemma_tag_end_bounds(s, i + 1, 0);
        } else {
            lemma_tag_end_bounds(s, i + 1, q);
        }
    }
}

pub proof fn lemma_tag_end_extend(s: Seq<u8>, f: Seq<u8>, i: int, q: u8)
    requires
        0 <= i,
        tag_end(s, i, q) is Some,
    ensures
        tag_end(s + f, i, q) == tag_end(s, i, q),
    decreases s.len() - i,
{
    assert((s + f)[i] == s[i]);
    if q == 0 {
        if s[i] != GT {
            if s[i] == DQUOTE || s[i] == SQUOTE {
                lemma_tag_end_extend(s, f, i + 1, s[i]);
            } else {
                lemma_tag_end_extend(s, f, i + 1, 0);
            }
        }
    } else if s[i] == q {
        lemma_tag_end_extend(s, f, i + 1, 0);
    } else {
        lemma_tag_end_extend(s, f, i + 1, q);
    }
}

pub proof fn lemma_comment_end_bounds(s: Seq<u8>, i: int)
    requires
        0 <= i,
    ensures
        comment_end(s, i) matches Some(j) ==> i <= j && j + 3 <= s.len(),
    decreases s.len() - i,
{
    if i + 3 <= s.len() && !(s[i] == DASH && s[i + 1] == DASH && s[i + 2] == GT) {
        lemma_comment_end_bounds(s, i + 1);
    }
}

pub proof fn lemma_comment_end_extend(s: Seq<u8>, f: Seq<u8>, i: int)
    requires
        0 <= i,
        comment_end(s, i) is Some,
    ensures
        comment_end(s + f, i) == comment_end(s, i),
    decreases s.len() - i,
{
    assert((s + f)[i] == s[i]);
    assert((s + f)[i + 1] == s[i + 1]);
    assert((s + f)[i + 2] == s[i + 2]);
    if !(s[i] == DASH && s[i + 1] == DASH && s[i + 2] == GT) {
        lemma_comment_end_extend(s, f, i + 1);
    }
}

pub fn in_class_exec(b: u8, c: ByteClass) -> (r: bool)
    ensures
        r == in_class(b, c),
{
    let space = b == 9 || b == 10 || b == 12 || b == 13 || b == 32;
    match c {
        ByteClass::Space => space,
        ByteClass::SpaceOrSlash => space || b == SLASH,
        ByteClass::NonSpace => !space,
        ByteClass::TagName => !(space || b == SLASH || b == GT),
        ByteClass::AttrName => !(space || b == SLASH || b == EQUALS || b == GT),
        ByteClass::Unquoted => !(space || b == GT),
        ByteClass::Except(x) => b != x,
    }
}

pub fn scan_while_exec(s: &[u8], i: usize, c: ByteClass) -> (r: usize)
    requires
        i <= s@.len(),
    ensures
        r == scan_while(s@, i as int, c),
{
    let mut j: usize = i;
    while j < s.len() && in_class_exec(s[j], c)
        invariant
            i <= j <= s@.len(),
            scan_while(s@, j as int, c) == scan_while(s@, i as int, c),
        decreases s@.len() - j,
    {
        j = j + 1;
    }
    j
}

pub fn tag_end_exec(s: &[u8], i: usize) -> (r: Option<usize>)
    ensures
        r matches Some(j) ==> tag_end(s@, i as int, 0) == Some(j as int),
        r is None ==> tag_end(s@, i as int, 0) is None,
{
    let mut j: usize = i;
    let mut q: u8 = 0;
    while j < s.len()
        invariant
            i <= j,
            tag_end(s@, j as int, q) == tag_end(s@, i as int, 0),
        decreases s@.len() - j,
    {
        let b = s[j];
        if q == 0 {
            if b == GT {
                return Some(j);
            } else if b == DQUOTE || b == SQUOTE {
                q = b;
            }
        } else if b == q {
            q = 0;
        }
        j = j + 1;
    }
    None
}

pub fn comment_end_exec(s: &[u8], i: usize) -> (r: Option<usize>)
    ensures
        r matches Some(j) ==> comment_end(s@, i as int) == Some(j as int),
        r is None ==> comment_end(s@, i as int) is None,
{
    let mut j: usize = i;
    while j < s.len() && s.len() - j >= 3
        invariant
            i <= j,
            comment_end(s@, j as int) == comment_end(s@, i as int),
        decreases s@.len() - j,
    {
        if s[j] == DASH && s[j + 1] == DASH && s[j + 2] == GT {
            return Some(j);
        }
        j = j + 1;
    }
    None
}


pub open spec fn span(a: int, b: int) -> Span {
    Span { start: a as usize, end: b as usize }
}

/// The attribute whose name starts at `a`, and the index where scanning resumes after it.
pub open spec fn next_attribute(t: Seq<u8>, a: int) -> (AttributeSpans, int) {
    let n_end = scan_while(t, a + 1, ByteClass::AttrName);
    let k = scan_while(t, n_end, ByteClass::Space);
    if k < t.len() && t[k] == EQUALS {
        let v = scan_while(t, k + 1, ByteClass::Space);
        if v < t.len() && (t[v] == DQUOTE || t[v] == SQUOTE) {
            let close = scan_while(t, v + 1, ByteClass::Except(t[v]));
            (
                AttributeSpans { name: span(a, n_end), value: span(v + 1, close) },
                if close < t.len() { close + 1 } else { close },
            )
        } else {
            let ve = scan_while(t, v, ByteClass::Unquoted);
            (AttributeSpans { name: span(a, n_end), value: span(v, ve) }, ve)
        }
    } else {
        (AttributeSpans { name: span(a, n_end), value: span(n_end, n_end) }, n_end)
    }
}

pub proof fn lemma_next_attribute_bounds(t: Seq<u8>, a: int)
    requires
        0 <= a < t.len(),
    ensures
        a < next_attribute(t, a).1 <= t.len(),
{
    let n_end = scan_while(t, a + 1, ByteClass::AttrName);
    lemma_scan_while_bounds(t, a + 1, ByteClass::AttrName);
    let k = scan_while(t, n_end, ByteClass::Space);
    lemma_scan_while_bounds(t, n_end, ByteClass::Space);
    if k < t.len() && t[k] == EQUALS {
        let v = scan_while(t, k + 1, ByteClass::Space);
        lemma_scan_while_bounds(t, k + 1, ByteClass::Space);
        if v < t.len() && (t[v] == DQUOTE || t[v] == SQUOTE) {
            lemma_scan_while_bounds(t, v + 1, ByteClass::Except(t[v]));
        } else {
            lemma_scan_while_bounds(t, v, ByteClass::Unquoted);
        }
    }
}

/// The attributes of a tag whose bytes before `>` are `t`, scanning from `i`, in order.
pub open spec fn parse_attrs(t: Seq<u8>, i: int) -> Seq<AttributeSpans>
    decreases t.len() - i,
    via parse_attrs_decreases
{
    let a = scan_while(t, i, ByteClass::SpaceOrSlash);
    if i < 0 || a >= t.len() {
        Seq::empty()
    } else {
        let (attr, next) = next_attribute(t, a);
        seq![attr] + parse_attrs(t, next)
    }
}

#[via_fn]
proof fn parse_attrs_decreases(t: Seq<u8>, i: int) {
    if 0 <= i <= t.len() {
        lemma_scan_while_bounds(t, i, ByteClass::SpaceOrSlash);
        let a = scan_while(t, i, ByteClass::SpaceOrSlash);
        if a < t.len() {
            lemma_next_attribute_bounds(t, a);
        }
    }
}

pub open spec fn to_lower(b: u8) -> u8 {
    if 65 <= b <= 90 {
        (b + 32) as u8
    } else {
        b
    }
}

/// Whether `t` opens with `<!` followed by `doctype` in any letter case.
pub open spec fn is_doctype(t: Seq<u8>) -> bool {
    &&& t.len() >= 9
    &&& to_lower(t[2]) == 100
    &&& to_lower(t[3]) == 111
    &&& to_lower(t[4]) == 99
    &&& to_lower(t[5]) == 116
    &&& to_lower(t[6]) == 121
    &&& to_lower(t[7]) == 112
    &&& to_lower(t[8]) == 101
}

/// Whether `t` holds `public` at `i`, in any letter case.
pub open spec fn public_at(t: Seq<u8>, i: int) -> bool {
    &&& 0 <= i && i + 6 <= t.len()
    &&& to_lower(t[i]) == 112
    &&& to_lower(t[i + 1]) == 117
    &&& to_lower(t[i + 2]) == 98
    &&& to_lower(t[i + 3]) == 108
    &&& to_lower(t[i + 4]) == 105
    &&& to_lower(t[i + 5]) == 99
}

/// Whether `t` holds `system` at `i`, in any letter case.
pub open spec fn system_at(t: Seq<u8>, i: int) -> bool {
    &&& 0 <= i && i + 6 <= t.len()
    &&& to_lower(t[i]) == 115
    &&& to_lower(t[i + 1]) == 121
    &&& to_lower(t[i + 2]) == 115
    &&& to_lower(t[i + 3]) == 116
    &&& to_lower(t[i + 4]) == 101
    &&& to_lower(t[i + 5]) == 109
}

/// The quoted string that starts at `i`, without its quotes, and the index after it.
pub open spec fn quoted(t: Seq<u8>, i: int) -> Option<(Span, int)> {
    if 0 <= i < t.len() && (t[i] == DQUOTE || t[i] == SQUOTE) {
        let close = scan_while(t, i + 1, ByteClass::Except(t[i]));
        Some((span(i + 1, close), if close < t.len() { close + 1 } else { close }))
    } else {
        None
    }
}

/// The public and system identifiers that follow the doctype's name, from `k` on.
pub open spec fn doctype_ids(t: Seq<u8>, k: int) -> (Option<Span>, Option<Span>) {
    if public_at(t, k) {
        match quoted(t, scan_while(t, k + 6, ByteClass::Space)) {
            Some((public_id, after)) => (
                Some(public_id),
                match quoted(t, scan_while(t, after, ByteClass::Space)) {
                    Some((system_id, _)) => Some(system_id),
                    None => None,
                },
            ),
            None => (None, None),
        }
    } else if system_at(t, k) {
        match quoted(t, scan_while(t, k + 6, ByteClass::Space)) {
            Some((system_id, _)) => (None, Some(system_id)),
            None => (None, None),
        }
    } else {
        (None, None)
    }
}

pub open spec fn doctype_model(t: Seq<u8>) -> TokenModel {
    let ns = scan_while(t, 9, ByteClass::Space);
    let ne = scan_while(t, ns, ByteClass::NonSpace);
    let ids = doctype_ids(t, scan_while(t, ne, ByteClass::Space));
    TokenModel::Doctype {
        name: if ne > ns { Some(span(ns, ne)) } else { None },
        public_id: ids.0,
        system_id: ids.1,
        force_quirks: ne <= ns,
    }
}

/// A `<!...>` or `</...>` construct that is not a regular comment or end tag.
pub open spec fn bang_model(t: Seq<u8>) -> TokenModel {
    if is_doctype(t) {
        doctype_model(t)
    } else {
        TokenModel::Comment { text: span(2, t.len() as int) }
    }
}

pub open spec fn start_tag_model(t: Seq<u8>) -> TokenModel {
    let ne = scan_while(t, 1, ByteClass::TagName);
    TokenModel::StartTag {
        name: span(1, ne),
        attributes: parse_attrs(t, ne),
        self_closing: t.len() > 1 && t[t.len() - 1] == SLASH,
    }
}

pub open spec fn end_tag_model(t: Seq<u8>) -> TokenModel {
    TokenModel::EndTag { name: span(2, scan_while(t, 2, ByteClass::TagName)) }
}

/// The outcome of looking for one construct at the start of the unread input.
pub enum Scan {
    /// The construct is not complete in the input seen so far.
    Blocked,
    /// The construct spans the first `len` bytes.
    Token { token: TokenModel, len: int },
}

pub open spec fn tag_construct(s: Seq<u8>, i: int, last: bool, start: bool) -> Scan {
    match tag_end(s, i, 0) {
        Some(j) => Scan::Token {
            token: if start {
                start_tag_model(s.subrange(0, j))
            } else {
                end_tag_model(s.subrange(0, j))
            },
            len: j + 1,
        },
        None => if last {
            Scan::Token { token: TokenModel::Character, len: s.len() as int }
        } else {
            Scan::Blocked
        },
    }
}

pub open spec fn bang_construct(s: Seq<u8>, last: bool) -> Scan {
    let close = scan_while(s, 2, ByteClass::Except(GT));
    if close < s.len() {
        Scan::Token { token: bang_model(s.subrange(0, close)), len: close + 1 }
    } else if last {
        Scan::Token { token: bang_model(s), len: s.len() as int }
    } else {
        Scan::Blocked
    }
}

/// The construct at the start of `s`; `last` says no input follows `s`.
pub open spec fn classify(s: Seq<u8>, last: bool) -> Scan {
    if s.len() == 0 {
        Scan::Blocked
    } else if s[0] != LT {
        let e = scan_while(s, 0, ByteClass::Except(LT));
        if e < s.len() {
            Scan::Token { token: TokenModel::Character, len: e }
        } else if last {
            Scan::Token { token: TokenModel::Character, len: s.len() as int }
        } else {
            Scan::Blocked
        }
    } else if s.len() < 2 {
        if last {
            Scan::Token { token: TokenModel::Character, len: 1 }
        } else {
            Scan::Blocked
        }
    } else if is_letter(s[1]) {
        tag_construct(s, 1, last, true)
    } else if s[1] == SLASH {
        if s.len() < 3 {
            if last {
                Scan::Token { token: TokenModel::Character, len: s.len() as int }
            } else {
                Scan::Blocked
            }
        } else if is_letter(s[2]) {
            tag_construct(s, 2, last, false)
        } else {
            bang_construct(s, last)
        }
    } else if s[1] == BANG {
        if s.len() < 4 && !last {
            Scan::Blocked
        } else if s.len() >= 4 && s[2] == DASH && s[3] == DASH {
            match comment_end(s, 4) {
                Some(j) => Scan::Token { token: TokenModel::Comment { text: span(4, j) }, len: j + 3 },
                None => if last {
                    Scan::Token {
                        token: TokenModel::Comment { text: span(4, s.len() as int) },
                        len: s.len() as int,
                    }
                } else {
                    Scan::Blocked
                },
            }
        } else {
            bang_construct(s, last)
        }
    } else {
        Scan::Token { token: TokenModel::Character, len: 1 }
    }
}

pub proof fn lemma_classify_bounds(s: Seq<u8>, last: bool)
    ensures
        classify(s, last) matches Scan::Token { len, .. } ==> 0 < len <= s.len(),
{
    if s.len() > 0 {
        lemma_scan_while_bounds(s, 0, ByteClass::Except(LT));
        lemma_tag_end_bounds(s, 1, 0);
        lemma_tag_end_bounds(s, 2, 0);
        lemma_comment_end_bounds(s, 4);
        if s.len() >= 2 {
            lemma_scan_while_bounds(s, 2, ByteClass::Except(GT));
        }
    }
}

/// A construct found complete is found the same, whatever input follows it.
pub proof fn lemma_classify_extend(s: Seq<u8>, f: Seq<u8>, last: bool)
    requires
        classify(s, false) is Token,
    ensures
        classify(s + f, last) == classify(s, false),
{
    let sf = s + f;
    lemma_classify_bounds(s, false);
    assert(sf[0] == s[0]);
    if s[0] != LT {
        lemma_scan_while_extend(s, f, 0, ByteClass::Except(LT));
    } else {
        assert(sf[1] == s[1]);
        if is_letter(s[1]) {
            lemma_tag_end_extend(s, f, 1, 0);
            let j = tag_end(s, 1, 0)->0;
            lemma_tag_end_bounds(s, 1, 0);
            assert(sf.subrange(0, j) =~= s.subrange(0, j));
        } else if s[1] == SLASH {
            assert(sf[2] == s[2]);
            if is_letter(s[2]) {
                lemma_tag_end_extend(s, f, 2, 0);
                let j = tag_end(s, 2, 0)->0;
                lemma_tag_end_bounds(s, 2, 0);
                assert(sf.subrange(0, j) =~= s.subrange(0, j));
            } else {
                lemma_scan_while_extend(s, f, 2, ByteClass::Except(GT));
                let close = scan_while(s, 2, ByteClass::Except(GT));
                assert(sf.subrange(0, close) =~= s.subrange(0, close));
            }
        } else if s[1] == BANG {
            assert(sf[2] == s[2]);
            assert(sf[3] == s[3]);
            if s[2] == DASH && s[3] == DASH {
                lemma_comment_end_extend(s, f, 4);
            } else {
                lemma_scan_while_extend(s, f, 2, ByteClass::Except(GT));
                let close = scan_while(s, 2, ByteClass::Except(GT));
                assert(sf.subrange(0, close) =~= s.subrange(0, close));
            }
        }
    }
}


fn next_attribute_exec(t: &[u8], a: usize) -> (r: (AttributeSpans, usize))
    requires
        a < t@.len(),
    ensures
        r.0 == next_attribute(t@, a as int).0,
        r.1 == next_attribute(t@, a as int).1,
{
    let len = t.len();
    proof {
        lemma_scan_while_bounds(t@, a + 1, ByteClass::AttrName);
    }
    let n_end = scan_while_exec(t, a + 1, ByteClass::AttrName);
    proof {
        lemma_scan_while_bounds(t@, n_end as int, ByteClass::Space);
    }
    let k = scan_while_exec(t, n_end, ByteClass::Space);
    let name = Span { start: a, end: n_end };
    if k < t.len() && t[k] == EQUALS {
        proof {
            lemma_scan_while_bounds(t@, k + 1, ByteClass::Space);
        }
        let v = scan_while_exec(t, k + 1, ByteClass::Space);
        if v < t.len() && (t[v] == DQUOTE || t[v] == SQUOTE) {
            let quote = t[v];
            proof {
                lemma_scan_while_bounds(t@, v + 1, ByteClass::Except(quote));
            }
            let close = scan_while_exec(t, v + 1, ByteClass::Except(quote));
            let next = if close < t.len() { close + 1 } else { close };
            (AttributeSpans { name, value: Span { start: v + 1, end: close } }, next)
        } else {
            proof {
                lemma_scan_while_bounds(t@, v as int, ByteClass::Unquoted);
            }
            let ve = scan_while_exec(t, v, ByteClass::Unquoted);
            (AttributeSpans { name, value: Span { start: v, end: ve } }, ve)
        }
    } else {
        (AttributeSpans { name, value: Span { start: n_end, end: n_end } }, n_end)
    }
}

fn parse_attrs_exec(t: &[u8], start: usize) -> (r: Vec<AttributeSpans>)
    requires
        start <= t@.len(),
    ensures
        r@ == parse_attrs(t@, start as int),
{
    let mut out: Vec<AttributeSpans> = Vec::new();
    let mut i: usize = start;
    loop
        invariant
            i <= t@.len(),
            out@ + parse_attrs(t@, i as int) == parse_attrs(t@, start as int),
        decreases t@.len() - i,
    {
        proof {
            lemma_scan_while_bounds(t@, i as int, ByteClass::SpaceOrSlash);
        }
        let a = scan_while_exec(t, i, ByteClass::SpaceOrSlash);
        if a >= t.len() {
            assert(out@ + parse_attrs(t@, i as int) =~= out@);
            return out;
        }
        proof {
            lemma_next_attribute_bounds(t@, a as int);
        }
        let (attr, next) = next_attribute_exec(t, a);
        let ghost before = out@;
        out.push(attr);
        assert(before + parse_attrs(t@, i as int) =~= out@ + parse_attrs(t@, next as int));
        i = next;
    }
}

fn to_lower_exec(b: u8) -> (r: u8)
    ensures
        r == to_lower(b),
{
    if 65 <= b && b <= 90 {
        b + 32
    } else {
        b
    }
}

fn is_doctype_exec(t: &[u8]) -> (r: bool)
    ensures
        r == is_doctype(t@),
{
    t.len() >= 9 && to_lower_exec(t[2]) == 100 && to_lower_exec(t[3]) == 111 && to_lower_exec(t[4])
        == 99 && to_lower_exec(t[5]) == 116 && to_lower_exec(t[6]) == 121 && to_lower_exec(t[7])
        == 112 && to_lower_exec(t[8]) == 101
}

fn public_at_exec(t: &[u8], i: usize) -> (r: bool)
    ensures
        r == public_at(t@, i as int),
{
    i <= t.len() && t.len() - i >= 6 && to_lower_exec(t[i]) == 112 && to_lower_exec(t[i + 1]) == 117
        && to_lower_exec(t[i + 2]) == 98 && to_lower_exec(t[i + 3]) == 108 && to_lower_exec(t[i + 4])
        == 105 && to_lower_exec(t[i + 5]) == 99
}

fn system_at_exec(t: &[u8], i: usize) -> (r: bool)
    ensures
        r == system_at(t@, i as int),
{
    i <= t.len() && t.len() - i >= 6 && to_lower_exec(t[i]) == 115 && to_lower_exec(t[i + 1]) == 121
        && to_lower_exec(t[i + 2]) == 115 && to_lower_exec(t[i + 3]) == 116 && to_lower_exec(t[i + 4])
        == 101 && to_lower_exec(t[i + 5]) == 109
}

fn quoted_exec(t: &[u8], i: usize) -> (r: Option<(Span, usize)>)
    requires
        i <= t@.len(),
    ensures
        r matches Some((sp, next)) ==> quoted(t@, i as int) == Some((sp, next as int)) && next <= t@.len(),
        r is None ==> quoted(t@, i as int) is None,
{
    let len = t.len();
    if i < len && (t[i] == DQUOTE || t[i] == SQUOTE) {
        let quote = t[i];
        proof {
            lemma_scan_while_bounds(t@, i + 1, ByteClass::Except(quote));
        }
        let close = scan_while_exec(t, i + 1, ByteClass::Except(quote));
        Some((Span { start: i + 1, end: close }, if close < len { close + 1 } else { close }))
    } else {
        None
    }
}

fn doctype_ids_exec(t: &[u8], k: usize) -> (r: (Option<Span>, Option<Span>))
    requires
        k <= t@.len(),
    ensures
        r == doctype_ids(t@, k as int),
{
    let len = t.len();
    if public_at_exec(t, k) {
        proof {
            lemma_scan_while_bounds(t@, k + 6, ByteClass::Space);
        }
        match quoted_exec(t, scan_while_exec(t, k + 6, ByteClass::Space)) {
            Some((public_id, after)) => {
                proof {
                    lemma_scan_while_bounds(t@, after as int, ByteClass::Space);
                }
                let system_id = match quoted_exec(t, scan_while_exec(t, after, ByteClass::Space)) {
                    Some((system_id, _)) => Some(system_id),
                    None => None,
                };
                (Some(public_id), system_id)
            },
            None => (None, None),
        }
    } else if system_at_exec(t, k) {
        proof {
            lemma_scan_while_bounds(t@, k + 6, ByteClass::Space);
        }
        match quoted_exec(t, scan_while_exec(t, k + 6, ByteClass::Space)) {
            Some((system_id, _)) => (None, Some(system_id)),
            None => (None, None),
        }
    } else {
        (None, None)
    }
}

fn bang_model_exec(t: &[u8]) -> (r: TokenDescriptor)
    requires
        t@.len() >= 2,
    ensures
        r@ == bang_model(t@),
{
    if is_doctype_exec(t) {
        proof {
            lemma_scan_while_bounds(t@, 9, ByteClass::Space);
        }
        let ns = scan_while_exec(t, 9, ByteClass::Space);
        proof {
            lemma_scan_while_bounds(t@, ns as int, ByteClass::NonSpace);
        }
        let ne = scan_while_exec(t, ns, ByteClass::NonSpace);
        proof {
            lemma_scan_while_bounds(t@, ne as int, ByteClass::Space);
        }
        let (public_id, system_id) = doctype_ids_exec(t, scan_while_exec(t, ne, ByteClass::Space));
        let name = if ne > ns { Some(Span { start: ns, end: ne }) } else { None };
        TokenDescriptor::Doctype { name, public_id, system_id, force_quirks: ne <= ns }
    } else {
        TokenDescriptor::Comment { text: Span { start: 2, end: t.len() } }
    }
}

fn start_tag_model_exec(t: &[u8]) -> (r: TokenDescriptor)
    requires
        t@.len() >= 1,
    ensures
        r@ == start_tag_model(t@),
{
    let ne = scan_while_exec(t, 1, ByteClass::TagName);
    proof {
        lemma_scan_while_bounds(t@, 1, ByteClass::TagName);
    }
    let attributes = parse_attrs_exec(t, ne);
    let self_closing = t.len() > 1 && t[t.len() - 1] == SLASH;
    TokenDescriptor::StartTag { name: Span { start: 1, end: ne }, attributes, self_closing }
}

fn tag_construct_exec(s: &[u8], i: usize, last: bool, start: bool) -> (r: Option<(TokenDescriptor, usize)>)
    requires
        1 <= i <= 2,
        !start ==> i == 2,
        i < s@.len(),
    ensures
        r is None <==> tag_construct(s@, i as int, last, start) is Blocked,
        r matches Some((d, n)) ==> tag_construct(s@, i as int, last, start) == (Scan::Token { token: d@, len: n as int }),
{
    let len = s.len();
    match tag_end_exec(s, i) {
        Some(j) => {
            proof {
                lemma_tag_end_bounds(s@, i as int, 0);
            }
            let t = slice_subrange(s, 0, j);
            let d = if start {
                start_tag_model_exec(t)
            } else {
                TokenDescriptor::EndTag {
                    name: Span { start: 2, end: scan_while_exec(t, 2, ByteClass::TagName) },
                }
            };
            Some((d, j + 1))
        },
        None => if last {
            Some((TokenDescriptor::Character, s.len()))
        } else {
            None
        },
    }
}

fn bang_construct_exec(s: &[u8], last: bool) -> (r: Option<(TokenDescriptor, usize)>)
    requires
        2 <= s@.len(),
    ensures
        r is None <==> bang_construct(s@, last) is Blocked,
        r matches Some((d, n)) ==> bang_construct(s@, last) == (Scan::Token { token: d@, len: n as int }),
{
    let close = scan_while_exec(s, 2, ByteClass::Except(GT));
    proof {
        lemma_scan_while_bounds(s@, 2, ByteClass::Except(GT));
    }
    if close < s.len() {
        let t = slice_subrange(s, 0, close);
        Some((bang_model_exec(t), close + 1))
    } else if last {
        Some((bang_model_exec(s), s.len()))
    } else {
        None
    }
}

/// Finds the construct at the start of `s`: `None` when it is not complete yet.
pub fn classify_exec(s: &[u8], last: bool) -> (r: Option<(TokenDescriptor, usize)>)
    ensures
        r is None <==> classify(s@, last) is Blocked,
        r matches Some((d, n)) ==> classify(s@, last) == (Scan::Token { token: d@, len: n as int }),
{
    let n = s.len();
    if n == 0 {
        None
    } else if s[0] != LT {
        let e = scan_while_exec(s, 0, ByteClass::Except(LT));
        if e < n {
            Some((TokenDescriptor::Character, e))
        } else if last {
            Some((TokenDescriptor::Character, n))
        } else {
            None
        }
    } else if n < 2 {
        if last {
            Some((TokenDescriptor::Character, 1))
        } else {
            None
        }
    } else if (65 <= s[1] && s[1] <= 90) || (97 <= s[1] && s[1] <= 122) {
        tag_construct_exec(s, 1, last, true)
    } else if s[1] == SLASH {
        if n < 3 {
            if last {
                Some((TokenDescriptor::Character, n))
            } else {
                None
            }
        } else if (65 <= s[2] && s[2] <= 90) || (97 <= s[2] && s[2] <= 122) {
            tag_construct_exec(s, 2, last, false)
        } else {
            bang_construct_exec(s, last)
        }
    } else if s[1] == BANG {
        if n < 4 && !last {
            None
        } else if n >= 4 && s[2] == DASH && s[3] == DASH {
            match comment_end_exec(s, 4) {
                Some(j) => {
                    proof {
                        lemma_comment_end_bounds(s@, 4);
                    }
                    Some((TokenDescriptor::Comment { text: Span { start: 4, end: j } }, j + 3))
                },
                None => if last {
                    Some((TokenDescriptor::Comment { text: Span { start: 4, end: n } }, n))
                } else {
                    None
                },
            }
        } else {
            bang_construct_exec(s, last)
        }
    } else {
        Some((TokenDescriptor::Character, 1))
    }
}

} // verus!
