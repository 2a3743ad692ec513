//! Tokens as spans into the bytes they were recognized from, and their mathematical values.
use vstd::prelude::*;

verus! {

/// A half-open byte range `start..end`.
#[derive(Debug, Clone, Copy, PartialEq, Eq, Structural)]
pub struct Span {
    pub start: usize,
    pub end: usize,
}

/// The name and value ranges of one attribute of a start tag.
#[derive(Debug, Clone, Copy, PartialEq, Eq, Structural)]
pub struct AttributeSpans {
    pub name: Span,
    pub value: Span,
}

/// The output mode the tokenizer uses for the tags that follow.
#[derive(Debug, Clone, Copy, PartialEq, Eq, Structural)]
pub enum NextOutputType {
    /// Full tokens, with attributes.
    LexUnit,
    /// Lightweight previews that identify a tag by its name only.
    TagPreview,
}

/// A recognized token. Every span is relative to the start of the token's raw bytes.
#[derive(Debug, Clone)]
pub enum TokenDescriptor {
    Character,
    Comment { text: Span },
    /// `attributes` holds every attribute in declaration order, repeated names included;
    /// where a name repeats, its first occurrence is the one that counts.
    StartTag { name: Span, attributes: Vec<AttributeSpans>, self_closing: bool },
    EndTag { name: Span },
    Doctype {
        name: Option<Span>,
        public_id: Option<Span>,
        system_id: Option<Span>,
        force_quirks: bool,
    },
    Eof,
}

/// The mathematical value of a `TokenDescriptor`.
pub enum TokenModel {
    Character,
    Comment { text: Span },
    StartTag { name: Span, attributes: Seq<AttributeSpans>, self_closing: bool },
    EndTag { name: Span },
    Doctype {
        name: Option<Span>,
        public_id: Option<Span>,
        system_id: Option<Span>,
        force_quirks: bool,
    },
    Eof,
}

impl TokenModel {
    pub open spec fn is_tag(self) -> bool {
        self is StartTag || self is EndTag
    }
}

impl View for TokenDescriptor {
    type V = TokenModel;

    open spec fn view(&self) -> TokenModel {
        match self {
            TokenDescriptor::Character => TokenModel::Character,
            TokenDescriptor::Comment { text } => TokenModel::Comment { text: *text },
            TokenDescriptor::StartTag { name, attributes, self_closing } => TokenModel::StartTag {
                name: *name,
                attributes: attributes@,
                self_closing: *self_closing,
            },
            TokenDescriptor::EndTag { name } => TokenModel::EndTag { name: *name },
            TokenDescriptor::Doctype { name, public_id, system_id, force_quirks } =>
                TokenModel::Doctype {
                    name: *name,
                    public_id: *public_id,
                    system_id: *system_id,
                    force_quirks: *force_quirks,
                },
            TokenDescriptor::Eof => TokenModel::Eof,
        }
    }
}

impl TokenDescriptor {
    /// Whether this is a start or end tag.
    pub fn is_tag(&self) -> (r: bool)
        ensures
            r == self@.is_tag(),
    {
        match self {
            TokenDescriptor::StartTag { .. } | TokenDescriptor::EndTag { .. } => true,
            _ => false,
        }
    }
}

/// A token together with the range of the current chunk it was recognized from.
#[derive(Debug, Clone)]
pub struct LexUnit {
    pub token: TokenDescriptor,
    pub raw: Span,
}

/// A speculative tag identified by its name only; `name` is a range of the current chunk.
#[derive(Debug, Clone, Copy, PartialEq, Eq, Structural)]
pub struct TagPreview {
    pub name: Span,
    pub end_tag: bool,
}

/// A confirmed preview, copied out of the chunk it came from.
#[derive(Debug, Clone, PartialEq, Eq)]
pub struct StoredPreview {
    pub name: Vec<u8>,
    pub end_tag: bool,
}

/// What the tokenizer delivers, with owned bytes in place of spans into a chunk.
pub enum Event {
    /// A lex unit: the token and its raw bytes.
    Unit { token: TokenModel, raw: Seq<u8> },
    /// A tag preview: the tag's name bytes.
    Preview { name: Seq<u8>, end_tag: bool },
    /// The pending preview was found to be a real tag.
    Confirm,
}

} // verus!
