use cool_thing::errors::Error;
use cool_thing::token::{LexUnit, NextOutputType, Span, TagPreview, TokenDescriptor};
use cool_thing::tokenizer::LexUnitHandler;
use cool_thing::transform_stream::TransformStream;

#[derive(Debug, Clone, PartialEq, Eq)]
enum Tok {
    Character(String),
    Comment(String),
    StartTag { name: String, attributes: Vec<(String, String)>, self_closing: bool },
    EndTag(String),
    Doctype {
        name: Option<String>,
        public_id: Option<String>,
        system_id: Option<String>,
        force_quirks: bool,
    },
    Preview { name: String, end_tag: bool },
    Eof,
}

fn text(bytes: &[u8], base: usize, span: Span) -> String {
    String::from_utf8(bytes[base + span.start..base + span.end].to_vec()).unwrap()
}

fn to_tok(unit: &LexUnit, chunk: &[u8]) -> Tok {
    let base = unit.raw.start;
    match &unit.token {
        TokenDescriptor::Character => Tok::Character(text(chunk, base, Span { start: 0, end: unit.raw.end - base })),
        TokenDescriptor::Comment { text: t } => Tok::Comment(text(chunk, base, *t)),
        TokenDescriptor::StartTag { name, attributes, self_closing } => Tok::StartTag {
            name: text(chunk, base, *name),
            attributes: attributes
                .iter()
                .map(|a| (text(chunk, base, a.name), text(chunk, base, a.value)))
                .collect(),
            self_closing: *self_closing,
        },
        TokenDescriptor::EndTag { name } => Tok::EndTag(text(chunk, base, *name)),
        TokenDescriptor::Doctype { name, public_id, system_id, force_quirks } => Tok::Doctype {
            name: name.map(|n| text(chunk, base, n)),
            public_id: public_id.map(|n| text(chunk, base, n)),
            system_id: system_id.map(|n| text(chunk, base, n)),
            force_quirks: *force_quirks,
        },
        TokenDescriptor::Eof => Tok::Eof,
    }
}

/// Records everything and answers `tag_answer` to tags and `preview_answer` to previews.
struct Recorder {
    toks: Vec<Tok>,
    tag_answer: NextOutputType,
    preview_answer: NextOutputType,
}

impl Recorder {
    fn new() -> Self {
        Recorder { toks: Vec::new(), tag_answer: NextOutputType::LexUnit, preview_answer: NextOutputType::TagPreview }
    }
}

impl LexUnitHandler for Recorder {
    fn handle(&mut self, lex_unit: &LexUnit, chunk: &[u8]) {
        self.toks.push(to_tok(lex_unit, chunk));
    }

    fn handle_tag(&mut self, lex_unit: &LexUnit, chunk: &[u8]) -> NextOutputType {
        self.toks.push(to_tok(lex_unit, chunk));
        self.tag_answer
    }

    fn handle_tag_preview(&mut self, preview: &TagPreview, chunk: &[u8]) -> NextOutputType {
        self.toks.push(Tok::Preview {
            name: text(chunk, 0, preview.name),
            end_tag: preview.end_tag,
        });
        self.preview_answer
    }
}

fn run(chunks: &[&[u8]], capacity: usize) -> Result<Vec<Tok>, Error> {
    let mut stream = TransformStream::new(capacity, Recorder::new());
    for c in chunks {
        stream.write(c)?;
    }
    stream.end()?;
    Ok(stream.get_tokenizer().handler().toks.clone())
}

fn start(name: &str) -> Tok {
    Tok::StartTag { name: name.to_string(), attributes: Vec::new(), self_closing: false }
}

#[test]
fn split_writes_match_single_write() {
    let whole = run(&[b"<div>hi</div>"], 64).unwrap();
    let split = run(&[b"<di", b"v>hi</d", b"iv>"], 64).unwrap();
    let expected = vec![start("div"), Tok::Character("hi".to_string()), Tok::EndTag("div".to_string()), Tok::Eof];
    assert_eq!(whole, expected);
    assert_eq!(split, expected);
}

#[test]
fn empty_write_then_end_gives_one_eof() {
    assert_eq!(run(&[b""], 64).unwrap(), vec![Tok::Eof]);
    assert_eq!(run(&[], 64).unwrap(), vec![Tok::Eof]);
}

#[test]
fn every_split_point_gives_same_tokens() {
    let input: &[u8] = b"<!DOCTYPE html><p class=\"a>b\" id=x>t&amp;<!-- c -- > -->x</p><br/>";
    let whole = run(&[input], 256).unwrap();
    for i in 0..=input.len() {
        for j in i..=input.len() {
            let parts = [&input[..i], &input[i..j], &input[j..]];
            assert_eq!(run(&parts, 256).unwrap(), whole, "split at {} and {}", i, j);
        }
    }
    let eofs = whole.iter().filter(|t| **t == Tok::Eof).count();
    assert_eq!(eofs, 1);
    assert_eq!(whole.last(), Some(&Tok::Eof));
}

#[test]
fn byte_by_byte_writes_give_same_tokens() {
    let input: &[u8] = b"a<b c='1' d>e</b><!x>";
    let whole = run(&[input], 64).unwrap();
    let bytes: Vec<&[u8]> = input.chunks(1).collect();
    assert_eq!(run(&bytes, 64).unwrap(), whole);
}

#[test]
fn attributes_in_declaration_order() {
    let toks = run(&[b"<a href=\"x\" id=y disabled title='q r'/>"], 64).unwrap();
    assert_eq!(
        toks[0],
        Tok::StartTag {
            name: "a".to_string(),
            attributes: vec![
                ("href".to_string(), "x".to_string()),
                ("id".to_string(), "y".to_string()),
                ("disabled".to_string(), String::new()),
                ("title".to_string(), "q r".to_string()),
            ],
            self_closing: true,
        }
    );
}

#[test]
fn duplicate_attributes_are_all_kept_in_order() {
    let toks = run(&[b"<i a=1 a=2>"], 64).unwrap();
    assert_eq!(
        toks[0],
        Tok::StartTag {
            name: "i".to_string(),
            attributes: vec![("a".to_string(), "1".to_string()), ("a".to_string(), "2".to_string())],
            self_closing: false,
        }
    );
}

#[test]
fn comments_and_doctype() {
    let toks = run(&[b"<!doctype HTML><!--x-y--><!DOCTYPE><!bogus>"], 64).unwrap();
    assert_eq!(
        toks,
        vec![
            Tok::Doctype { name: Some("HTML".to_string()), public_id: None, system_id: None, force_quirks: false },
            Tok::Comment("x-y".to_string()),
            Tok::Doctype { name: None, public_id: None, system_id: None, force_quirks: true },
            Tok::Comment("bogus".to_string()),
            Tok::Eof,
        ]
    );
}

#[test]
fn text_and_stray_angle_brackets() {
    let toks = run(&[b"1 < 2", b" <"], 64).unwrap();
    assert_eq!(
        toks,
        vec![
            Tok::Character("1 ".to_string()),
            Tok::Character("<".to_string()),
            Tok::Character(" 2 ".to_string()),
            Tok::Character("<".to_string()),
            Tok::Eof,
        ]
    );
}

#[test]
fn unterminated_constructs_at_end() {
    assert_eq!(run(&[b"<div cl"], 64).unwrap(), vec![Tok::Character("<div cl".to_string()), Tok::Eof]);
    assert_eq!(run(&[b"<!-- open"], 64).unwrap(), vec![Tok::Comment(" open".to_string()), Tok::Eof]);
}

#[test]
fn unterminated_tag_over_capacity_fails() {
    let mut stream = TransformStream::new(8, Recorder::new());
    assert_eq!(stream.write(b"ok<div class=\"long"), Err(Error::BufferCapacityExceeded));
}

#[test]
fn growing_carry_over_past_capacity_fails() {
    let mut stream = TransformStream::new(8, Recorder::new());
    assert_eq!(stream.write(b"<div cl"), Ok(()));
    assert_eq!(stream.write(b"ass=x"), Err(Error::BufferCapacityExceeded));
}

#[test]
fn carry_over_within_capacity_succeeds() {
    let mut stream = TransformStream::new(8, Recorder::new());
    assert_eq!(stream.write(b"<div cl"), Ok(()));
    assert_eq!(stream.write(b">"), Ok(()));
    assert_eq!(stream.end(), Ok(()));
    assert_eq!(stream.get_tokenizer().handler().toks[0], Tok::StartTag {
        name: "div".to_string(),
        attributes: vec![("cl".to_string(), String::new())],
        self_closing: false,
    });
}

#[test]
fn preview_then_confirmation_is_stored() {
    let mut stream = TransformStream::with_output_type(64, Recorder::new(), NextOutputType::TagPreview);
    stream.write(b"<a href=\"x\">").unwrap();
    stream.end().unwrap();
    let tokenizer = stream.get_tokenizer();
    assert_eq!(
        tokenizer.handler().toks,
        vec![Tok::Preview { name: "a".to_string(), end_tag: false }, Tok::Eof]
    );
    let stored = tokenizer.stored_previews();
    assert_eq!(stored.len(), 1);
    assert_eq!(stored[0].name, b"a".to_vec());
    assert!(!stored[0].end_tag);
}

#[test]
fn preview_arrives_before_tag_end() {
    let mut stream = TransformStream::with_output_type(64, Recorder::new(), NextOutputType::TagPreview);
    stream.write(b"<a href=").unwrap();
    assert_eq!(
        stream.get_tokenizer().handler().toks,
        vec![Tok::Preview { name: "a".to_string(), end_tag: false }]
    );
    assert_eq!(stream.get_tokenizer().stored_previews().len(), 0);
    stream.write(b"\"x\">").unwrap();
    stream.end().unwrap();
    assert_eq!(stream.get_tokenizer().handler().toks.len(), 2);
    assert_eq!(stream.get_tokenizer().stored_previews().len(), 1);
}

#[test]
fn unconfirmed_preview_is_dropped() {
    let mut stream = TransformStream::with_output_type(64, Recorder::new(), NextOutputType::TagPreview);
    stream.write(b"<p>x</p><b c").unwrap();
    stream.end().unwrap();
    let tokenizer = stream.get_tokenizer();
    assert_eq!(
        tokenizer.handler().toks,
        vec![
            Tok::Preview { name: "p".to_string(), end_tag: false },
            Tok::Preview { name: "p".to_string(), end_tag: true },
            Tok::Preview { name: "b".to_string(), end_tag: false },
            Tok::Eof,
        ]
    );
    let names: Vec<(Vec<u8>, bool)> =
        tokenizer.stored_previews().iter().map(|p| (p.name.clone(), p.end_tag)).collect();
    assert_eq!(names, vec![(b"p".to_vec(), false), (b"p".to_vec(), true)]);
}

#[test]
fn preview_answered_with_lex_unit_delivers_full_tag() {
    let mut rec = Recorder::new();
    rec.preview_answer = NextOutputType::LexUnit;
    rec.tag_answer = NextOutputType::TagPreview;
    let mut stream = TransformStream::with_output_type(64, rec, NextOutputType::TagPreview);
    stream.write(b"<x y=1>t<z>").unwrap();
    stream.end().unwrap();
    assert_eq!(
        stream.get_tokenizer().handler().toks,
        vec![
            Tok::Preview { name: "x".to_string(), end_tag: false },
            Tok::StartTag {
                name: "x".to_string(),
                attributes: vec![("y".to_string(), "1".to_string())],
                self_closing: false,
            },
            Tok::Preview { name: "z".to_string(), end_tag: false },
            start("z"),
            Tok::Eof,
        ]
    );
    assert_eq!(stream.get_tokenizer().stored_previews().len(), 0);
}

#[test]
fn tag_handler_switches_to_preview_mode() {
    let mut rec = Recorder::new();
    rec.tag_answer = NextOutputType::TagPreview;
    let mut stream = TransformStream::new(64, rec);
    stream.write(b"<a>text<b c=d>").unwrap();
    stream.end().unwrap();
    assert_eq!(
        stream.get_tokenizer().handler().toks,
        vec![start("a"), Tok::Preview { name: "b".to_string(), end_tag: false }, Tok::Eof]
    );
    assert_eq!(stream.get_tokenizer().next_output_type(), NextOutputType::TagPreview);
}

#[test]
fn doctype_identifiers() {
    let toks = run(&[b"<!DOCTYPE html PUBLIC \"-//W3C//DTD\" 'about:legacy'><!doctype x system \"s.dtd\">"], 128).unwrap();
    assert_eq!(
        toks,
        vec![
            Tok::Doctype {
                name: Some("html".to_string()),
                public_id: Some("-//W3C//DTD".to_string()),
                system_id: Some("about:legacy".to_string()),
                force_quirks: false,
            },
            Tok::Doctype {
                name: Some("x".to_string()),
                public_id: None,
                system_id: Some("s.dtd".to_string()),
                force_quirks: false,
            },
            Tok::Eof,
        ]
    );
}

#[test]
fn capacity_failure_does_not_depend_on_split() {
    let input: &[u8] = b"ab<span title=\"0123456789\"";
    for i in 0..=input.len() {
        let mut stream = TransformStream::new(10, Recorder::new());
        let first = stream.write(&input[..i]);
        let outcome = first.and_then(|_| stream.write(&input[i..]));
        assert_eq!(outcome, Err(Error::BufferCapacityExceeded), "split at {}", i);
    }
}
