//! Text extraction: from the bytes of a markup document to its plain text.
//!
//! The document is parsed as XML. Its plain text is the character data between
//! the tags, each run of it followed by one space, so that the last word of
//! one run and the first of the next stay apart.

use vstd::prelude::*;
use vstd::string::StringExecFns;

verus! {

/// One event of an XML parse, with the text that it carries.
pub enum XmlPiece {
    /// Character data outside of tags, with entities resolved.
    Characters(String),
    /// Whitespace alone between tags.
    Whitespace(String),
    /// A `CDATA` section.
    CData(String),
    /// A comment.
    Comment(String),
    /// Anything else that is well-formed: a tag, a declaration, a processing
    /// instruction, the end of the document.
    Markup,
    /// The parser gave up here.
    Malformed,
}

/// An `XmlPiece` as a plain value.
pub enum PieceView {
    /// Character data.
    Characters(Seq<char>),
    /// Whitespace between tags.
    Whitespace(Seq<char>),
    /// A `CDATA` section.
    CData(Seq<char>),
    /// A comment.
    Comment(Seq<char>),
    /// Other well-formed markup.
    Markup,
    /// A parse error.
    Malformed,
}

impl View for XmlPiece {
    type V = PieceView;

    open spec fn view(&self) -> PieceView {
        match self {
            XmlPiece::Characters(text) => PieceView::Characters(text@),
            XmlPiece::Whitespace(text) => PieceView::Whitespace(text@),
            XmlPiece::CData(text) => PieceView::CData(text@),
            XmlPiece::Comment(text) => PieceView::Comment(text@),
            XmlPiece::Markup => PieceView::Markup,
            XmlPiece::Malformed => PieceView::Malformed,
        }
    }
}

/// The pieces as plain values.
pub open spec fn pieces_view(pieces: Seq<XmlPiece>) -> Seq<PieceView> {
    pieces.map_values(|piece: XmlPiece| piece@)
}

/// Why no text could be had from a document.
#[derive(Clone, Copy, Debug, PartialEq, Eq, Structural)]
pub enum ExtractionError {
    /// The document is not well-formed XML.
    Malformed,
}

/// The events that the XML parser yields for the document `source`, from the
/// first to the end of the document or the first error.
pub uninterp spec fn xml_pieces(source: Seq<u8>) -> Seq<PieceView>;

/// Runs `xml::reader::EventReader` over `source` with its default
/// configuration and collects what its iterator yields, each event as the
/// piece of its kind: the four events that carry a text with their string,
/// any other event as `Markup`, an error as `Malformed`. The parser reads
/// nothing but `source`, so the events depend on `source` alone.
#[verifier::external_body]
fn parse_xml(source: &[u8]) -> (pieces: Vec<XmlPiece>)
    ensures
        pieces_view(pieces@) == xml_pieces(source@),
{
    xml::reader::EventReader::new(source).into_iter().map(
        |event| match event {
            Ok(xml::reader::XmlEvent::Characters(text)) => XmlPiece::Characters(text),
            Ok(xml::reader::XmlEvent::Whitespace(text)) => XmlPiece::Whitespace(text),
            Ok(xml::reader::XmlEvent::CData(text)) => XmlPiece::CData(text),
            Ok(xml::reader::XmlEvent::Comment(text)) => XmlPiece::Comment(text),
            Ok(_) => XmlPiece::Markup,
            Err(_) => XmlPiece::Malformed,
        },
    ).collect()
}

/// The plain text of a document that was parsed into `pieces`: each run of
/// character data followed by a space. Whitespace between tags, `CDATA`
/// sections and comments are no part of it. There is none where the parse
/// failed.
pub open spec fn text_of(pieces: Seq<PieceView>) -> Option<Seq<char>>
    decreases pieces.len(),
{
    if pieces.len() == 0 {
        Some(Seq::empty())
    } else {
        match (text_of(pieces.drop_last()), pieces.last()) {
            (None, _) => None,
            (Some(_), PieceView::Malformed) => None,
            (Some(text), PieceView::Characters(run)) => Some(text + run + seq![' ']),
            (Some(text), _) => Some(text),
        }
    }
}

/// The characters of `s`, one by one.
pub fn to_chars(s: &str) -> (chars: Vec<char>)
    ensures
        chars@ == s@,
{
    broadcast use vstd::string::group_string_axioms;

    let mut chars: Vec<char> = Vec::new();
    for c in it: s.chars()
        invariant
            it.seq() == s@,
            chars@ == it.seq().take(it.index() as int),
    {
        chars.push(c);
        assert(chars@ =~= it.seq().take(it.index() + 1));
    }
    assert(chars@ =~= s@);
    chars
}

/// Joins the character data of a parsed document.
pub fn extract_text(pieces: &Vec<XmlPiece>) -> (text: Result<String, ExtractionError>)
    ensures
        match text {
            Ok(text) => text_of(pieces_view(pieces@)) == Some(text@),
            Err(_) => text_of(pieces_view(pieces@)) is None,
        },
{
    let ghost all = pieces_view(pieces@);
    let mut text = String::new();
    let mut i: usize = 0;
    while i < pieces.len()
        invariant
            i <= pieces.len(),
            all == pieces_view(pieces@),
            text_of(all.take(i as int)) == Some(text@),
        decreases pieces.len() - i,
    {
        proof {
            assert(all.take(i + 1).drop_last() =~= all.take(i as int));
            assert(all.take(i + 1).last() == pieces@[i as int]@);
        }
        match &pieces[i] {
            XmlPiece::Characters(run) => {
                text.append(run.as_str());
                text.push(' ');
            },
            XmlPiece::Whitespace(_) | XmlPiece::CData(_) | XmlPiece::Comment(_) | XmlPiece::Markup => {},
            XmlPiece::Malformed => {
                proof {
                    lemma_text_of_fails(all, i as int);
                }
                return Err(ExtractionError::Malformed);
            },
        }
        i += 1;
    }
    assert(all.take(pieces.len() as int) =~= all);
    Ok(text)
}

/// Once a prefix of the pieces has no text, the whole has none.
proof fn lemma_text_of_fails(pieces: Seq<PieceView>, i: int)
    requires
        0 <= i < pieces.len(),
        text_of(pieces.take(i + 1)) is None,
    ensures
        text_of(pieces) is None,
    decreases pieces.len(),
{
    if i + 1 < pieces.len() {
        assert(pieces.drop_last().take(i + 1) =~= pieces.take(i + 1));
        lemma_text_of_fails(pieces.drop_last(), i);
    } else {
        assert(pieces.take(i + 1) =~= pieces);
    }
}

/// The plain text of the XML document `source`.
///
/// Fails where the document is not well-formed.
pub fn read_xml_file(source: &[u8]) -> (text: Result<String, ExtractionError>)
    ensures
        match text {
            Ok(text) => text_of(xml_pieces(source@)) == Some(text@),
            Err(_) => text_of(xml_pieces(source@)) is None,
        },
{
    let pieces = parse_xml(source);
    extract_text(&pieces)
}

} // verus!
