//! Reading XML (Word's document part, Scrivener's project file) as a list of
//! plain events.

use vstd::prelude::*;
use quick_xml::events::{BytesEnd, BytesRef, BytesStart, BytesText, Event};
use quick_xml::Reader;

verus! {

#[verifier::external_type_specification]
#[verifier::external_body]
pub struct ExBytesStart<'a>(BytesStart<'a>);

#[verifier::external_type_specification]
#[verifier::external_body]
pub struct ExBytesEnd<'a>(BytesEnd<'a>);

#[verifier::external_type_specification]
#[verifier::external_body]
pub struct ExBytesText<'a>(BytesText<'a>);

#[verifier::external_type_specification]
#[verifier::external_body]
pub struct ExBytesRef<'a>(BytesRef<'a>);

/// An XML event as plain values.
#[derive(Debug)]
pub enum XmlPiece {
    /// An element opens (`empty` when it also closes at once: `<a/>`), with
    /// its local name and attributes (local name, unescaped value; `None` when
    /// the value could not be unescaped).
    Start { name: String, empty: bool, attrs: Vec<(String, Option<String>)> },
    /// An element closes.
    End { name: String },
    /// Text between tags, or why it could not be decoded.
    Text(Result<String, String>),
    /// An entity reference such as `&amp;`: its name, or why it could not be decoded.
    Ref(Result<String, String>),
    /// The end of the document.
    Eof,
    /// Anything else: comments, declarations, CDATA, processing instructions.
    Other,
    /// The reader stopped on malformed XML, with its message.
    Failed(String),
}

/// `BytesStart::local_name` and `BytesStart::attributes`: an opening tag as
/// a piece, with its local name read as UTF-8 (lossily) and the attributes
/// that parse (see `start_attributes`). Opaque input; nothing is claimed.
#[verifier::external_body]
fn start_piece(e: &BytesStart, empty: bool) -> XmlPiece {
    XmlPiece::Start { name: String::from_utf8_lossy(e.local_name().as_ref()).into_owned(), empty, attrs: start_attributes(e) }
}

/// `BytesStart::attributes`: the attributes that parse, each with its local
/// name and its value unescaped (`None` when unescaping fails). Opaque input;
/// nothing is claimed.
#[verifier::external_body]
fn start_attributes(e: &BytesStart) -> Vec<(String, Option<String>)> {
    e.attributes()
        .flatten()
        .map(|a| (String::from_utf8_lossy(a.key.local_name().as_ref()).into_owned(), a.unescape_value().ok().map(|v| v.into_owned())))
        .collect()
}

/// `BytesEnd::local_name`: a closing tag as a piece, its name read as UTF-8
/// (lossily). Opaque input; nothing is claimed.
#[verifier::external_body]
fn end_piece(e: &BytesEnd) -> XmlPiece {
    XmlPiece::End { name: String::from_utf8_lossy(e.local_name().as_ref()).into_owned() }
}

/// `BytesText::decode`: a text piece, with the text or the decoding error's
/// message. Opaque input; nothing is claimed.
#[verifier::external_body]
fn text_piece(t: &BytesText) -> XmlPiece {
    XmlPiece::Text(t.decode().map(|s| s.into_owned()).map_err(|e| e.to_string()))
}

/// `BytesRef::decode`: the referenced entity's name, or the decoding error's
/// message. Opaque input; nothing is claimed.
#[verifier::external_body]
fn ref_name(r: &BytesRef) -> Result<String, String> {
    r.decode().map(|s| s.into_owned()).map_err(|e| e.to_string())
}

/// The text an entity reference `&name;` stands for, as `quick_xml::escape::unescape`
/// resolves it (the predefined entities and character references).
pub uninterp spec fn entity_value(name: Seq<char>) -> Option<Seq<char>>;

/// The five entities XML predefines, by name.
pub open spec fn predefined_entity(name: Seq<char>) -> Option<Seq<char>> {
    if name == "lt"@ {
        Some("<"@)
    } else if name == "gt"@ {
        Some(">"@)
    } else if name == "amp"@ {
        Some("&"@)
    } else if name == "apos"@ {
        Some("'"@)
    } else if name == "quot"@ {
        Some("\""@)
    } else {
        None
    }
}

/// `quick_xml::escape::unescape` of `&name;`: what the reference stands for,
/// or `None` when it is not one it knows. A function of the name alone,
/// named `entity_value`. For a name holding neither `&` nor `;` that is not a
/// character reference (`#...`), it is one of the five predefined entities or
/// nothing, as `resolve_xml_entity` shows; how character references are
/// parsed (`u32::from_str_radix`, `char::from_u32`) is not restated.
#[verifier::external_body]
pub(crate) fn entity_text(name: &str) -> (r: Option<String>)
    ensures
        match (r, entity_value(name@)) {
            (Some(a), Some(b)) => a@ == b,
            (None, None) => true,
            _ => false,
        },
        !name@.contains('&') && !name@.contains(';') && !(name@.len() > 0 && name@[0] == '#') ==> match (
            r,
            predefined_entity(name@),
        ) {
            (Some(a), Some(b)) => a@ == b,
            (None, None) => true,
            _ => false,
        },
{
    quick_xml::escape::unescape(&format!("&{name};")).ok().map(|t| t.into_owned())
}

/// Whether a piece ends reading: the end of the document or a read error.
pub open spec fn ends_reading(p: XmlPiece) -> bool {
    p is Eof || p is Failed
}

/// A list of events as reading gives it: it ends at the end of the document
/// or at a read error, and nowhere before.
pub open spec fn read_shape(ps: Seq<XmlPiece>) -> bool {
    &&& ps.len() > 0
    &&& ends_reading(ps.last())
    &&& forall|i: int| 0 <= i < ps.len() - 1 ==> !ends_reading(#[trigger] ps[i])
}

/// An XML event as plain values.
pub enum PieceView {
    Start { name: Seq<char>, empty: bool, attrs: Seq<(Seq<char>, Option<Seq<char>>)> },
    End { name: Seq<char> },
    Text(Result<Seq<char>, Seq<char>>),
    Ref(Result<Seq<char>, Seq<char>>),
    Eof,
    Other,
    Failed(Seq<char>),
}

pub open spec fn text_result(r: Result<String, String>) -> Result<Seq<char>, Seq<char>> {
    match r {
        Ok(t) => Ok(t@),
        Err(e) => Err(e@),
    }
}

pub open spec fn opt_text_view(o: Option<String>) -> Option<Seq<char>> {
    match o {
        Some(v) => Some(v@),
        None => None,
    }
}

pub open spec fn attr_views(a: Seq<(String, Option<String>)>) -> Seq<(Seq<char>, Option<Seq<char>>)> {
    a.map_values(|p: (String, Option<String>)| (p.0@, opt_text_view(p.1)))
}

pub open spec fn piece_view(p: XmlPiece) -> PieceView {
    match p {
        XmlPiece::Start { name, empty, attrs } => PieceView::Start { name: name@, empty, attrs: attr_views(attrs@) },
        XmlPiece::End { name } => PieceView::End { name: name@ },
        XmlPiece::Text(r) => PieceView::Text(text_result(r)),
        XmlPiece::Ref(r) => PieceView::Ref(text_result(r)),
        XmlPiece::Eof => PieceView::Eof,
        XmlPiece::Other => PieceView::Other,
        XmlPiece::Failed(m) => PieceView::Failed(m@),
    }
}

pub open spec fn piece_views(ps: Seq<XmlPiece>) -> Seq<PieceView> {
    ps.map_values(|p: XmlPiece| piece_view(p))
}

/// The events quick-xml reads from `xml`, through the end of the document or
/// the first read error, as plain values.
pub uninterp spec fn xml_pieces(xml: Seq<char>) -> Seq<PieceView>;

/// `Reader::from_str` and `Reader::read_event` until the end of the document
/// or the first error: the events of `xml` in order, each converted to plain
/// values. Reading a text depends on the text alone, so the list is named
/// `xml_pieces`; quick-xml's grammar is not restated. As the loop shows, the
/// list ends with the end of the document or the error, and holds neither
/// before.
#[verifier::external_body]
pub(crate) fn read_pieces(xml: &str) -> (r: Vec<XmlPiece>)
    ensures
        piece_views(r@) == xml_pieces(xml@),
        read_shape(r@),
{
    let (mut rd, mut out) = (Reader::from_str(xml), Vec::new());
    loop {
        out.push(match rd.read_event() {
            Ok(Event::Start(e)) => start_piece(&e, false),
            Ok(Event::Empty(e)) => start_piece(&e, true),
            Ok(Event::End(e)) => end_piece(&e),
            Ok(Event::Text(t)) => text_piece(&t),
            Ok(Event::GeneralRef(r)) => XmlPiece::Ref(ref_name(&r)),
            Ok(Event::Eof) => XmlPiece::Eof,
            Ok(_) => XmlPiece::Other,
            Err(e) => XmlPiece::Failed(e.to_string()),
        });
        if matches!(out.last(), Some(XmlPiece::Eof | XmlPiece::Failed(_))) { return out; }
    }
}

} // verus!
