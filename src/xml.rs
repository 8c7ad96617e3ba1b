use vstd::prelude::*;
use quick_xml::events::Event;
use quick_xml::reader::Reader;

verus! {

/// One token of a tag document, as far as record extraction cares.
/// Element names are the raw (qualified) names; text is kept escaped.
#[derive(Debug, Clone, PartialEq, Eq)]
pub enum TagEvent {
    Start(Vec<u8>),
    End(Vec<u8>),
    /// An element with no content, such as `<row/>`: it opens and closes at once.
    Empty(Vec<u8>),
    Text(Vec<u8>),
    Other,
}

/// The mathematical value of a tag event.
pub enum TagView {
    Start(Seq<u8>),
    End(Seq<u8>),
    Empty(Seq<u8>),
    Text(Seq<u8>),
    Other,
}

impl View for TagEvent {
    type V = TagView;

    open spec fn view(&self) -> TagView {
        match self {
            TagEvent::Start(n) => TagView::Start(n@),
            TagEvent::End(n) => TagView::End(n@),
            TagEvent::Empty(n) => TagView::Empty(n@),
            TagEvent::Text(t) => TagView::Text(t@),
            TagEvent::Other => TagView::Other,
        }
    }
}

/// What decoding a text node's raw bytes as UTF-8 and resolving its
/// predefined XML entities yields, or `None` where either step fails.
pub uninterp spec fn unescaped_text(raw: Seq<u8>) -> Option<Seq<char>>;

/// The views of a sequence of tag events.
pub open spec fn tag_views(evs: Seq<TagEvent>) -> Seq<TagView> {
    evs.map_values(|e: TagEvent| e@)
}

/// The tokens of a whole document, up to its end, as quick_xml reads them
/// with surrounding whitespace of text trimmed; `None` where the tokenizer
/// reports an error.
pub uninterp spec fn document_tokens(input: Seq<u8>) -> Option<Seq<TagView>>;

/// Relies on `quick_xml::Reader::from_reader` with its `trim_text` option, and
/// on `Reader::read_event` called until `Event::Eof`: the document's tokens,
/// or `None` at the first error.
#[verifier::external_body]
pub(crate) fn tokenize(input: &[u8]) -> (r: Option<Vec<TagEvent>>)
    ensures
        r is Some <==> document_tokens(input@) is Some,
        r is Some ==> tag_views(r->0@) == document_tokens(input@)->0,
{
    let mut reader = Reader::from_reader(input);
    reader.config_mut().trim_text(true);
    let mut out = Vec::new();
    loop {
        out.push(match reader.read_event() {
            Ok(Event::Start(e)) => TagEvent::Start(e.name().as_ref().to_vec()),
            Ok(Event::End(e)) => TagEvent::End(e.name().as_ref().to_vec()),
            Ok(Event::Empty(e)) => TagEvent::Empty(e.name().as_ref().to_vec()),
            Ok(Event::Text(e)) => TagEvent::Text(e.into_inner().into_owned()),
            Ok(Event::Eof) => return Some(out),
            Ok(_) => TagEvent::Other,
            Err(_) => return None,
        });
    }
}

/// Relies on `quick_xml::escape::unescape` over the UTF-8 reading of the
/// bytes (what `BytesText::unescape` does): the text's content, or `None`
/// where the bytes are not UTF-8 or hold an unknown or broken entity.
#[verifier::external_body]
pub(crate) fn text_content(raw: &[u8]) -> (r: Option<String>)
    ensures
        r is Some <==> unescaped_text(raw@) is Some,
        r is Some ==> r->0@ == unescaped_text(raw@)->0,
{
    match std::str::from_utf8(raw) {
        Ok(s) => quick_xml::escape::unescape(s).ok().map(|c| c.into_owned()),
        Err(_) => None,
    }
}

} // verus!
