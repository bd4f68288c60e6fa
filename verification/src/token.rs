//! Markup tokens, as the XML tokenizer hands them out, and what is read off them.

use crate::error::ExecutionError;
use quick_xml::events::attributes::Attributes;
use quick_xml::events::Event;
use vstd::prelude::*;
use vstd::string::*;
use vstd::utf8::*;

verus! {

/// The kinds of token that the tokenizer tells apart.
#[derive(Clone, Copy, Debug, PartialEq, Eq, Structural)]
pub enum TokenKind {
    /// `<tag attr="value">`
    Start,
    /// `</tag>`
    End,
    /// `<tag attr="value"/>`
    Empty,
    /// Character data between tags.
    Text,
    /// `<!-- ... -->`
    Comment,
    /// `<![CDATA[ ... ]]>`
    CData,
    /// `<?xml ... ?>`
    Decl,
    /// `<? ... ?>`
    PI,
    /// `<!DOCTYPE ... >`
    DocType,
}

/// One token of a document: its kind, and the bytes between its delimiters.
#[derive(Debug)]
pub struct Token {
    pub kind: TokenKind,
    pub content: Vec<u8>,
}

/// A token as contracts see it.
pub struct TokenView {
    pub kind: TokenKind,
    pub content: Seq<u8>,
}

impl View for Token {
    type V = TokenView;

    open spec fn view(&self) -> TokenView {
        TokenView { kind: self.kind, content: self.content@ }
    }
}

/// Blank, tab, line feed or carriage return: what ends a tag's name.
pub open spec fn is_blank(b: u8) -> bool {
    b == 32 || b == 9 || b == 10 || b == 13
}

/// How many bytes of a tag's content come before its first blank.
pub open spec fn name_len(content: Seq<u8>) -> nat
    decreases content.len(),
{
    if content.len() == 0 || is_blank(content[0]) {
        0
    } else {
        1 + name_len(content.drop_first())
    }
}

impl TokenView {
    /// The qualified name of a tag; empty for what is no tag.
    pub open spec fn name(self) -> Seq<u8> {
        match self.kind {
            TokenKind::Start | TokenKind::Empty => self.content.take(
                name_len(self.content) as int,
            ),
            TokenKind::End => self.content,
            _ => Seq::empty(),
        }
    }

    /// The bytes that stand for this token in a document.
    pub open spec fn markup(self) -> Seq<u8> {
        match self.kind {
            TokenKind::Start => "<".spec_bytes() + self.content + ">".spec_bytes(),
            TokenKind::End => "</".spec_bytes() + self.content + ">".spec_bytes(),
            TokenKind::Empty => "<".spec_bytes() + self.content + "/>".spec_bytes(),
            TokenKind::Text => self.content,
            TokenKind::Comment => "<!--".spec_bytes() + self.content + "-->".spec_bytes(),
            TokenKind::CData => "<![CDATA[".spec_bytes() + self.content + "]]>".spec_bytes(),
            TokenKind::Decl => "<?".spec_bytes() + self.content + "?>".spec_bytes(),
            TokenKind::PI => "<?".spec_bytes() + self.content + "?>".spec_bytes(),
            TokenKind::DocType => "<!DOCTYPE".spec_bytes() + self.content + ">".spec_bytes(),
        }
    }
}

proof fn lemma_name_len_skip(content: Seq<u8>, i: int)
    requires
        0 <= i < content.len(),
        forall|j: int| 0 <= j < i ==> !is_blank(#[trigger] content[j]),
    ensures
        name_len(content) == i + name_len(content.skip(i)),
    decreases i,
{
    if i > 0 {
        lemma_name_len_skip(content.drop_first(), i - 1);
        assert(content.drop_first().skip(i - 1) =~= content.skip(i));
    } else {
        assert(content.skip(0) =~= content);
    }
}

/// Appends `bytes` to `out`.
pub(crate) fn append_bytes(out: &mut Vec<u8>, bytes: &[u8])
    ensures
        final(out)@ == old(out)@ + bytes@,
{
    let mut i: usize = 0;
    while i < bytes.len()
        invariant
            i <= bytes@.len(),
            out@ == old(out)@ + bytes@.take(i as int),
        decreases bytes@.len() - i,
    {
        out.push(bytes[i]);
        i = i + 1;
        assert(bytes@.take(i as int) =~= bytes@.take(i - 1).push(bytes@[i - 1]));
    }
    assert(bytes@.take(i as int) =~= bytes@);
}

/// Whether two byte strings are the same.
pub(crate) fn bytes_eq(a: &[u8], b: &[u8]) -> (same: bool)
    ensures
        same == (a@ == b@),
{
    if a.len() != b.len() {
        return false;
    }
    let mut i: usize = 0;
    while i < a.len()
        invariant
            i <= a@.len(),
            a@.len() == b@.len(),
            forall|j: int| 0 <= j < i ==> a@[j] == b@[j],
        decreases a@.len() - i,
    {
        if a[i] != b[i] {
            return false;
        }
        i = i + 1;
    }
    assert(a@ =~= b@);
    true
}

impl Token {
    /// The length of the tag's name within its content.
    pub fn name_len(&self) -> (n: usize)
        ensures
            n == name_len(self.content@),
            n <= self.content@.len(),
    {
        let mut i: usize = 0;
        while i < self.content.len()
            invariant
                i <= self.content@.len(),
                forall|j: int| 0 <= j < i ==> !is_blank(#[trigger] self.content@[j]),
            decreases self.content@.len() - i,
        {
            let b = self.content[i];
            if b == 32 || b == 9 || b == 10 || b == 13 {
                proof {
                    lemma_name_len_skip(self.content@, i as int);
                }
                return i;
            }
            i = i + 1;
        }
        proof {
            let content = self.content@;
            if content.len() > 0 {
                let last = content.len() - 1;
                lemma_name_len_skip(content, last);
                assert(name_len(content.skip(last).drop_first()) == 0);
            }
        }
        i
    }

    /// Whether this token is a tag of the given kind and qualified name.
    pub fn is_tag(&self, kind: TokenKind, name: &[u8]) -> (b: bool)
        ensures
            b == (self@.kind == kind && self@.name() == name@),
    {
        if !(self.kind == kind) {
            return false;
        }
        assert(self@.kind == kind);
        match self.kind {
            TokenKind::Start | TokenKind::Empty => {
                let n = self.name_len();
                let head = vstd::slice::slice_subrange(self.content.as_slice(), 0, n);
                assert(head@ =~= self@.name());
                bytes_eq(head, name)
            },
            TokenKind::End => bytes_eq(self.content.as_slice(), name),
            _ => {
                assert(name@.len() == 0 <==> name@ =~= Seq::<u8>::empty());
                name.len() == 0
            },
        }
    }

    /// Writes the token back as markup, as it stood in the document.
    pub fn write_to(&self, out: &mut Vec<u8>)
        ensures
            final(out)@ == old(out)@ + self@.markup(),
    {
        let (before, after) = match self.kind {
            TokenKind::Start => ("<", ">"),
            TokenKind::End => ("</", ">"),
            TokenKind::Empty => ("<", "/>"),
            TokenKind::Text => ("", ""),
            TokenKind::Comment => ("<!--", "-->"),
            TokenKind::CData => ("<![CDATA[", "]]>"),
            TokenKind::Decl => ("<?", "?>"),
            TokenKind::PI => ("<?", "?>"),
            TokenKind::DocType => ("<!DOCTYPE", ">"),
        };
        proof {
            reveal_strlit("");
            assert("".spec_bytes() =~= Seq::<u8>::empty()) by {
                is_ascii_spec_bytes("");
            }
        }
        append_bytes(out, before.as_bytes());
        append_bytes(out, self.content.as_slice());
        append_bytes(out, after.as_bytes());
        assert(out@ =~= old(out)@ + self@.markup());
    }
}

/// One attribute of a tag: the key, and the value as it stands between its quotes.
#[derive(Debug)]
pub struct Attribute {
    pub key: Vec<u8>,
    pub value: Vec<u8>,
}

/// An attribute as contracts see it.
pub struct AttributeView {
    pub key: Seq<u8>,
    pub value: Seq<u8>,
}

impl View for Attribute {
    type V = AttributeView;

    open spec fn view(&self) -> AttributeView {
        AttributeView { key: self.key@, value: self.value@ }
    }
}

/// The attributes of a list, each by its view.
pub open spec fn attributes_view(attributes: Seq<Attribute>) -> Seq<AttributeView> {
    attributes.map_values(|a: Attribute| a@)
}

/// What a document is to the tokenizer: the tokens it reads off, in order, until the input
/// ends or is found malformed, and which of the two it was.
pub struct TokenStream {
    pub tokens: Seq<TokenView>,
    pub malformed: bool,
}

/// The token stream of a document, as `quick_xml::Reader` reads it with the check of end
/// names against start names switched off.
pub uninterp spec fn xml_stream(document: Seq<u8>) -> TokenStream;

/// What a reader has yet to hand out.
pub uninterp spec fn reader_stream(reader: TokenReader) -> TokenStream;

/// The attributes that `quick_xml` reads in a tag's content from `start` on, without its
/// check for duplicates; `None` where it finds them malformed.
pub uninterp spec fn xml_attributes(content: Seq<u8>, start: int) -> Option<Seq<AttributeView>>;

/// A `quick_xml::Reader` over a document in memory, somewhere on its way through it.
#[verifier::external_body]
pub struct TokenReader<'a> {
    inner: quick_xml::Reader<&'a [u8]>,
}

/// Calls `quick_xml::Reader::from_reader` on the document and switches `check_end_names`
/// off. Trusted: the new reader has the whole stream of the document before it.
#[verifier::external_body]
fn open_reader<'a>(document: &'a [u8]) -> (reader: TokenReader<'a>)
    ensures
        reader_stream(reader) == xml_stream(document@),
{
    let mut inner = quick_xml::Reader::from_reader(document);
    inner.check_end_names(false);
    TokenReader { inner }
}

/// Calls `quick_xml::Reader::read_event`. Trusted: a token that comes back was the first
/// of the reader's stream, and the rest of the stream is left; `Ok(None)` comes at the
/// end of a well-formed input and leaves the reader there; an error comes where the
/// tokens have run out on malformed input, after which the reader is at its end.
#[verifier::external_body]
fn read_token(reader: &mut TokenReader) -> (r: Result<Option<Token>, quick_xml::Error>)
    ensures
        match r {
            Ok(Some(token)) => {
                &&& reader_stream(*old(reader)).tokens.len() > 0
                &&& token@ == reader_stream(*old(reader)).tokens[0]
                &&& reader_stream(*final(reader)) == (TokenStream {
                    tokens: reader_stream(*old(reader)).tokens.drop_first(),
                    malformed: reader_stream(*old(reader)).malformed,
                })
            },
            Ok(None) => {
                &&& reader_stream(*old(reader)).tokens.len() == 0
                &&& !reader_stream(*old(reader)).malformed
                &&& reader_stream(*final(reader)) == reader_stream(*old(reader))
            },
            Err(_) => {
                &&& reader_stream(*old(reader)).tokens.len() == 0
                &&& reader_stream(*old(reader)).malformed
                &&& reader_stream(*final(reader)) == (TokenStream {
                    tokens: Seq::empty(),
                    malformed: false,
                })
            },
        },
{
    let mut buffer = Vec::new();
    let event = reader.inner.read_event(&mut buffer)?;
    let kind = match &event {
        Event::Start(_) => TokenKind::Start,
        Event::End(_) => TokenKind::End,
        Event::Empty(_) => TokenKind::Empty,
        Event::Text(_) => TokenKind::Text,
        Event::Comment(_) => TokenKind::Comment,
        Event::CData(_) => TokenKind::CData,
        Event::Decl(_) => TokenKind::Decl,
        Event::PI(_) => TokenKind::PI,
        Event::DocType(_) => TokenKind::DocType,
        Event::Eof => return Ok(None),
    };
    Ok(Some(Token { kind, content: event.to_vec() }))
}

/// Runs `quick_xml`'s attribute iterator over a tag's content from `start` on, with its
/// check for duplicates switched off, and collects what it yields. Trusted: the result is
/// the named one, an error standing for `None`.
#[verifier::external_body]
fn read_attributes(content: &[u8], start: usize) -> (r: Result<Vec<Attribute>, quick_xml::Error>)
    ensures
        match r {
            Ok(attributes) => xml_attributes(content@, start as int) == Some(
                attributes_view(attributes@),
            ),
            Err(_) => xml_attributes(content@, start as int) is None,
        },
{
    let mut attributes = Attributes::new(content, start);
    attributes.with_checks(false);
    attributes.map(|a| a.map(|a| Attribute { key: a.key.to_vec(), value: a.value.into_owned() }))
        .collect()
}

/// Calls `String::from_utf8` and, as `quick_xml` does when it decodes, wraps the failure in
/// `quick_xml::Error::Utf8`. Trusted: it succeeds on valid UTF-8 and on nothing else, and
/// the string is what the bytes decode to.
#[verifier::external_body]
fn decode_text(bytes: Vec<u8>) -> (r: Result<String, quick_xml::Error>)
    ensures
        r is Ok <==> valid_utf8(bytes@),
        r is Ok ==> r->Ok_0@ == decode_utf8(bytes@),
{
    String::from_utf8(bytes).map_err(|e| quick_xml::Error::Utf8(e.utf8_error()))
}

/// What decoding a byte string gives: its text, or the tokenizer's error.
pub open spec fn decoded(bytes: Seq<u8>) -> Result<Seq<char>, crate::error::ErrorView> {
    if valid_utf8(bytes) {
        Ok(decode_utf8(bytes))
    } else {
        Err(crate::error::ErrorView::XMLError)
    }
}

/// Decodes bytes as UTF-8.
pub fn decode(bytes: Vec<u8>) -> (r: Result<String, ExecutionError>)
    ensures
        match r {
            Ok(text) => decoded(bytes@) == Ok::<Seq<char>, crate::error::ErrorView>(text@),
            Err(e) => decoded(bytes@) == Err::<Seq<char>, crate::error::ErrorView>(e@),
        },
{
    match decode_text(bytes) {
        Ok(text) => Ok(text),
        Err(e) => Err(ExecutionError::XMLError(e)),
    }
}

/// A tokenizer over one document.
pub struct Tokenizer<'a> {
    reader: TokenReader<'a>,
}

impl<'a> Tokenizer<'a> {
    /// The stream that is still to come.
    pub closed spec fn stream(&self) -> TokenStream {
        reader_stream(self.reader)
    }

    /// Starts at the beginning of `document`.
    pub fn new(document: &'a [u8]) -> (tokenizer: Self)
        ensures
            tokenizer.stream() == xml_stream(document@),
    {
        Tokenizer { reader: open_reader(document) }
    }

    /// Hands out the next token; `Ok(None)` at the end of the input. After an error the
    /// tokenizer is at its end.
    pub fn next_token(&mut self) -> (r: Result<Option<Token>, ExecutionError>)
        ensures
            match r {
                Ok(Some(token)) => {
                    &&& old(self).stream().tokens.len() > 0
                    &&& token@ == old(self).stream().tokens[0]
                    &&& final(self).stream().tokens == old(self).stream().tokens.drop_first()
                    &&& final(self).stream().malformed == old(self).stream().malformed
                },
                Ok(None) => {
                    &&& old(self).stream().tokens.len() == 0
                    &&& !old(self).stream().malformed
                    &&& final(self).stream() == old(self).stream()
                },
                Err(e) => {
                    &&& e@ is XMLError
                    &&& old(self).stream().tokens.len() == 0
                    &&& old(self).stream().malformed
                    &&& final(self).stream().tokens.len() == 0
                    &&& !final(self).stream().malformed
                },
            },
    {
        match read_token(&mut self.reader) {
            Ok(token) => Ok(token),
            Err(e) => Err(ExecutionError::XMLError(e)),
        }
    }
}

impl Token {
    /// The attributes of a start or empty tag, in the order in which they stand.
    pub fn attributes(&self) -> (r: Result<Vec<Attribute>, ExecutionError>)
        ensures
            match r {
                Ok(attributes) => xml_attributes(
                    self@.content,
                    name_len(self@.content) as int,
                ) == Some(attributes_view(attributes@)),
                Err(e) => e@ is XMLError && xml_attributes(
                    self@.content,
                    name_len(self@.content) as int,
                ) is None,
            },
    {
        let start = self.name_len();
        match read_attributes(self.content.as_slice(), start) {
            Ok(attributes) => Ok(attributes),
            Err(e) => Err(ExecutionError::XMLError(e)),
        }
    }
}

} // verus!
