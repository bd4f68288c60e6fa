//! The directive scanner: which tokens of a document are directives, which are dropped,
//! and which pass through.

use crate::error::{ErrorView, ExecutionError};
use crate::token::{
    attributes_view, bytes_eq, decode, decoded, name_len, xml_attributes, xml_stream, Attribute,
    AttributeView, Token, TokenKind, TokenStream, TokenView, Tokenizer,
};
use vstd::prelude::*;
use vstd::slice::slice_to_vec;
use vstd::string::*;
use vstd::utf8::*;

verus! {

/// A directive that the executor has to resolve.
#[derive(Debug)]
pub enum Tag {
    /// Fetch `src`; if that fails fetch `alt`, if there is one; if nothing could be
    /// fetched, go on without the fragment where `continue_on_error` is set.
    Include { src: String, alt: Option<String>, continue_on_error: bool },
}

/// A directive as contracts see it.
pub enum TagView {
    Include { src: Seq<char>, alt: Option<Seq<char>>, continue_on_error: bool },
}

impl View for Tag {
    type V = TagView;

    open spec fn view(&self) -> TagView {
        match self {
            Tag::Include { src, alt, continue_on_error } => TagView::Include {
                src: src@,
                alt: match alt {
                    Some(alt) => Some(alt@),
                    None => None,
                },
                continue_on_error: *continue_on_error,
            },
        }
    }
}

/// What the scanner makes of a token that it does not drop.
#[derive(Debug)]
pub enum Event {
    /// Markup that passes through as it is.
    XML(Token),
    /// A directive.
    ESI(Tag),
}

/// An event as contracts see it.
pub enum EventView {
    XML(TokenView),
    ESI(TagView),
}

impl View for Event {
    type V = EventView;

    open spec fn view(&self) -> EventView {
        match self {
            Event::XML(token) => EventView::XML(token@),
            Event::ESI(tag) => EventView::ESI(tag@),
        }
    }
}

/// The events of a list, each by its view.
pub open spec fn events_view(events: Seq<Event>) -> Seq<EventView> {
    events.map_values(|e: Event| e@)
}

/// The first index from `from` on at which `key` stands, if any.
pub open spec fn position_of(attributes: Seq<AttributeView>, key: Seq<u8>, from: int) -> Option<
    int,
>
    decreases attributes.len() - from,
{
    if from < 0 || from >= attributes.len() {
        None
    } else if attributes[from].key == key {
        Some(from)
    } else {
        position_of(attributes, key, from + 1)
    }
}

/// The value of the first attribute with this key, if any.
pub open spec fn value_of(attributes: Seq<AttributeView>, key: Seq<u8>) -> Option<Seq<u8>> {
    match position_of(attributes, key, 0) {
        Some(i) => Some(attributes[i].value),
        None => None,
    }
}

/// Whether the key at `at` stands at an earlier index too.
pub open spec fn repeats(attributes: Seq<AttributeView>, at: int) -> bool {
    exists|i: int| 0 <= i < at && (#[trigger] attributes[i]).key == attributes[at].key
}

/// The first index from `from` on whose key repeats an earlier one, if any.
pub open spec fn first_repeat(attributes: Seq<AttributeView>, from: int) -> Option<int>
    decreases attributes.len() - from,
{
    if from < 0 || from >= attributes.len() {
        None
    } else if repeats(attributes, from) {
        Some(from)
    } else {
        first_repeat(attributes, from + 1)
    }
}

/// The directive that a list of attributes describes. A repeated key is refused first,
/// then a missing `src`, then a `src` or `alt` that is no text. Only the value `continue`
/// of `onerror` sets `continue_on_error`.
pub open spec fn include_of(attributes: Seq<AttributeView>) -> Result<TagView, ErrorView> {
    match first_repeat(attributes, 0) {
        Some(at) => Err(
            match decoded(attributes[at].key) {
                Ok(name) => ErrorView::DuplicateTagAttribute(name),
                Err(e) => e,
            },
        ),
        None => match value_of(attributes, "src".spec_bytes()) {
            None => Err(ErrorView::MissingRequiredParameter("include"@, "src"@)),
            Some(src) => match decoded(src) {
                Err(e) => Err(e),
                Ok(src) => {
                    let continue_on_error = value_of(attributes, "onerror".spec_bytes()) == Some(
                        "continue".spec_bytes(),
                    );
                    match value_of(attributes, "alt".spec_bytes()) {
                        None => Ok(TagView::Include { src, alt: None, continue_on_error }),
                        Some(alt) => match decoded(alt) {
                            Err(e) => Err(e),
                            Ok(alt) => Ok(
                                TagView::Include { src, alt: Some(alt), continue_on_error },
                            ),
                        },
                    }
                },
            },
        },
    }
}

/// The directive that a start or empty tag describes.
pub open spec fn parsed_include(token: TokenView) -> Result<TagView, ErrorView> {
    match xml_attributes(token.content, name_len(token.content) as int) {
        None => Err(ErrorView::XMLError),
        Some(attributes) => include_of(attributes),
    }
}

fn find_attribute(attributes: &Vec<Attribute>, key: &[u8]) -> (found: Option<usize>)
    ensures
        match found {
            Some(i) => position_of(attributes_view(attributes@), key@, 0) == Some(i as int) && i
                < attributes@.len(),
            None => position_of(attributes_view(attributes@), key@, 0) is None,
        },
{
    let mut i: usize = 0;
    while i < attributes.len()
        invariant
            i <= attributes@.len(),
            position_of(attributes_view(attributes@), key@, 0) == position_of(
                attributes_view(attributes@),
                key@,
                i as int,
            ),
        decreases attributes@.len() - i,
    {
        if bytes_eq(attributes[i].key.as_slice(), key) {
            return Some(i);
        }
        i = i + 1;
    }
    None
}

fn repeats_earlier(attributes: &Vec<Attribute>, at: usize) -> (b: bool)
    requires
        at < attributes@.len(),
    ensures
        b == repeats(attributes_view(attributes@), at as int),
{
    let mut i: usize = 0;
    while i < at
        invariant
            i <= at < attributes@.len(),
            forall|k: int|
                0 <= k < i ==> (#[trigger] attributes_view(attributes@)[k]).key
                    != attributes_view(attributes@)[at as int].key,
        decreases at - i,
    {
        if bytes_eq(attributes[i].key.as_slice(), attributes[at].key.as_slice()) {
            assert(attributes_view(attributes@)[i as int].key == attributes_view(
                attributes@,
            )[at as int].key);
            return true;
        }
        i = i + 1;
    }
    false
}

fn find_repeat(attributes: &Vec<Attribute>) -> (found: Option<usize>)
    ensures
        match found {
            Some(i) => first_repeat(attributes_view(attributes@), 0) == Some(i as int) && i
                < attributes@.len(),
            None => first_repeat(attributes_view(attributes@), 0) is None,
        },
{
    let mut at: usize = 0;
    while at < attributes.len()
        invariant
            at <= attributes@.len(),
            first_repeat(attributes_view(attributes@), 0) == first_repeat(
                attributes_view(attributes@),
                at as int,
            ),
        decreases attributes@.len() - at,
    {
        if repeats_earlier(attributes, at) {
            return Some(at);
        }
        at = at + 1;
    }
    None
}

/// Reads the directive off a list of attributes.
pub fn include_from(attributes: &Vec<Attribute>) -> (r: Result<Tag, ExecutionError>)
    ensures
        match r {
            Ok(tag) => include_of(attributes_view(attributes@)) == Ok::<TagView, ErrorView>(tag@),
            Err(e) => include_of(attributes_view(attributes@)) == Err::<TagView, ErrorView>(e@),
        },
{
    let ghost attrs = attributes_view(attributes@);
    if let Some(at) = find_repeat(attributes) {
        assert(attrs[at as int].key == attributes@[at as int].key@);
        return match decode(slice_to_vec(attributes[at].key.as_slice())) {
            Ok(name) => Err(ExecutionError::DuplicateTagAttribute(name)),
            Err(e) => Err(e),
        };
    }
    let src = match find_attribute(attributes, "src".as_bytes()) {
        None => {
            return Err(
                ExecutionError::MissingRequiredParameter(
                    "include".to_owned(),
                    "src".to_owned(),
                ),
            );
        },
        Some(i) => {
            assert(attrs[i as int].value == attributes@[i as int].value@);
            match decode(slice_to_vec(attributes[i].value.as_slice())) {
                Ok(src) => src,
                Err(e) => {
                    return Err(e);
                },
            }
        },
    };
    let continue_on_error = match find_attribute(attributes, "onerror".as_bytes()) {
        None => false,
        Some(i) => {
            assert(attrs[i as int].value == attributes@[i as int].value@);
            bytes_eq(attributes[i].value.as_slice(), "continue".as_bytes())
        },
    };
    let alt = match find_attribute(attributes, "alt".as_bytes()) {
        None => None,
        Some(i) => {
            assert(attrs[i as int].value == attributes@[i as int].value@);
            match decode(slice_to_vec(attributes[i].value.as_slice())) {
                Ok(alt) => Some(alt),
                Err(e) => {
                    return Err(e);
                },
            }
        },
    };
    Ok(Tag::Include { src, alt, continue_on_error })
}

/// Reads the directive off the attributes of a start or empty tag.
pub fn parse_include(token: &Token) -> (r: Result<Tag, ExecutionError>)
    ensures
        match r {
            Ok(tag) => parsed_include(token@) == Ok::<TagView, ErrorView>(tag@),
            Err(e) => parsed_include(token@) == Err::<TagView, ErrorView>(e@),
        },
{
    match token.attributes() {
        Ok(attributes) => include_from(&attributes),
        Err(e) => Err(e),
    }
}

/// What the scanner remembers between tokens: whether it is inside a remove block, and
/// whether inside the body of a paired directive.
#[derive(Clone, Copy, Debug, PartialEq, Eq, Structural)]
pub struct ScanState {
    pub remove: bool,
    pub open_include: bool,
}

/// What one token comes to.
pub enum StepView {
    /// No event: the token is consumed by the scanner.
    Dropped,
    /// The token passes through, or fires a directive.
    Emitted(EventView),
    /// The document is refused.
    Failed(ErrorView),
}

/// The qualified name of the remove block in a namespace.
pub open spec fn remove_name(namespace: Seq<char>) -> Seq<char> {
    namespace + ":remove"@
}

/// The qualified name of the include directive in a namespace.
pub open spec fn include_name(namespace: Seq<char>) -> Seq<char> {
    namespace + ":include"@
}

/// The qualified name of the comment directive in a namespace.
pub open spec fn comment_name(namespace: Seq<char>) -> Seq<char> {
    namespace + ":comment"@
}

/// Whether a token is a tag of this kind with exactly this name.
pub open spec fn is_tag(token: TokenView, kind: TokenKind, name: Seq<char>) -> bool {
    token.kind == kind && token.name() == encode_utf8(name)
}

/// The state in which a scan begins, and in which it has to end.
pub open spec fn initial_state() -> ScanState {
    ScanState { remove: false, open_include: false }
}

/// One step of the scanner.
///
/// Inside a remove block only the tag that closes it is seen, and everything else is
/// dropped. Inside the body of a paired include, likewise, only the tag that closes it is
/// seen: the body is never written, and no directive in it fires. Outside of both, the
/// tag that opens a remove block starts one; an include directive fires, and its paired
/// form opens a body; a comment directive is dropped; a closing tag of either block is
/// refused, as nothing is open; everything else passes through. A tag is told by its
/// whole name: `<esi:includes>` is markup. Where a token is refused the state stays as it
/// was.
pub open spec fn scan_step(namespace: Seq<char>, state: ScanState, token: TokenView) -> (
    ScanState,
    StepView,
) {
    if state.remove {
        if is_tag(token, TokenKind::End, remove_name(namespace)) {
            (ScanState { remove: false, ..state }, StepView::Dropped)
        } else {
            (state, StepView::Dropped)
        }
    } else if state.open_include {
        if is_tag(token, TokenKind::End, include_name(namespace)) {
            (ScanState { open_include: false, ..state }, StepView::Dropped)
        } else {
            (state, StepView::Dropped)
        }
    } else if is_tag(token, TokenKind::Start, remove_name(namespace)) {
        (ScanState { remove: true, ..state }, StepView::Dropped)
    } else if is_tag(token, TokenKind::End, remove_name(namespace)) {
        (state, StepView::Failed(ErrorView::UnexpectedClosingTag(remove_name(namespace))))
    } else if is_tag(token, TokenKind::Empty, include_name(namespace)) {
        match parsed_include(token) {
            Ok(tag) => (state, StepView::Emitted(EventView::ESI(tag))),
            Err(e) => (state, StepView::Failed(e)),
        }
    } else if is_tag(token, TokenKind::Start, include_name(namespace)) {
        match parsed_include(token) {
            Ok(tag) => (
                ScanState { open_include: true, ..state },
                StepView::Emitted(EventView::ESI(tag)),
            ),
            Err(e) => (state, StepView::Failed(e)),
        }
    } else if is_tag(token, TokenKind::End, include_name(namespace)) {
        (state, StepView::Failed(ErrorView::UnexpectedClosingTag(include_name(namespace))))
    } else if is_tag(token, TokenKind::Empty, comment_name(namespace)) {
        (state, StepView::Dropped)
    } else {
        (state, StepView::Emitted(EventView::XML(token)))
    }
}

/// What the end of the input comes to: malformed input is the tokenizer's error, and a
/// block that is still open is refused under its tag's name.
pub open spec fn end_failure(namespace: Seq<char>, state: ScanState, malformed: bool) -> Option<
    ErrorView,
> {
    if malformed {
        Some(ErrorView::XMLError)
    } else if state.remove {
        Some(ErrorView::UnexpectedClosingTag(remove_name(namespace)))
    } else if state.open_include {
        Some(ErrorView::UnexpectedClosingTag(include_name(namespace)))
    } else {
        None
    }
}

/// The outcome of a scan: the events up to the end of the input or to the token that
/// was refused, and the failure, if the scan ended in one.
pub struct ScanView {
    pub events: Seq<EventView>,
    pub failure: Option<ErrorView>,
}

/// The scan of a token stream from a given state on.
pub open spec fn scan_from(namespace: Seq<char>, state: ScanState, stream: TokenStream) -> ScanView
    decreases stream.tokens.len(),
{
    if stream.tokens.len() == 0 {
        ScanView { events: Seq::empty(), failure: end_failure(namespace, state, stream.malformed) }
    } else {
        let (next, step) = scan_step(namespace, state, stream.tokens[0]);
        let rest = TokenStream { tokens: stream.tokens.drop_first(), malformed: stream.malformed };
        match step {
            StepView::Failed(e) => ScanView { events: Seq::empty(), failure: Some(e) },
            StepView::Dropped => scan_from(namespace, next, rest),
            StepView::Emitted(event) => {
                let tail = scan_from(namespace, next, rest);
                ScanView { events: seq![event] + tail.events, failure: tail.failure }
            },
        }
    }
}

/// The scan of a whole document.
pub open spec fn scan(namespace: Seq<char>, document: Seq<u8>) -> ScanView {
    scan_from(namespace, initial_state(), xml_stream(document))
}

/// The directive scanner of one document.
pub struct Scanner {
    remove: String,
    include_tag: String,
    comment: String,
    namespace: Ghost<Seq<char>>,
    state: ScanState,
}

impl Scanner {
    #[verifier::type_invariant]
    spec fn names_agree(&self) -> bool {
        &&& self.remove@ == remove_name(self.namespace@)
        &&& self.include_tag@ == include_name(self.namespace@)
        &&& self.comment@ == comment_name(self.namespace@)
    }

    /// The namespace whose directives the scanner recognizes.
    pub closed spec fn namespace(&self) -> Seq<char> {
        self.namespace@
    }

    /// Where the scanner stands.
    pub closed spec fn state(&self) -> ScanState {
        self.state
    }

    /// A scanner at the start of a document.
    pub fn new(namespace: &str) -> (scanner: Self)
        ensures
            scanner.namespace() == namespace@,
            scanner.state() == initial_state(),
    {
        Scanner {
            remove: namespace.to_owned().concat(":remove"),
            include_tag: namespace.to_owned().concat(":include"),
            comment: namespace.to_owned().concat(":comment"),
            namespace: Ghost(namespace@),
            state: ScanState { remove: false, open_include: false },
        }
    }

    /// Takes the next token of the document.
    pub fn step(&mut self, token: Token) -> (r: Result<Option<Event>, ExecutionError>)
        ensures
            final(self).namespace() == old(self).namespace(),
            final(self).state() == scan_step(old(self).namespace(), old(self).state(), token@).0,
            match r {
                Ok(None) => scan_step(old(self).namespace(), old(self).state(), token@).1
                    is Dropped,
                Ok(Some(event)) => scan_step(old(self).namespace(), old(self).state(), token@).1
                    == StepView::Emitted(event@),
                Err(e) => scan_step(old(self).namespace(), old(self).state(), token@).1
                    == StepView::Failed(e@),
            },
    {
        proof {
            use_type_invariant(&*self);
        }
        if self.state.remove {
            if token.is_tag(TokenKind::End, self.remove.as_str().as_bytes()) {
                self.state.remove = false;
            }
            Ok(None)
        } else if self.state.open_include {
            if token.is_tag(TokenKind::End, self.include_tag.as_str().as_bytes()) {
                self.state.open_include = false;
            }
            Ok(None)
        } else if token.is_tag(TokenKind::Start, self.remove.as_str().as_bytes()) {
            self.state.remove = true;
            Ok(None)
        } else if token.is_tag(TokenKind::End, self.remove.as_str().as_bytes()) {
            Err(ExecutionError::UnexpectedClosingTag(self.remove.clone()))
        } else if token.is_tag(TokenKind::Empty, self.include_tag.as_str().as_bytes()) {
            match parse_include(&token) {
                Ok(tag) => Ok(Some(Event::ESI(tag))),
                Err(e) => Err(e),
            }
        } else if token.is_tag(TokenKind::Start, self.include_tag.as_str().as_bytes()) {
            match parse_include(&token) {
                Ok(tag) => {
                    self.state.open_include = true;
                    Ok(Some(Event::ESI(tag)))
                },
                Err(e) => Err(e),
            }
        } else if token.is_tag(TokenKind::End, self.include_tag.as_str().as_bytes()) {
            Err(ExecutionError::UnexpectedClosingTag(self.include_tag.clone()))
        } else if token.is_tag(TokenKind::Empty, self.comment.as_str().as_bytes()) {
            Ok(None)
        } else {
            Ok(Some(Event::XML(token)))
        }
    }

    /// Closes the scan at the end of a well-formed input: no block may be open.
    pub fn finish(&self) -> (r: Result<(), ExecutionError>)
        ensures
            match r {
                Ok(_) => end_failure(self.namespace(), self.state(), false) is None,
                Err(e) => end_failure(self.namespace(), self.state(), false) == Some(e@),
            },
    {
        proof {
            use_type_invariant(self);
        }
        if self.state.remove {
            Err(ExecutionError::UnexpectedClosingTag(self.remove.clone()))
        } else if self.state.open_include {
            Err(ExecutionError::UnexpectedClosingTag(self.include_tag.clone()))
        } else {
            Ok(())
        }
    }
}

/// A scanned document: the events that the scan produced before it ended, and the
/// failure in which it ended, if it did.
#[derive(Debug)]
pub struct Parsed {
    pub events: Vec<Event>,
    pub failure: Option<ExecutionError>,
}

impl View for Parsed {
    type V = ScanView;

    open spec fn view(&self) -> ScanView {
        ScanView {
            events: events_view(self.events@),
            failure: match self.failure {
                Some(e) => Some(e@),
                None => None,
            },
        }
    }
}

proof fn lemma_scan_emitted(
    namespace: Seq<char>,
    state: ScanState,
    stream: TokenStream,
    done: Seq<EventView>,
)
    requires
        stream.tokens.len() > 0,
    ensures
        ({
            let (next, step) = scan_step(namespace, state, stream.tokens[0]);
            let rest = TokenStream {
                tokens: stream.tokens.drop_first(),
                malformed: stream.malformed,
            };
            let whole = scan_from(namespace, state, stream);
            let tail = scan_from(namespace, next, rest);
            match step {
                StepView::Failed(e) => done + whole.events == done && whole.failure == Some(e),
                StepView::Dropped => whole == tail,
                StepView::Emitted(event) => done + whole.events == done.push(event) + tail.events
                    && whole.failure == tail.failure,
            }
        }),
{
    let (next, step) = scan_step(namespace, state, stream.tokens[0]);
    let rest = TokenStream { tokens: stream.tokens.drop_first(), malformed: stream.malformed };
    let whole = scan_from(namespace, state, stream);
    let tail = scan_from(namespace, next, rest);
    match step {
        StepView::Failed(e) => {
            assert(done + whole.events =~= done);
        },
        StepView::Dropped => {},
        StepView::Emitted(event) => {
            assert(done + whole.events =~= done.push(event) + tail.events);
        },
    }
}

/// Scans a document for the directives of a namespace.
pub fn parse_tags(namespace: &str, document: &[u8]) -> (parsed: Parsed)
    ensures
        parsed@ == scan(namespace@, document@),
{
    let mut tokenizer = Tokenizer::new(document);
    let mut scanner = Scanner::new(namespace);
    let mut events: Vec<Event> = Vec::new();
    let ghost whole = scan(namespace@, document@);
    assert(Seq::<EventView>::empty() + whole.events =~= whole.events);
    loop
        invariant
            scanner.namespace() == namespace@,
            whole == scan(namespace@, document@),
            whole.events == events_view(events@) + scan_from(
                namespace@,
                scanner.state(),
                tokenizer.stream(),
            ).events,
            whole.failure == scan_from(namespace@, scanner.state(), tokenizer.stream()).failure,
        decreases tokenizer.stream().tokens.len(),
    {
        let ghost before = tokenizer.stream();
        let ghost state = scanner.state();
        let ghost done = events_view(events@);
        let token = match tokenizer.next_token() {
            Ok(Some(token)) => token,
            Ok(None) => {
                let failure = match scanner.finish() {
                    Ok(_) => None,
                    Err(e) => Some(e),
                };
                assert(done + Seq::<EventView>::empty() =~= done);
                return Parsed { events, failure };
            },
            Err(e) => {
                assert(done + Seq::<EventView>::empty() =~= done);
                return Parsed { events, failure: Some(e) };
            },
        };
        proof {
            lemma_scan_emitted(namespace@, state, before, done);
            assert(tokenizer.stream() == (TokenStream {
                tokens: before.tokens.drop_first(),
                malformed: before.malformed,
            }));
        }
        match scanner.step(token) {
            Ok(None) => {},
            Ok(Some(event)) => {
                events.push(event);
                assert(events_view(events@) =~= done.push(event@));
            },
            Err(e) => {
                    return Parsed { events, failure: Some(e) };
            },
        }
    }
}

/// Whether a token is one of the tags that the scanner knows in this namespace.
pub open spec fn is_directive(namespace: Seq<char>, token: TokenView) -> bool {
    ||| is_tag(token, TokenKind::Start, remove_name(namespace))
    ||| is_tag(token, TokenKind::End, remove_name(namespace))
    ||| is_tag(token, TokenKind::Empty, include_name(namespace))
    ||| is_tag(token, TokenKind::Start, include_name(namespace))
    ||| is_tag(token, TokenKind::End, include_name(namespace))
    ||| is_tag(token, TokenKind::Empty, comment_name(namespace))
}

/// Each token as markup that passes through.
pub open spec fn as_markup(tokens: Seq<TokenView>) -> Seq<EventView> {
    tokens.map_values(|token: TokenView| EventView::XML(token))
}

/// Where none of the tokens is a tag of the namespace, every token passes through, in
/// order, and the scan fails only where the input is malformed.
pub proof fn lemma_scan_without_directives(namespace: Seq<char>, stream: TokenStream)
    requires
        forall|i: int|
            0 <= i < stream.tokens.len() ==> !is_directive(namespace, #[trigger] stream.tokens[i]),
    ensures
        scan_from(namespace, initial_state(), stream) == (ScanView {
            events: as_markup(stream.tokens),
            failure: end_failure(namespace, initial_state(), stream.malformed),
        }),
    decreases stream.tokens.len(),
{
    if stream.tokens.len() == 0 {
        assert(as_markup(stream.tokens) =~= Seq::<EventView>::empty());
    } else {
        let head = stream.tokens[0];
        let rest = TokenStream { tokens: stream.tokens.drop_first(), malformed: stream.malformed };
        assert(!is_directive(namespace, head));
        assert forall|i: int| 0 <= i < rest.tokens.len() implies !is_directive(
            namespace,
            #[trigger] rest.tokens[i],
        ) by {
            assert(rest.tokens[i] == stream.tokens[i + 1]);
        }
        lemma_scan_without_directives(namespace, rest);
        assert(as_markup(stream.tokens) =~= seq![EventView::XML(head)] + as_markup(rest.tokens));
    }
}

/// Inside a remove block everything is erased: whatever tokens stand before the tag
/// that closes the block, the scan goes on behind them as if they were not there.
pub proof fn lemma_remove_block_erased(
    namespace: Seq<char>,
    state: ScanState,
    erased: Seq<TokenView>,
    rest: TokenStream,
)
    requires
        state.remove,
        forall|i: int|
            0 <= i < erased.len() ==> !is_tag(
                #[trigger] erased[i],
                TokenKind::End,
                remove_name(namespace),
            ),
    ensures
        scan_from(
            namespace,
            state,
            TokenStream { tokens: erased + rest.tokens, malformed: rest.malformed },
        ) == scan_from(namespace, state, rest),
    decreases erased.len(),
{
    let whole = TokenStream { tokens: erased + rest.tokens, malformed: rest.malformed };
    if erased.len() == 0 {
        assert(erased + rest.tokens =~= rest.tokens);
    } else {
        let head = erased[0];
        assert(whole.tokens[0] == head);
        assert(!is_tag(head, TokenKind::End, remove_name(namespace)));
        assert(whole.tokens.drop_first() =~= erased.drop_first() + rest.tokens);
        assert forall|i: int| 0 <= i < erased.drop_first().len() implies !is_tag(
            #[trigger] erased.drop_first()[i],
            TokenKind::End,
            remove_name(namespace),
        ) by {
            assert(erased.drop_first()[i] == erased[i + 1]);
        }
        lemma_remove_block_erased(namespace, state, erased.drop_first(), rest);
    }
}

/// The body of a paired include is erased in the same way: whatever tokens stand before
/// the tag that closes the include, none of them is written and none of them fires.
pub proof fn lemma_include_body_erased(
    namespace: Seq<char>,
    state: ScanState,
    erased: Seq<TokenView>,
    rest: TokenStream,
)
    requires
        !state.remove,
        state.open_include,
        forall|i: int|
            0 <= i < erased.len() ==> !is_tag(
                #[trigger] erased[i],
                TokenKind::End,
                include_name(namespace),
            ),
    ensures
        scan_from(
            namespace,
            state,
            TokenStream { tokens: erased + rest.tokens, malformed: rest.malformed },
        ) == scan_from(namespace, state, rest),
    decreases erased.len(),
{
    let whole = TokenStream { tokens: erased + rest.tokens, malformed: rest.malformed };
    if erased.len() == 0 {
        assert(erased + rest.tokens =~= rest.tokens);
    } else {
        let head = erased[0];
        assert(whole.tokens[0] == head);
        assert(!is_tag(head, TokenKind::End, include_name(namespace)));
        assert(whole.tokens.drop_first() =~= erased.drop_first() + rest.tokens);
        assert forall|i: int| 0 <= i < erased.drop_first().len() implies !is_tag(
            #[trigger] erased.drop_first()[i],
            TokenKind::End,
            include_name(namespace),
        ) by {
            assert(erased.drop_first()[i] == erased[i + 1]);
        }
        lemma_include_body_erased(namespace, state, erased.drop_first(), rest);
    }
}

/// A remove block leaves no trace: its tags and all that stands between them are gone,
/// and the scan goes on behind the block as if it had not been there.
pub proof fn lemma_remove_block_leaves_nothing(
    namespace: Seq<char>,
    opening: TokenView,
    erased: Seq<TokenView>,
    closing: TokenView,
    rest: TokenStream,
)
    requires
        is_tag(opening, TokenKind::Start, remove_name(namespace)),
        is_tag(closing, TokenKind::End, remove_name(namespace)),
        forall|i: int|
            0 <= i < erased.len() ==> !is_tag(
                #[trigger] erased[i],
                TokenKind::End,
                remove_name(namespace),
            ),
    ensures
        scan_from(
            namespace,
            initial_state(),
            TokenStream {
                tokens: seq![opening] + erased + seq![closing] + rest.tokens,
                malformed: rest.malformed,
            },
        ) == scan_from(namespace, initial_state(), rest),
{
    let inside = ScanState { remove: true, open_include: false };
    let whole = seq![opening] + erased + seq![closing] + rest.tokens;
    let behind = TokenStream { tokens: seq![closing] + rest.tokens, malformed: rest.malformed };
    assert(whole[0] == opening);
    assert(whole.drop_first() =~= erased + behind.tokens);
    lemma_remove_block_erased(namespace, inside, erased, behind);
    assert(behind.tokens[0] == closing);
    assert(behind.tokens.drop_first() =~= rest.tokens);
}

/// A paired include fires once, where it opens: its body and its closing tag are gone,
/// whatever the body holds, and the scan goes on behind it.
pub proof fn lemma_paired_include_fires_once(
    namespace: Seq<char>,
    opening: TokenView,
    body: Seq<TokenView>,
    closing: TokenView,
    rest: TokenStream,
)
    requires
        is_tag(opening, TokenKind::Start, include_name(namespace)),
        parsed_include(opening) is Ok,
        is_tag(closing, TokenKind::End, include_name(namespace)),
        forall|i: int|
            0 <= i < body.len() ==> !is_tag(
                #[trigger] body[i],
                TokenKind::End,
                include_name(namespace),
            ),
    ensures
        ({
            let whole = scan_from(
                namespace,
                initial_state(),
                TokenStream {
                    tokens: seq![opening] + body + seq![closing] + rest.tokens,
                    malformed: rest.malformed,
                },
            );
            let behind = scan_from(namespace, initial_state(), rest);
            &&& whole.events == seq![EventView::ESI(parsed_include(opening)->Ok_0)] + behind.events
            &&& whole.failure == behind.failure
        }),
{
    lemma_names_apart(namespace, namespace);
    let inside = ScanState { remove: false, open_include: true };
    let whole = seq![opening] + body + seq![closing] + rest.tokens;
    let behind = TokenStream { tokens: seq![closing] + rest.tokens, malformed: rest.malformed };
    assert(whole[0] == opening);
    assert(whole.drop_first() =~= body + behind.tokens);
    lemma_include_body_erased(namespace, inside, body, behind);
    assert(behind.tokens[0] == closing);
    assert(behind.tokens.drop_first() =~= rest.tokens);
}

/// A comment directive outside of any block is dropped, and changes nothing.
pub proof fn lemma_comment_is_dropped(namespace: Seq<char>, token: TokenView)
    requires
        is_tag(token, TokenKind::Empty, comment_name(namespace)),
    ensures
        scan_step(namespace, initial_state(), token) == (initial_state(), StepView::Dropped),
{
    lemma_names_apart(namespace, namespace);
}

/// A tag that closes a block is refused where no such block is open.
pub proof fn lemma_closing_tag_needs_its_block(namespace: Seq<char>, token: TokenView)
    ensures
        is_tag(token, TokenKind::End, remove_name(namespace)) ==> scan_step(
            namespace,
            initial_state(),
            token,
        ).1 == StepView::Failed(ErrorView::UnexpectedClosingTag(remove_name(namespace))),
        is_tag(token, TokenKind::End, include_name(namespace)) ==> scan_step(
            namespace,
            initial_state(),
            token,
        ).1 == StepView::Failed(ErrorView::UnexpectedClosingTag(include_name(namespace))),
{
    lemma_names_apart(namespace, namespace);
}

/// A scan is never inside a remove block and inside the body of a paired include at once.
pub proof fn lemma_one_block_at_a_time(namespace: Seq<char>, state: ScanState, token: TokenView)
    requires
        !(state.remove && state.open_include),
    ensures
        !(scan_step(namespace, state, token).0.remove && scan_step(
            namespace,
            state,
            token,
        ).0.open_include),
{
}

/// The names of different tags are different, whatever the namespaces; the names of the
/// same tag in two namespaces are different too.
proof fn lemma_names_apart(a: Seq<char>, b: Seq<char>)
    ensures
        remove_name(a) != include_name(b),
        remove_name(a) != comment_name(b),
        include_name(a) != remove_name(b),
        include_name(a) != comment_name(b),
        comment_name(a) != remove_name(b),
        comment_name(a) != include_name(b),
        a != b ==> remove_name(a) != remove_name(b),
        a != b ==> include_name(a) != include_name(b),
        a != b ==> comment_name(a) != comment_name(b),
        forall|x: Seq<char>, y: Seq<char>|
            x != y ==> #[trigger] encode_utf8(x) != #[trigger] encode_utf8(y),
{
    broadcast use vstd::utf8::encode_utf8_decode_utf8;

    assert forall|x: Seq<char>, y: Seq<char>| x != y implies #[trigger] encode_utf8(x)
        != #[trigger] encode_utf8(y) by {
        assert(decode_utf8(encode_utf8(x)) == x);
        assert(decode_utf8(encode_utf8(y)) == y);
    }
    reveal_strlit(":remove");
    reveal_strlit(":include");
    reveal_strlit(":comment");
    let remove = ":remove"@;
    let include_tag = ":include"@;
    let comment = ":comment"@;
    assert(remove[5] == 'v' && include_tag[6] == 'd' && comment[6] == 'n');
    assert forall|x: Seq<char>, tail: Seq<char>| #![trigger x + tail]
        tail.len() >= 2 implies (x + tail)[(x + tail).len() - 2] == tail[tail.len() - 2] by {}
    assert forall|tail: Seq<char>| #![trigger a + tail, b + tail]
        a != b implies a + tail != b + tail by {
        if a + tail == b + tail {
            assert((a + tail).len() == (b + tail).len());
            assert forall|i: int| 0 <= i < a.len() implies a[i] == b[i] by {
                assert((a + tail)[i] == a[i]);
                assert((b + tail)[i] == b[i]);
            }
            assert(a =~= b);
        }
    }
    assert(a != b ==> a + remove != b + remove);
    assert(a != b ==> a + include_tag != b + include_tag);
    assert(a != b ==> a + comment != b + comment);
    assert((a + remove)[(a + remove).len() - 2] == 'v');
    assert((b + remove)[(b + remove).len() - 2] == 'v');
    assert((a + include_tag)[(a + include_tag).len() - 2] == 'd');
    assert((b + include_tag)[(b + include_tag).len() - 2] == 'd');
    assert((a + comment)[(a + comment).len() - 2] == 'n');
    assert((b + comment)[(b + comment).len() - 2] == 'n');
}

/// Namespaces are kept apart: a tag of one namespace is no tag of any other, and passes
/// through a scan for the other as markup unless a block of that scan erases it.
pub proof fn lemma_namespaces_apart(
    namespace: Seq<char>,
    other: Seq<char>,
    state: ScanState,
    token: TokenView,
)
    requires
        namespace != other,
        is_directive(other, token),
    ensures
        !is_directive(namespace, token),
        !state.remove && !state.open_include ==> scan_step(namespace, state, token) == (
            state,
            StepView::Emitted(EventView::XML(token)),
        ),
{
    lemma_names_apart(namespace, other);
}

/// A scan fails only on what is wrong with the document itself.
pub proof fn lemma_scan_failure_is_structural(
    namespace: Seq<char>,
    state: ScanState,
    stream: TokenStream,
)
    ensures
        scan_from(namespace, state, stream).failure matches Some(e) ==> e.is_structural(),
    decreases stream.tokens.len(),
{
    if stream.tokens.len() != 0 {
        let (next, step) = scan_step(namespace, state, stream.tokens[0]);
        let rest = TokenStream { tokens: stream.tokens.drop_first(), malformed: stream.malformed };
        lemma_scan_failure_is_structural(namespace, next, rest);
    }
}

} // verus!
