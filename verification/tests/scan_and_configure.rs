use esi::config::BackendConfiguration;
use esi::fetch::FetchOutcome;
use esi::parse::{include_from, parse_include, parse_tags, Event, Scanner, Tag};
use esi::token::{decode, Attribute, Token, TokenKind, Tokenizer};
use esi::{Configuration, ExecutionError, Processor};

fn tokens_of(document: &str) -> Vec<(TokenKind, String)> {
    let mut tokenizer = Tokenizer::new(document.as_bytes());
    let mut tokens = Vec::new();
    while let Some(token) = tokenizer.next_token().unwrap() {
        tokens.push((token.kind, String::from_utf8(token.content).unwrap()));
    }
    tokens
}

fn start(content: &str) -> Token {
    Token { kind: TokenKind::Start, content: content.as_bytes().to_vec() }
}

#[test]
fn tokenizer_tells_the_kinds_apart() {
    let tokens = tokens_of("<?xml version=\"1.0\"?><!DOCTYPE a><a x=\"1\">t<b/><!--c--><?pi d?><![CDATA[e]]></a >");
    assert_eq!(
        tokens,
        vec![
            (TokenKind::Text, String::new()),
            (TokenKind::Decl, String::from("xml version=\"1.0\"")),
            (TokenKind::Text, String::new()),
            (TokenKind::DocType, String::from(" a")),
            (TokenKind::Text, String::new()),
            (TokenKind::Start, String::from("a x=\"1\"")),
            (TokenKind::Text, String::from("t")),
            (TokenKind::Empty, String::from("b")),
            (TokenKind::Text, String::new()),
            (TokenKind::Comment, String::from("c")),
            (TokenKind::Text, String::new()),
            (TokenKind::PI, String::from("pi d")),
            (TokenKind::Text, String::new()),
            (TokenKind::CData, String::from("e")),
            (TokenKind::Text, String::new()),
            (TokenKind::End, String::from("a")),
        ]
    );
}

#[test]
fn tokenizer_stays_at_the_end() {
    let mut tokenizer = Tokenizer::new(b"x");
    assert!(tokenizer.next_token().unwrap().is_some());
    assert!(tokenizer.next_token().unwrap().is_none());
    assert!(tokenizer.next_token().unwrap().is_none());
}

#[test]
fn tokenizer_is_at_its_end_after_an_error() {
    let mut tokenizer = Tokenizer::new(b"a<!x>b");
    assert!(tokenizer.next_token().unwrap().is_some());
    assert!(matches!(tokenizer.next_token(), Err(ExecutionError::XMLError(_))));
    assert!(tokenizer.next_token().unwrap().is_none());
}

#[test]
fn tokenizer_does_not_match_end_names() {
    let tokens = tokens_of("</a><b></c>");
    assert_eq!(
        tokens,
        vec![
            (TokenKind::Text, String::new()),
            (TokenKind::End, String::from("a")),
            (TokenKind::Text, String::new()),
            (TokenKind::Start, String::from("b")),
            (TokenKind::Text, String::new()),
            (TokenKind::End, String::from("c")),
        ]
    );
}

#[test]
fn name_ends_at_the_first_blank() {
    assert_eq!(start("esi:include src=\"a\"").name_len(), 11);
    assert_eq!(start("esi:include\tsrc=\"a\"").name_len(), 11);
    assert_eq!(start("esi:include\nsrc=\"a\"").name_len(), 11);
    assert_eq!(start("esi:include\rsrc=\"a\"").name_len(), 11);
    assert_eq!(start("esi:include").name_len(), 11);
    assert_eq!(start(" x").name_len(), 0);
    assert_eq!(start("").name_len(), 0);
}

#[test]
fn tag_is_told_by_kind_and_whole_name() {
    let token = start("esi:remove x=\"1\"");
    assert!(token.is_tag(TokenKind::Start, b"esi:remove"));
    assert!(!token.is_tag(TokenKind::Empty, b"esi:remove"));
    assert!(!token.is_tag(TokenKind::Start, b"esi:remov"));
    assert!(!token.is_tag(TokenKind::Start, b"esi:remove "));
    let end = Token { kind: TokenKind::End, content: b"esi:remove".to_vec() };
    assert!(end.is_tag(TokenKind::End, b"esi:remove"));
    let text = Token { kind: TokenKind::Text, content: b"esi:remove".to_vec() };
    assert!(!text.is_tag(TokenKind::Text, b"esi:remove"));
    assert!(text.is_tag(TokenKind::Text, b""));
}

#[test]
fn markup_of_each_kind() {
    let cases: Vec<(TokenKind, &str)> = vec![
        (TokenKind::Start, "<c>"),
        (TokenKind::End, "</c>"),
        (TokenKind::Empty, "<c/>"),
        (TokenKind::Text, "c"),
        (TokenKind::Comment, "<!--c-->"),
        (TokenKind::CData, "<![CDATA[c]]>"),
        (TokenKind::Decl, "<?c?>"),
        (TokenKind::PI, "<?c?>"),
        (TokenKind::DocType, "<!DOCTYPEc>"),
    ];
    for (kind, expected) in cases {
        let mut out = b"|".to_vec();
        Token { kind, content: b"c".to_vec() }.write_to(&mut out);
        assert_eq!(String::from_utf8(out).unwrap(), format!("|{}", expected));
    }
}

#[test]
fn markup_is_what_the_xml_writer_writes() {
    let document = "<?xml version=\"1.0\"?><!DOCTYPE a [<!ENTITY x \"y\">]><a x='1' y=\"2\">t &amp; u<b /><!-- c --><?pi d?><![CDATA[e<f]]></a>tail";
    let mut reader = quick_xml::Reader::from_str(document);
    reader.check_end_names(false);
    let mut writer = quick_xml::Writer::new(Vec::new());
    let mut buffer = Vec::new();
    loop {
        match reader.read_event(&mut buffer).unwrap() {
            quick_xml::events::Event::Eof => break,
            event => writer.write_event(event).unwrap(),
        }
        buffer.clear();
    }
    let mut ours = Vec::new();
    let mut tokenizer = Tokenizer::new(document.as_bytes());
    while let Some(token) = tokenizer.next_token().unwrap() {
        token.write_to(&mut ours);
    }
    assert_eq!(ours, writer.into_inner());
}

#[test]
fn attributes_come_in_order_with_raw_values() {
    let token = start("a  one=\"1\" two = '2 &amp; 3'\tthree=\"\"");
    let attributes = token.attributes().unwrap();
    let seen: Vec<(String, String)> = attributes
        .into_iter()
        .map(|a| (String::from_utf8(a.key).unwrap(), String::from_utf8(a.value).unwrap()))
        .collect();
    assert_eq!(
        seen,
        vec![
            (String::from("one"), String::from("1")),
            (String::from("two"), String::from("2 &amp; 3")),
            (String::from("three"), String::new()),
        ]
    );
}

#[test]
fn repeated_attributes_are_handed_out() {
    let attributes = start("a x=\"1\" x=\"2\"").attributes().unwrap();
    assert_eq!(attributes.len(), 2);
    assert_eq!(attributes[1].value, b"2".to_vec());
}

#[test]
fn malformed_attributes_are_refused() {
    assert!(matches!(start("a x=1").attributes(), Err(ExecutionError::XMLError(_))));
    assert!(matches!(start("a x y=\"1\"").attributes(), Err(ExecutionError::XMLError(_))));
    assert!(matches!(start("a x=\"1").attributes(), Err(ExecutionError::XMLError(_))));
}

#[test]
fn decode_takes_text_and_nothing_else() {
    assert_eq!(decode("h\u{e9}llo".as_bytes().to_vec()).unwrap(), "h\u{e9}llo");
    assert_eq!(decode(Vec::new()).unwrap(), "");
    assert!(matches!(decode(vec![0x68, 0xff]), Err(ExecutionError::XMLError(_))));
    assert!(matches!(decode(vec![0xc3]), Err(ExecutionError::XMLError(_))));
}

#[test]
fn directive_is_read_off_the_attributes() {
    let tag = parse_include(&start("esi:include onerror=\"continue\" alt=\"b\" src=\"a\"")).unwrap();
    let Tag::Include { src, alt, continue_on_error } = tag;
    assert_eq!(src, "a");
    assert_eq!(alt, Some(String::from("b")));
    assert!(continue_on_error);

    let tag = parse_include(&start("esi:include src=\"a&amp;b\" onerror=\"Continue\"")).unwrap();
    let Tag::Include { src, alt, continue_on_error } = tag;
    assert_eq!(src, "a&amp;b");
    assert_eq!(alt, None);
    assert!(!continue_on_error);
}

#[test]
fn directive_errors_come_in_order() {
    assert!(matches!(
        parse_include(&start("esi:include alt=\"1\" alt=\"2\"")),
        Err(ExecutionError::DuplicateTagAttribute(name)) if name == "alt"
    ));
    assert!(matches!(
        parse_include(&start("esi:include a=\"1\" b=\"2\" b=\"3\" a=\"4\"")),
        Err(ExecutionError::DuplicateTagAttribute(name)) if name == "b"
    ));
    assert!(matches!(
        parse_include(&start("esi:include")),
        Err(ExecutionError::MissingRequiredParameter(tag, param)) if tag == "include" && param == "src"
    ));
    assert!(matches!(
        parse_include(&start("esi:include src=a")),
        Err(ExecutionError::XMLError(_))
    ));
    let mut content = b"esi:include src=\"a\" alt=\"".to_vec();
    content.push(0xff);
    content.push(b'"');
    let token = Token { kind: TokenKind::Empty, content };
    assert!(matches!(parse_include(&token), Err(ExecutionError::XMLError(_))));
}

#[test]
fn scan_yields_markup_and_directives_in_order() {
    let parsed = parse_tags(
        "esi",
        b"a<esi:remove>b</esi:remove><esi:comment/><x/><esi:include src=\"u\" onerror=\"continue\">c</esi:include>d",
    );
    assert!(parsed.failure.is_none());
    let mut seen = Vec::new();
    for event in parsed.events {
        match event {
            Event::XML(token) => {
                if !token.content.is_empty() {
                    seen.push(format!("{:?}:{}", token.kind, String::from_utf8(token.content).unwrap()));
                }
            }
            Event::ESI(Tag::Include { src, alt, continue_on_error }) => {
                seen.push(format!("include:{}:{:?}:{}", src, alt, continue_on_error));
            }
        }
    }
    assert_eq!(
        seen,
        vec![
            String::from("Text:a"),
            String::from("Empty:x"),
            String::from("include:u:None:true"),
            String::from("Text:d"),
        ]
    );
}

#[test]
fn scan_keeps_the_events_before_a_failure() {
    let parsed = parse_tags("esi", b"a<b>c</esi:include>d");
    assert!(matches!(parsed.failure, Some(ExecutionError::UnexpectedClosingTag(_))));
    assert_eq!(parsed.events.len(), 3);

    let parsed = parse_tags("esi", b"a<!bad>");
    assert!(matches!(parsed.failure, Some(ExecutionError::XMLError(_))));
    assert_eq!(parsed.events.len(), 1);
}

fn directives_of(events: &[Event]) -> Vec<String> {
    events
        .iter()
        .filter_map(|event| match event {
            Event::ESI(Tag::Include { src, .. }) => Some(src.clone()),
            Event::XML(_) => None,
        })
        .collect()
}

#[test]
fn nothing_fires_inside_the_body_of_a_paired_directive() {
    let parsed = parse_tags(
        "esi",
        b"<esi:include src=\"u\"><esi:include src=\"v\"/><esi:include src=\"w\">t<esi:comment/></esi:include>x",
    );
    assert!(parsed.failure.is_none());
    assert_eq!(directives_of(&parsed.events), vec![String::from("u")]);
    assert_eq!(parsed.events.len(), 3);
}

#[test]
fn remove_tags_inside_the_body_of_a_paired_directive_are_dropped() {
    let parsed = parse_tags(
        "esi",
        b"<esi:include src=\"u\"></esi:remove><esi:remove></esi:include>x<esi:include src=\"v\"/>",
    );
    assert!(parsed.failure.is_none());
    assert_eq!(directives_of(&parsed.events), vec![String::from("u"), String::from("v")]);
}

#[test]
fn closing_remove_behind_a_paired_directive_is_refused() {
    let parsed = parse_tags(
        "esi",
        b"<esi:include src=\"u\"><esi:remove></esi:include></esi:remove></esi:include>x",
    );
    assert!(matches!(
        parsed.failure,
        Some(ExecutionError::UnexpectedClosingTag(ref tag)) if tag == "esi:remove"
    ));
    assert_eq!(directives_of(&parsed.events), vec![String::from("u")]);
}

#[test]
fn include_tags_inside_a_remove_block_are_dropped() {
    let parsed = parse_tags(
        "esi",
        b"a<esi:remove></esi:include><esi:include src=\"u\"><esi:include/><esi:remove></esi:remove>b",
    );
    assert!(parsed.failure.is_none());
    assert!(directives_of(&parsed.events).is_empty());
    assert_eq!(parsed.events.len(), 2);
}

#[test]
fn scanner_steps_through_the_body_of_a_paired_directive() {
    let mut scanner = Scanner::new("esi");
    assert!(matches!(
        scanner.step(start("esi:include src=\"u\"")).unwrap(),
        Some(Event::ESI(_))
    ));
    assert!(matches!(
        scanner.finish(),
        Err(ExecutionError::UnexpectedClosingTag(tag)) if tag == "esi:include"
    ));
    assert!(scanner.step(start("esi:include src=\"v\"")).unwrap().is_none());
    assert!(scanner.step(start("esi:include")).unwrap().is_none());
    assert!(scanner.step(start("esi:remove")).unwrap().is_none());
    let empty = Token { kind: TokenKind::Empty, content: b"esi:include src=\"w\"".to_vec() };
    assert!(scanner.step(empty).unwrap().is_none());
    let end = Token { kind: TokenKind::End, content: b"esi:remove".to_vec() };
    assert!(scanner.step(end).unwrap().is_none());
    let end = Token { kind: TokenKind::End, content: b"esi:include".to_vec() };
    assert!(scanner.step(end).unwrap().is_none());
    assert!(scanner.finish().is_ok());
    let end = Token { kind: TokenKind::End, content: b"esi:include".to_vec() };
    assert!(matches!(scanner.step(end), Err(ExecutionError::UnexpectedClosingTag(_))));
}

#[test]
fn directive_is_read_off_a_list_of_attributes() {
    let attribute = |key: &str, value: &str| Attribute {
        key: key.as_bytes().to_vec(),
        value: value.as_bytes().to_vec(),
    };
    let Tag::Include { src, alt, continue_on_error } = include_from(&vec![
        attribute("onerror", "continue"),
        attribute("other", "x"),
        attribute("src", "a"),
    ])
    .unwrap();
    assert_eq!(src, "a");
    assert_eq!(alt, None);
    assert!(continue_on_error);

    let Tag::Include { src, alt, continue_on_error } =
        include_from(&vec![attribute("alt", "b"), attribute("src", "a")]).unwrap();
    assert_eq!(src, "a");
    assert_eq!(alt, Some(String::from("b")));
    assert!(!continue_on_error);

    assert!(matches!(
        include_from(&Vec::new()),
        Err(ExecutionError::MissingRequiredParameter(tag, param)) if tag == "include" && param == "src"
    ));
    assert!(matches!(
        include_from(&vec![attribute("alt", "b"), attribute("alt", "c")]),
        Err(ExecutionError::DuplicateTagAttribute(name)) if name == "alt"
    ));
    let broken = Attribute { key: vec![0xff], value: Vec::new() };
    let again = Attribute { key: vec![0xff], value: Vec::new() };
    assert!(matches!(
        include_from(&vec![attribute("src", "a"), broken, again]),
        Err(ExecutionError::XMLError(_))
    ));
    let src = Attribute { key: b"src".to_vec(), value: vec![0xc3] };
    assert!(matches!(include_from(&vec![src]), Err(ExecutionError::XMLError(_))));
}

#[test]
fn scanner_steps_through_a_remove_block() {
    let mut scanner = Scanner::new("esi");
    assert!(scanner.finish().is_ok());
    assert!(scanner.step(start("esi:remove")).unwrap().is_none());
    assert!(matches!(
        scanner.finish(),
        Err(ExecutionError::UnexpectedClosingTag(tag)) if tag == "esi:remove"
    ));
    assert!(scanner.step(start("b")).unwrap().is_none());
    let end = Token { kind: TokenKind::End, content: b"esi:remove".to_vec() };
    assert!(scanner.step(end).unwrap().is_none());
    assert!(scanner.finish().is_ok());
    assert!(matches!(scanner.step(start("b")).unwrap(), Some(Event::XML(_))));
    let end = Token { kind: TokenKind::End, content: b"esi:remove".to_vec() };
    assert!(matches!(scanner.step(end), Err(ExecutionError::UnexpectedClosingTag(_))));
}

#[test]
fn fetch_outcome_is_a_fragment_or_an_error() {
    let ok = FetchOutcome::Response { status: 200, body: b"x".to_vec() };
    assert_eq!(ok.into_fragment().unwrap(), b"x".to_vec());
    let not_found = FetchOutcome::Response { status: 404, body: b"x".to_vec() };
    assert!(matches!(not_found.into_fragment(), Err(ExecutionError::UnexpectedStatus(404))));
    let down = FetchOutcome::Error(String::from("timeout"));
    assert!(matches!(down.into_fragment(), Err(ExecutionError::RequestError(d)) if d == "timeout"));
}

#[test]
fn errors_are_structural_or_of_a_fetch() {
    assert!(ExecutionError::MissingRequiredParameter(String::new(), String::new()).is_structural());
    assert!(ExecutionError::UnexpectedClosingTag(String::new()).is_structural());
    assert!(ExecutionError::DuplicateTagAttribute(String::new()).is_structural());
    assert!(!ExecutionError::RequestError(String::new()).is_structural());
    assert!(!ExecutionError::UnexpectedStatus(500).is_structural());
    assert!(!ExecutionError::Unknown.is_structural());
    let parsed = parse_tags("esi", b"<!bad>");
    assert!(parsed.failure.unwrap().is_structural());
}

#[test]
fn default_configuration() {
    let configuration = Configuration::default();
    assert_eq!(configuration.namespace(), "esi");
    assert!(configuration.backend("example.org").is_none());
    let backend = BackendConfiguration::default();
    assert_eq!(backend.name, None);
    assert!(!backend.pass);
    assert_eq!(backend.ttl, None);
}

#[test]
fn namespace_is_replaced() {
    let configuration = Configuration::default()
        .with_backend_override("a.example", "a")
        .with_namespace("test");
    assert_eq!(configuration.namespace(), "test");
    assert_eq!(configuration.backend("a.example").unwrap().name, Some(String::from("a")));
}

#[test]
fn backend_override_keeps_the_other_settings() {
    let configuration = Configuration::default()
        .with_backend(
            "a.example",
            BackendConfiguration { name: None, pass: true, ttl: Some(120) },
        )
        .with_backend_override("a.example", "origin_a")
        .with_backend_override("b.example", "origin_b");
    let a = configuration.backend("a.example").unwrap();
    assert_eq!(a.name, Some(String::from("origin_a")));
    assert!(a.pass);
    assert_eq!(a.ttl, Some(120));
    let b = configuration.backend("b.example").unwrap();
    assert_eq!(b.name, Some(String::from("origin_b")));
    assert!(!b.pass);
    assert_eq!(b.ttl, None);
    assert!(configuration.backend("A.example").is_none());
    assert!(configuration.backend("a.example ").is_none());
}

#[test]
fn backends_are_kept_one_to_a_host() {
    let configuration = Configuration::default()
        .with_backend_override("a.example", "one")
        .with_backend_override("a.example", "two")
        .with_backend("a.example", BackendConfiguration { name: None, pass: true, ttl: None })
        .with_backend_override("a.example", "three");
    let a = configuration.backend("a.example").unwrap();
    assert_eq!(a.name, Some(String::from("three")));
    assert!(a.pass);
}

#[test]
fn backend_replaces_earlier_settings() {
    let configuration = Configuration::default()
        .with_backend_override("a.example", "origin_a")
        .with_backend("b.example", BackendConfiguration { name: None, pass: false, ttl: Some(1) })
        .with_backend("a.example", BackendConfiguration { name: None, pass: true, ttl: None });
    let a = configuration.backend("a.example").unwrap();
    assert_eq!(a.name, None);
    assert!(a.pass);
    assert_eq!(configuration.backend("b.example").unwrap().ttl, Some(1));
}

#[test]
fn configuration_is_cloned_whole() {
    let configuration = Configuration::default()
        .with_namespace("x")
        .with_backend_override("a.example", "origin_a");
    let copy = configuration.clone();
    assert_eq!(copy.namespace(), "x");
    assert_eq!(copy.backend("a.example").unwrap().name, Some(String::from("origin_a")));
    let backend = copy.backend("a.example").unwrap().clone();
    assert_eq!(backend.name, Some(String::from("origin_a")));
}

#[test]
fn processor_keeps_its_configuration() {
    let processor = Processor::new(Configuration::default().with_namespace("test"));
    assert_eq!(processor.configuration().namespace(), "test");
    assert_eq!(Processor::default().configuration().namespace(), "esi");
}
