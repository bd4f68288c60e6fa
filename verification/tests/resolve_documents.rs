use esi::{Configuration, ExecutionError, FetchOutcome, Next, Processor};

/// What a scripted run came to.
struct Outcome {
    output: String,
    requests: Vec<String>,
    error: Option<ExecutionError>,
}

fn ok(body: &str) -> FetchOutcome {
    FetchOutcome::Response { status: 200, body: body.as_bytes().to_vec() }
}

fn status(code: u16) -> FetchOutcome {
    FetchOutcome::Response { status: code, body: b"ignored".to_vec() }
}

fn down() -> FetchOutcome {
    FetchOutcome::Error(String::from("connection refused"))
}

/// Drives a run to its end, answering each fetch from `answer`.
fn run(processor: &Processor, document: &str, answer: &dyn Fn(&str) -> FetchOutcome) -> Outcome {
    let mut output = Vec::new();
    let mut requests = Vec::new();
    let mut step = processor.execute_esi(document.as_bytes());
    loop {
        output.extend_from_slice(&step.output);
        match step.next {
            Next::Fetch(execution) => {
                let url = execution.url().to_string();
                let outcome = answer(&url);
                requests.push(url);
                step = processor.execute_esi_fragment(execution, outcome);
            }
            Next::Finished => {
                return Outcome { output: String::from_utf8(output).unwrap(), requests, error: None };
            }
            Next::Failed(e) => {
                return Outcome {
                    output: String::from_utf8(output).unwrap(),
                    requests,
                    error: Some(e),
                };
            }
        }
    }
}

fn unreachable_fetch(url: &str) -> FetchOutcome {
    panic!("no fetch expected, got one for {}", url)
}

#[test]
fn markup_without_directives_passes_through() {
    let document = "<!DOCTYPE html><html><head><title>t</title></head>\n<body class=\"a b\">Hello, <b>world</b>!<br/><!-- note --><?php x ?></body></html>\n";
    let outcome = run(&Processor::default(), document, &unreachable_fetch);
    assert!(outcome.error.is_none());
    assert_eq!(outcome.output, document);
    assert!(outcome.requests.is_empty());
}

#[test]
fn unbalanced_markup_passes_through() {
    let document = "<p>one<p>two</div><br>";
    let outcome = run(&Processor::default(), document, &unreachable_fetch);
    assert!(outcome.error.is_none());
    assert_eq!(outcome.output, document);
}

#[test]
fn empty_document_resolves_to_nothing() {
    let outcome = run(&Processor::default(), "", &unreachable_fetch);
    assert!(outcome.error.is_none());
    assert_eq!(outcome.output, "");
}

#[test]
fn doctype_is_written_in_upper_case() {
    let outcome = run(&Processor::default(), "<!doctype html><p/>", &unreachable_fetch);
    assert!(outcome.error.is_none());
    assert_eq!(outcome.output, "<!DOCTYPE html><p/>");
}

#[test]
fn remove_block_is_erased() {
    let document = "A<esi:remove>ANYTHING(including <b>nested</b> tags)</esi:remove>B";
    let outcome = run(&Processor::default(), document, &unreachable_fetch);
    assert!(outcome.error.is_none());
    assert_eq!(outcome.output, "AB");
}

#[test]
fn directives_inside_remove_block_do_not_fire() {
    let document = "A<esi:remove><esi:include src=\"http://x/a\"/><esi:include/></esi:remove>B";
    let outcome = run(&Processor::default(), document, &unreachable_fetch);
    assert!(outcome.error.is_none());
    assert_eq!(outcome.output, "AB");
    assert!(outcome.requests.is_empty());
}

#[test]
fn comment_is_erased() {
    let outcome = run(&Processor::default(), "A<esi:comment text=\"x\"/>B", &unreachable_fetch);
    assert!(outcome.error.is_none());
    assert_eq!(outcome.output, "AB");
}

#[test]
fn fetched_fragment_stands_in_place_of_its_directive() {
    let document = "<p><esi:include src=\"http://x/frag\"/></p>";
    let outcome = run(&Processor::default(), document, &|url| {
        assert_eq!(url, "http://x/frag");
        ok("HELLO")
    });
    assert!(outcome.error.is_none());
    assert_eq!(outcome.output, "<p>HELLO</p>");
    assert_eq!(outcome.requests, vec![String::from("http://x/frag")]);
}

#[test]
fn paired_directive_fires_once_and_drops_its_body() {
    let document = "A<esi:include src=\"http://x/frag\">inline <i>body</i></esi:include>B";
    let outcome = run(&Processor::default(), document, &|_| ok("HELLO"));
    assert!(outcome.error.is_none());
    assert_eq!(outcome.output, "AHELLOB");
    assert_eq!(outcome.requests, vec![String::from("http://x/frag")]);
}

#[test]
fn directives_in_the_body_of_a_paired_directive_are_not_fetched() {
    let document = "A<esi:include src=\"http://x/frag\"><esi:include src=\"http://x/inner\"/><esi:remove>x</esi:include>B";
    let outcome = run(&Processor::default(), document, &|url| {
        assert_eq!(url, "http://x/frag");
        ok("HELLO")
    });
    assert!(outcome.error.is_none());
    assert_eq!(outcome.output, "AHELLOB");
    assert_eq!(outcome.requests, vec![String::from("http://x/frag")]);
}

#[test]
fn every_status_from_200_to_299_is_a_success() {
    let document = "<esi:include src=\"http://x/frag\"/>";
    for code in [200u16, 204, 299] {
        let outcome = run(&Processor::default(), document, &|_| FetchOutcome::Response {
            status: code,
            body: b"HELLO".to_vec(),
        });
        assert!(outcome.error.is_none());
        assert_eq!(outcome.output, "HELLO");
    }
    for code in [199u16, 300, 404, 500] {
        let outcome = run(&Processor::default(), document, &|_| status(code));
        assert!(matches!(outcome.error, Some(ExecutionError::UnexpectedStatus(c)) if c == code));
        assert_eq!(outcome.output, "");
    }
}

#[test]
fn alt_is_fetched_after_src_failed_in_transport() {
    let document = "A<esi:include src=\"http://x/src\" alt=\"http://x/alt\"/>B";
    let outcome = run(&Processor::default(), document, &|url| {
        if url == "http://x/src" {
            down()
        } else {
            ok("FALLBACK")
        }
    });
    assert!(outcome.error.is_none());
    assert_eq!(outcome.output, "AFALLBACKB");
    assert_eq!(
        outcome.requests,
        vec![String::from("http://x/src"), String::from("http://x/alt")]
    );
}

#[test]
fn alt_is_fetched_after_src_was_answered_with_an_error_status() {
    let document = "A<esi:include alt=\"http://x/alt\" src=\"http://x/src\"/>B";
    let outcome = run(&Processor::default(), document, &|url| {
        if url == "http://x/src" {
            status(503)
        } else {
            ok("FALLBACK")
        }
    });
    assert!(outcome.error.is_none());
    assert_eq!(outcome.output, "AFALLBACKB");
    assert_eq!(
        outcome.requests,
        vec![String::from("http://x/src"), String::from("http://x/alt")]
    );
}

#[test]
fn alt_is_not_fetched_when_src_succeeds() {
    let document = "<esi:include src=\"http://x/src\" alt=\"http://x/alt\"/>";
    let outcome = run(&Processor::default(), document, &|_| ok("FIRST"));
    assert!(outcome.error.is_none());
    assert_eq!(outcome.output, "FIRST");
    assert_eq!(outcome.requests, vec![String::from("http://x/src")]);
}

#[test]
fn directive_that_may_fail_resolves_to_nothing() {
    let document =
        "A<esi:include src=\"http://x/src\" alt=\"http://x/alt\" onerror=\"continue\"/>B";
    let outcome = run(&Processor::default(), document, &|_| down());
    assert!(outcome.error.is_none());
    assert_eq!(outcome.output, "AB");
    assert_eq!(
        outcome.requests,
        vec![String::from("http://x/src"), String::from("http://x/alt")]
    );
}

#[test]
fn directive_without_alt_that_may_fail_resolves_to_nothing() {
    let document = "A<esi:include src=\"http://x/src\" onerror=\"continue\"/>B";
    let outcome = run(&Processor::default(), document, &|_| status(404));
    assert!(outcome.error.is_none());
    assert_eq!(outcome.output, "AB");
    assert_eq!(outcome.requests, vec![String::from("http://x/src")]);
}

#[test]
fn failed_directive_fails_the_run_with_the_status_of_the_last_fetch() {
    let document = "A<esi:include src=\"http://x/src\" alt=\"http://x/alt\"/>B";
    let outcome = run(&Processor::default(), document, &|url| {
        if url == "http://x/src" {
            down()
        } else {
            status(404)
        }
    });
    assert!(matches!(outcome.error, Some(ExecutionError::UnexpectedStatus(404))));
    assert_eq!(outcome.output, "A");
    assert_eq!(
        outcome.requests,
        vec![String::from("http://x/src"), String::from("http://x/alt")]
    );
}

#[test]
fn failed_directive_fails_the_run_with_the_transport_error() {
    let document = "A<esi:include src=\"http://x/src\"/>B";
    let outcome = run(&Processor::default(), document, &|_| down());
    match outcome.error {
        Some(ExecutionError::RequestError(detail)) => assert_eq!(detail, "connection refused"),
        other => panic!("unexpected: {:?}", other),
    }
    assert_eq!(outcome.output, "A");
}

#[test]
fn other_values_of_onerror_do_not_let_the_run_go_on() {
    let document = "A<esi:include src=\"http://x/src\" onerror=\"ignore\"/>B";
    let outcome = run(&Processor::default(), document, &|_| status(500));
    assert!(matches!(outcome.error, Some(ExecutionError::UnexpectedStatus(500))));
    assert_eq!(outcome.output, "A");
}

#[test]
fn directive_without_src_is_refused_before_any_fetch() {
    let outcome = run(&Processor::default(), "A<esi:include alt=\"y\"/>B", &unreachable_fetch);
    match outcome.error {
        Some(ExecutionError::MissingRequiredParameter(tag, param)) => {
            assert_eq!(tag, "include");
            assert_eq!(param, "src");
        }
        other => panic!("unexpected: {:?}", other),
    }
    assert_eq!(outcome.output, "A");
    assert!(outcome.requests.is_empty());
}

#[test]
fn repeated_attribute_is_refused() {
    let document = "<esi:include src=\"http://x/a\" alt=\"http://x/b\" src=\"http://x/c\"/>";
    let outcome = run(&Processor::default(), document, &unreachable_fetch);
    match outcome.error {
        Some(ExecutionError::DuplicateTagAttribute(name)) => assert_eq!(name, "src"),
        other => panic!("unexpected: {:?}", other),
    }
}

#[test]
fn closing_remove_without_opening_is_refused() {
    let outcome = run(&Processor::default(), "A</esi:remove>B", &unreachable_fetch);
    match outcome.error {
        Some(ExecutionError::UnexpectedClosingTag(tag)) => assert_eq!(tag, "esi:remove"),
        other => panic!("unexpected: {:?}", other),
    }
    assert_eq!(outcome.output, "A");
}

#[test]
fn closing_directive_without_opening_is_refused() {
    let outcome = run(&Processor::default(), "A</esi:include>B", &unreachable_fetch);
    match outcome.error {
        Some(ExecutionError::UnexpectedClosingTag(tag)) => assert_eq!(tag, "esi:include"),
        other => panic!("unexpected: {:?}", other),
    }
}

#[test]
fn remove_block_left_open_is_refused_at_the_end() {
    let outcome = run(&Processor::default(), "A<esi:remove>B", &unreachable_fetch);
    match outcome.error {
        Some(ExecutionError::UnexpectedClosingTag(tag)) => assert_eq!(tag, "esi:remove"),
        other => panic!("unexpected: {:?}", other),
    }
    assert_eq!(outcome.output, "A");
}

#[test]
fn paired_directive_left_open_is_refused_at_the_end() {
    let outcome =
        run(&Processor::default(), "A<esi:include src=\"http://x/a\">B", &|_| ok("F"));
    match outcome.error {
        Some(ExecutionError::UnexpectedClosingTag(tag)) => assert_eq!(tag, "esi:include"),
        other => panic!("unexpected: {:?}", other),
    }
    assert_eq!(outcome.output, "AF");
}

#[test]
fn malformed_markup_is_refused_after_what_precedes_it() {
    let outcome = run(&Processor::default(), "A<b>B<!-- never closed", &unreachable_fetch);
    assert!(matches!(outcome.error, Some(ExecutionError::XMLError(_))));
    assert_eq!(outcome.output, "A<b>B");
}

#[test]
fn address_that_is_no_text_is_refused() {
    let mut document = b"<esi:include src=\"".to_vec();
    document.extend_from_slice(&[0xff, 0xfe]);
    document.extend_from_slice(b"\"/>");
    let step = Processor::default().execute_esi(&document);
    assert!(matches!(step.next, Next::Failed(ExecutionError::XMLError(_))));
}

#[test]
fn fragments_are_resolved_in_turn_and_in_order() {
    let document = "<a/><esi:include src=\"http://x/1\"/><b/><esi:include src=\"http://x/2\"/><c/>";
    let outcome = run(&Processor::default(), document, &|url| match url {
        "http://x/1" => ok("[1:<esi:include src=\"http://x/1a\"/>|<esi:include src=\"http://x/1b\"/>]"),
        "http://x/1a" => ok("(1a:<esi:include src=\"http://x/deep\"/>)"),
        "http://x/1b" => ok("(1b)"),
        "http://x/deep" => ok("DEEP"),
        "http://x/2" => ok("[2]"),
        other => panic!("unexpected fetch of {}", other),
    });
    assert!(outcome.error.is_none());
    assert_eq!(outcome.output, "<a/>[1:(1a:DEEP)|(1b)]<b/>[2]<c/>");
    assert_eq!(
        outcome.requests,
        vec![
            String::from("http://x/1"),
            String::from("http://x/1a"),
            String::from("http://x/deep"),
            String::from("http://x/1b"),
            String::from("http://x/2"),
        ]
    );
}

#[test]
fn failure_inside_a_fragment_fails_the_run() {
    let document = "A<esi:include src=\"http://x/1\"/>B";
    let outcome = run(&Processor::default(), document, &|url| match url {
        "http://x/1" => ok("x<esi:include src=\"http://x/2\"/>y"),
        _ => status(500),
    });
    assert!(matches!(outcome.error, Some(ExecutionError::UnexpectedStatus(500))));
    assert_eq!(outcome.output, "Ax");
}

#[test]
fn malformed_fragment_fails_the_run() {
    let document = "A<esi:include src=\"http://x/1\" onerror=\"continue\"/>B";
    let outcome = run(&Processor::default(), document, &|_| ok("x</esi:remove>y"));
    assert!(matches!(outcome.error, Some(ExecutionError::UnexpectedClosingTag(_))));
    assert_eq!(outcome.output, "Ax");
}

#[test]
fn other_namespace_leaves_esi_tags_as_markup() {
    let processor = Processor::new(Configuration::default().with_namespace("test"));
    let document = "A<esi:include src=\"http://x/a\"/><test:include src=\"http://x/b\"/><esi:remove>kept</esi:remove>B";
    let outcome = run(&processor, document, &|url| {
        assert_eq!(url, "http://x/b");
        ok("HELLO")
    });
    assert!(outcome.error.is_none());
    assert_eq!(
        outcome.output,
        "A<esi:include src=\"http://x/a\"/>HELLO<esi:remove>kept</esi:remove>B"
    );
    assert_eq!(outcome.requests, vec![String::from("http://x/b")]);
}

#[test]
fn fragments_are_resolved_under_the_namespace_of_the_run() {
    let processor = Processor::new(Configuration::default().with_namespace("test"));
    let outcome = run(&processor, "<test:include src=\"http://x/1\"/>", &|url| match url {
        "http://x/1" => ok("<esi:comment/><test:include src=\"http://x/2\"/>"),
        _ => ok("END"),
    });
    assert!(outcome.error.is_none());
    assert_eq!(outcome.output, "<esi:comment/>END");
}

#[test]
fn longer_names_are_no_directives() {
    let document = "<esi:includes src=\"a\"/><esi:removed>x</esi:removed><esi:comments/>";
    let outcome = run(&Processor::default(), document, &unreachable_fetch);
    assert!(outcome.error.is_none());
    assert_eq!(outcome.output, document);
}

#[test]
fn output_comes_step_by_step() {
    let processor = Processor::default();
    let step = processor.execute_esi(b"A<esi:include src=\"http://x/1\"/>B");
    assert_eq!(step.output, b"A".to_vec());
    let execution = match step.next {
        Next::Fetch(execution) => execution,
        _ => panic!("a fetch was expected"),
    };
    assert_eq!(execution.url(), "http://x/1");
    let step = processor.execute_esi_fragment(execution, ok("HELLO"));
    assert_eq!(step.output, b"HELLOB".to_vec());
    assert!(matches!(step.next, Next::Finished));
}
