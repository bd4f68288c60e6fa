//! What a document resolves to, given the outcomes of the fetches that it asks for.
//!
//! The fetches of a document happen one after the other, in the order of the document,
//! so a run of the processor is described by the document and by the outcomes of its
//! fetches in the order in which they were asked for: the script. Nothing here runs;
//! this is what the executor is held to.

use crate::error::ErrorView;
use crate::fetch::FetchView;
use crate::parse::{
    as_markup, initial_state, is_directive, lemma_scan_failure_is_structural,
    lemma_scan_without_directives, scan, EventView, TagView,
};
use crate::token::{xml_stream, TokenView};
use vstd::prelude::*;

verus! {

/// How far a script carries a run.
pub enum End {
    /// The script ran out where this address was to be fetched.
    Awaiting(Seq<char>),
    /// The document is resolved.
    Finished,
    /// The run failed, and nothing more is written.
    Failed(ErrorView),
}

/// A run: what was written, how many outcomes of the script were used, and where the run
/// stands.
#[verifier::ext_equal]
pub struct Run {
    pub output: Seq<u8>,
    pub used: nat,
    pub end: End,
}

/// A run that writes nothing, uses nothing and ends as given.
pub open spec fn ended(end: End) -> Run {
    Run { output: Seq::empty(), used: 0, end }
}

impl Run {
    /// This run, and after it `rest`, unless this run did not finish.
    pub open spec fn followed_by(self, rest: Run) -> Run {
        if self.end is Finished {
            Run {
                output: self.output + rest.output,
                used: self.used + rest.used,
                end: rest.end,
            }
        } else {
            self
        }
    }

    /// This run after `output` was written and `used` outcomes were used.
    pub open spec fn after(self, output: Seq<u8>, used: nat) -> Run {
        Run { output: output + self.output, used: used + self.used, end: self.end }
    }
}

/// What is left of a script once `used` of its outcomes are used.
pub open spec fn left_of(script: Seq<FetchView>, used: nat) -> Seq<FetchView> {
    if used <= script.len() {
        script.skip(used as int)
    } else {
        Seq::empty()
    }
}

/// The run of a list of events that ends in `failure`, if that is some error.
/// Markup is written as it stands; a directive is resolved, and the events after it see
/// the script that it left.
pub open spec fn run_events(
    namespace: Seq<char>,
    events: Seq<EventView>,
    failure: Option<ErrorView>,
    script: Seq<FetchView>,
) -> Run
    decreases script.len(), events.len() + 1,
{
    if events.len() == 0 {
        match failure {
            Some(e) => ended(End::Failed(e)),
            None => ended(End::Finished),
        }
    } else {
        match events[0] {
            EventView::XML(token) => run_events(
                namespace,
                events.drop_first(),
                failure,
                script,
            ).after(token.markup(), 0),
            EventView::ESI(TagView::Include { src, alt, continue_on_error }) => {
                let first = run_include(namespace, src, alt, continue_on_error, script);
                first.followed_by(
                    run_events(
                        namespace,
                        events.drop_first(),
                        failure,
                        left_of(script, first.used),
                    ),
                )
            },
        }
    }
}

/// The run of one directive: `url` is fetched. A fragment that was fetched is resolved
/// as a document of its own. On a failed fetch `alt` is fetched in the same way, if there
/// is one; if there is none, the directive resolves to nothing where `continue_on_error`
/// is set, and else the run fails with the error of that fetch.
pub open spec fn run_include(
    namespace: Seq<char>,
    url: Seq<char>,
    alt: Option<Seq<char>>,
    continue_on_error: bool,
    script: Seq<FetchView>,
) -> Run
    decreases script.len(), 0nat,
{
    if script.len() == 0 {
        ended(End::Awaiting(url))
    } else {
        let outcome = script[0];
        let rest = script.skip(1);
        if outcome.succeeded() {
            let fragment = scan(namespace, outcome.fragment());
            run_events(namespace, fragment.events, fragment.failure, rest).after(Seq::empty(), 1)
        } else {
            match alt {
                Some(alt) => run_include(namespace, alt, None, continue_on_error, rest).after(
                    Seq::empty(),
                    1,
                ),
                None => if continue_on_error {
                    ended(End::Finished).after(Seq::empty(), 1)
                } else {
                    ended(End::Failed(outcome.error())).after(Seq::empty(), 1)
                },
            }
        }
    }
}

/// What a document resolves to under a script.
pub open spec fn resolve(namespace: Seq<char>, document: Seq<u8>, script: Seq<FetchView>) -> Run {
    let scanned = scan(namespace, document);
    run_events(namespace, scanned.events, scanned.failure, script)
}

/// A run uses no more outcomes than its script holds.
pub proof fn lemma_events_use_script(
    namespace: Seq<char>,
    events: Seq<EventView>,
    failure: Option<ErrorView>,
    script: Seq<FetchView>,
)
    ensures
        run_events(namespace, events, failure, script).used <= script.len(),
    decreases script.len(), events.len() + 1,
{
    if events.len() != 0 {
        match events[0] {
            EventView::XML(token) => {
                lemma_events_use_script(namespace, events.drop_first(), failure, script);
            },
            EventView::ESI(TagView::Include { src, alt, continue_on_error }) => {
                lemma_include_uses_script(namespace, src, alt, continue_on_error, script);
                let first = run_include(namespace, src, alt, continue_on_error, script);
                if first.end is Finished {
                    lemma_events_use_script(
                        namespace,
                        events.drop_first(),
                        failure,
                        script.skip(first.used as int),
                    );
                }
            },
        }
    }
}

/// The run of a directive uses no more outcomes than its script holds.
pub proof fn lemma_include_uses_script(
    namespace: Seq<char>,
    url: Seq<char>,
    alt: Option<Seq<char>>,
    continue_on_error: bool,
    script: Seq<FetchView>,
)
    ensures
        run_include(namespace, url, alt, continue_on_error, script).used <= script.len(),
    decreases script.len(), 0nat,
{
    if script.len() != 0 {
        let outcome = script[0];
        let rest = script.skip(1);
        if outcome.succeeded() {
            let fragment = scan(namespace, outcome.fragment());
            lemma_events_use_script(namespace, fragment.events, fragment.failure, rest);
        } else {
            match alt {
                Some(alt) => {
                    lemma_include_uses_script(namespace, alt, None, continue_on_error, rest);
                },
                None => {},
            }
        }
    }
}

/// The markup of a list of tokens, one after the other.
pub open spec fn markup_of(tokens: Seq<TokenView>) -> Seq<u8>
    decreases tokens.len(),
{
    if tokens.len() == 0 {
        Seq::empty()
    } else {
        tokens[0].markup() + markup_of(tokens.drop_first())
    }
}

/// Markup alone is written as it stands, whatever the script: nothing is fetched.
pub proof fn lemma_markup_only(
    namespace: Seq<char>,
    tokens: Seq<TokenView>,
    failure: Option<ErrorView>,
    script: Seq<FetchView>,
)
    ensures
        run_events(namespace, as_markup(tokens), failure, script) == (Run {
            output: markup_of(tokens),
            used: 0,
            end: match failure {
                Some(e) => End::Failed(e),
                None => End::Finished,
            },
        }),
    decreases tokens.len(),
{
    if tokens.len() != 0 {
        lemma_markup_only(namespace, tokens.drop_first(), failure, script);
        assert(as_markup(tokens).drop_first() =~= as_markup(tokens.drop_first()));
        assert(markup_of(tokens.drop_first()) + Seq::<u8>::empty() =~= markup_of(
            tokens.drop_first(),
        ));
        assert(run_events(namespace, as_markup(tokens), failure, script) =~= (Run {
            output: markup_of(tokens),
            used: 0,
            end: match failure {
                Some(e) => End::Failed(e),
                None => End::Finished,
            },
        }));
    }
}

/// A well-formed document that holds no tag of the namespace resolves to itself, as the
/// tokenizer writes it back: every token in its place, nothing fetched, whatever the
/// script.
pub proof fn lemma_pass_through(
    namespace: Seq<char>,
    document: Seq<u8>,
    script: Seq<FetchView>,
)
    requires
        !xml_stream(document).malformed,
        forall|i: int|
            0 <= i < xml_stream(document).tokens.len() ==> !is_directive(
                namespace,
                #[trigger] xml_stream(document).tokens[i],
            ),
    ensures
        resolve(namespace, document, script) == (Run {
            output: markup_of(xml_stream(document).tokens),
            used: 0,
            end: End::Finished,
        }),
{
    lemma_scan_without_directives(namespace, xml_stream(document));
    lemma_markup_only(namespace, xml_stream(document).tokens, None, script);
}

/// The address of a directive is asked for first; its fallback only once that fetch
/// has failed.
pub proof fn lemma_alt_follows_src(
    namespace: Seq<char>,
    src: Seq<char>,
    alt: Seq<char>,
    continue_on_error: bool,
    outcome: FetchView,
)
    requires
        !outcome.succeeded(),
    ensures
        run_include(namespace, src, Some(alt), continue_on_error, Seq::empty()) == ended(
            End::Awaiting(src),
        ),
        run_include(namespace, src, Some(alt), continue_on_error, seq![outcome]) == (Run {
            output: Seq::empty(),
            used: 1,
            end: End::Awaiting(alt),
        }),
{
    let script = seq![outcome];
    assert(script.skip(1) =~= Seq::<FetchView>::empty());
    assert(script[0] == outcome);
    assert(run_include(namespace, alt, None, continue_on_error, Seq::empty()) == ended(
        End::Awaiting(alt),
    ));
    assert(run_include(namespace, src, Some(alt), continue_on_error, script) =~= (Run {
        output: Seq::empty(),
        used: 1,
        end: End::Awaiting(alt),
    }));
}

/// A fragment that was fetched, from the address or from the fallback, stands where the
/// directive stood, resolved as a document of its own under the rest of the script.
pub proof fn lemma_fragment_is_spliced(
    namespace: Seq<char>,
    src: Seq<char>,
    alt: Option<Seq<char>>,
    continue_on_error: bool,
    failed: FetchView,
    fetched: FetchView,
    rest: Seq<FetchView>,
)
    requires
        fetched.succeeded(),
        !failed.succeeded(),
    ensures
        run_include(namespace, src, alt, continue_on_error, seq![fetched] + rest) == resolve(
            namespace,
            fetched.fragment(),
            rest,
        ).after(Seq::empty(), 1),
        alt is Some ==> run_include(
            namespace,
            src,
            alt,
            continue_on_error,
            seq![failed, fetched] + rest,
        ) == resolve(namespace, fetched.fragment(), rest).after(Seq::empty(), 2),
{
    let direct = seq![fetched] + rest;
    assert(direct.skip(1) =~= rest);
    if alt is Some {
        let script = seq![failed, fetched] + rest;
        assert(script.skip(1) =~= direct);
        assert(script[0] == failed);
        assert(direct[0] == fetched);
        let inner = resolve(namespace, fetched.fragment(), rest);
        assert(run_include(namespace, alt->0, None, continue_on_error, direct) == inner.after(
            Seq::empty(),
            1,
        ));
        assert(inner.after(Seq::empty(), 1).after(Seq::empty(), 1) =~= inner.after(
            Seq::empty(),
            2,
        ));
    }
}

/// Where nothing could be fetched, a directive that may fail resolves to nothing and the
/// run goes on; one that may not fail ends the run with the error of the last fetch.
pub proof fn lemma_nothing_fetched(
    namespace: Seq<char>,
    src: Seq<char>,
    alt: Option<Seq<char>>,
    continue_on_error: bool,
    first: FetchView,
    second: FetchView,
    rest: Seq<FetchView>,
)
    requires
        !first.succeeded(),
        !second.succeeded(),
    ensures
        alt is None ==> run_include(namespace, src, alt, continue_on_error, seq![first] + rest)
            == (Run {
            output: Seq::empty(),
            used: 1,
            end: if continue_on_error {
                End::Finished
            } else {
                End::Failed(first.error())
            },
        }),
        alt is Some ==> run_include(
            namespace,
            src,
            alt,
            continue_on_error,
            seq![first, second] + rest,
        ) == (Run {
            output: Seq::empty(),
            used: 2,
            end: if continue_on_error {
                End::Finished
            } else {
                End::Failed(second.error())
            },
        }),
{
    let once = seq![first] + rest;
    assert(once[0] == first);
    if alt is None {
        assert(run_include(namespace, src, alt, continue_on_error, once) =~= (Run {
            output: Seq::empty(),
            used: 1,
            end: if continue_on_error {
                End::Finished
            } else {
                End::Failed(first.error())
            },
        }));
    } else {
        let twice = seq![first, second] + rest;
        let later = seq![second] + rest;
        assert(twice.skip(1) =~= later);
        assert(later[0] == second);
        assert(run_include(namespace, alt->0, None, continue_on_error, later) =~= (Run {
            output: Seq::empty(),
            used: 1,
            end: if continue_on_error {
                End::Finished
            } else {
                End::Failed(second.error())
            },
        }));
        assert(run_include(namespace, src, alt, continue_on_error, twice) =~= (Run {
            output: Seq::empty(),
            used: 2,
            end: if continue_on_error {
                End::Finished
            } else {
                End::Failed(second.error())
            },
        }));
    }
}

/// What stands behind a directive is written only once the directive is resolved: where
/// its run does not finish, the run of the events ends with it.
pub proof fn lemma_order_is_kept(
    namespace: Seq<char>,
    tag: TagView,
    behind: Seq<EventView>,
    failure: Option<ErrorView>,
    script: Seq<FetchView>,
)
    ensures
        ({
            let first = run_include(
                namespace,
                tag->src,
                tag->alt,
                tag->continue_on_error,
                script,
            );
            &&& first.used <= script.len()
            &&& run_events(namespace, seq![EventView::ESI(tag)] + behind, failure, script)
                == first.followed_by(
                run_events(namespace, behind, failure, script.skip(first.used as int)),
            )
        }),
{
    let events = seq![EventView::ESI(tag)] + behind;
    assert(events[0] == EventView::ESI(tag));
    assert(events.drop_first() =~= behind);
    lemma_include_uses_script(namespace, tag->src, tag->alt, tag->continue_on_error, script);
}

/// The errors in which a run can end.
pub open spec fn is_failure_of_a_run(failure: Option<ErrorView>) -> bool {
    failure matches Some(e) ==> e.is_structural() || e is RequestError || e is UnexpectedStatus
}

/// A run fails only on what is wrong with a document or with a fetch; the error that
/// is kept in reserve is never its end.
pub proof fn lemma_failures_are_classified(
    namespace: Seq<char>,
    document: Seq<u8>,
    script: Seq<FetchView>,
)
    ensures
        resolve(namespace, document, script).end matches End::Failed(e) ==> e.is_structural()
            || e is RequestError || e is UnexpectedStatus,
{
    let scanned = scan(namespace, document);
    lemma_scan_failure_is_structural(namespace, initial_state(), xml_stream(document));
    lemma_events_fail_classified(namespace, scanned.events, scanned.failure, script);
}

proof fn lemma_events_fail_classified(
    namespace: Seq<char>,
    events: Seq<EventView>,
    failure: Option<ErrorView>,
    script: Seq<FetchView>,
)
    requires
        is_failure_of_a_run(failure),
    ensures
        run_events(namespace, events, failure, script).end matches End::Failed(e)
            ==> is_failure_of_a_run(Some(e)),
    decreases script.len(), events.len() + 1,
{
    if events.len() != 0 {
        match events[0] {
            EventView::XML(token) => {
                lemma_events_fail_classified(namespace, events.drop_first(), failure, script);
            },
            EventView::ESI(TagView::Include { src, alt, continue_on_error }) => {
                lemma_include_fails_classified(namespace, src, alt, continue_on_error, script);
                let first = run_include(namespace, src, alt, continue_on_error, script);
                lemma_events_fail_classified(
                    namespace,
                    events.drop_first(),
                    failure,
                    left_of(script, first.used),
                );
            },
        }
    }
}

proof fn lemma_include_fails_classified(
    namespace: Seq<char>,
    url: Seq<char>,
    alt: Option<Seq<char>>,
    continue_on_error: bool,
    script: Seq<FetchView>,
)
    ensures
        run_include(namespace, url, alt, continue_on_error, script).end matches End::Failed(e)
            ==> is_failure_of_a_run(Some(e)),
    decreases script.len(), 0nat,
{
    if script.len() != 0 {
        let outcome = script[0];
        let rest = script.skip(1);
        if outcome.succeeded() {
            let fragment = scan(namespace, outcome.fragment());
            lemma_scan_failure_is_structural(
                namespace,
                initial_state(),
                xml_stream(outcome.fragment()),
            );
            lemma_events_fail_classified(namespace, fragment.events, fragment.failure, rest);
        } else {
            match alt {
                Some(alt) => {
                    lemma_include_fails_classified(namespace, alt, None, continue_on_error, rest);
                },
                None => {},
            }
        }
    }
}

/// How the run under a script relates to the run under the script with more appended.
pub open spec fn carried_on(shorter: Run, longer: Run, script: Seq<FetchView>) -> bool {
    if shorter.end is Awaiting {
        &&& shorter.used == script.len()
        &&& shorter.used <= longer.used
        &&& shorter.output.is_prefix_of(longer.output)
    } else {
        longer == shorter
    }
}

/// What is written stays written: with more outcomes a run that was waiting for a
/// fetch goes on from what it had written, and a run that was over stays as it was.
pub proof fn lemma_output_is_kept(
    namespace: Seq<char>,
    document: Seq<u8>,
    script: Seq<FetchView>,
    more: Seq<FetchView>,
)
    ensures
        carried_on(
            resolve(namespace, document, script),
            resolve(namespace, document, script + more),
            script,
        ),
{
    let scanned = scan(namespace, document);
    lemma_events_carried_on(namespace, scanned.events, scanned.failure, script, more);
}

proof fn lemma_events_carried_on(
    namespace: Seq<char>,
    events: Seq<EventView>,
    failure: Option<ErrorView>,
    script: Seq<FetchView>,
    more: Seq<FetchView>,
)
    ensures
        carried_on(
            run_events(namespace, events, failure, script),
            run_events(namespace, events, failure, script + more),
            script,
        ),
    decreases script.len(), events.len() + 1,
{
    let longer = script + more;
    if events.len() != 0 {
        let behind = events.drop_first();
        match events[0] {
            EventView::XML(token) => {
                lemma_events_carried_on(namespace, behind, failure, script, more);
                let a = run_events(namespace, behind, failure, script);
                let b = run_events(namespace, behind, failure, longer);
                if a.end is Awaiting {
                    assert((token.markup() + a.output).is_prefix_of(token.markup() + b.output));
                }
            },
            EventView::ESI(TagView::Include { src, alt, continue_on_error }) => {
                lemma_include_carried_on(namespace, src, alt, continue_on_error, script, more);
                lemma_include_uses_script(namespace, src, alt, continue_on_error, script);
                lemma_include_uses_script(namespace, src, alt, continue_on_error, longer);
                let first = run_include(namespace, src, alt, continue_on_error, script);
                let again = run_include(namespace, src, alt, continue_on_error, longer);
                if first.end is Finished {
                    let left = script.skip(first.used as int);
                    assert(longer.skip(first.used as int) =~= left + more);
                    lemma_events_carried_on(namespace, behind, failure, left, more);
                    let a = run_events(namespace, behind, failure, left);
                    let b = run_events(namespace, behind, failure, left + more);
                    if a.end is Awaiting {
                        assert((first.output + a.output).is_prefix_of(first.output + b.output));
                    }
                } else if first.end is Awaiting {
                    if again.end is Finished {
                        let b = run_events(
                            namespace,
                            behind,
                            failure,
                            longer.skip(again.used as int),
                        );
                        assert(first.output.is_prefix_of(again.output + b.output));
                    }
                }
            },
        }
    }
}

proof fn lemma_include_carried_on(
    namespace: Seq<char>,
    url: Seq<char>,
    alt: Option<Seq<char>>,
    continue_on_error: bool,
    script: Seq<FetchView>,
    more: Seq<FetchView>,
)
    ensures
        carried_on(
            run_include(namespace, url, alt, continue_on_error, script),
            run_include(namespace, url, alt, continue_on_error, script + more),
            script,
        ),
    decreases script.len(), 0nat,
{
    let longer = script + more;
    if script.len() == 0 {
        assert(Seq::<u8>::empty().is_prefix_of(
            run_include(namespace, url, alt, continue_on_error, longer).output,
        ));
    } else {
        let outcome = script[0];
        let rest = script.skip(1);
        assert(longer[0] == outcome);
        assert(longer.skip(1) =~= rest + more);
        if outcome.succeeded() {
            let fragment = scan(namespace, outcome.fragment());
            lemma_events_carried_on(namespace, fragment.events, fragment.failure, rest, more);
            let a = run_events(namespace, fragment.events, fragment.failure, rest);
            let b = run_events(namespace, fragment.events, fragment.failure, rest + more);
            if a.end is Awaiting {
                assert((Seq::<u8>::empty() + a.output).is_prefix_of(
                    Seq::<u8>::empty() + b.output,
                ));
            }
        } else {
            match alt {
                Some(alt) => {
                    lemma_include_carried_on(namespace, alt, None, continue_on_error, rest, more);
                    let a = run_include(namespace, alt, None, continue_on_error, rest);
                    let b = run_include(namespace, alt, None, continue_on_error, rest + more);
                    if a.end is Awaiting {
                        assert((Seq::<u8>::empty() + a.output).is_prefix_of(
                            Seq::<u8>::empty() + b.output,
                        ));
                    }
                },
                None => {},
            }
        }
    }
}

} // verus!
