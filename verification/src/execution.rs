//! The executor: a document on its way to being resolved, halted wherever a fragment has
//! to be fetched.

use crate::error::{ErrorView, ExecutionError};
use crate::fetch::{FetchOutcome, FetchView};
use crate::parse::{events_view, parse_tags, scan, Event, EventView, Tag, TagView};
use crate::resolve::{
    ended, left_of, lemma_events_use_script, lemma_include_uses_script, resolve, run_events,
    run_include, End, Run,
};
use vstd::prelude::*;

verus! {

/// A document that is being resolved: its events, how many of them are done, and the
/// failure in which its scan ended, if it did.
struct Frame {
    events: Vec<Event>,
    next: usize,
    failure: Option<ExecutionError>,
}

/// A frame as contracts see it.
struct FrameView {
    events: Seq<EventView>,
    next: int,
    failure: Option<ErrorView>,
}

impl View for Frame {
    type V = FrameView;

    closed spec fn view(&self) -> FrameView {
        FrameView {
            events: events_view(self.events@),
            next: self.next as int,
            failure: match self.failure {
                Some(e) => Some(e@),
                None => None,
            },
        }
    }
}

impl FrameView {
    spec fn wf(self) -> bool {
        0 <= self.next <= self.events.len()
    }

    /// The events that are still to be done.
    spec fn rest(self) -> Seq<EventView> {
        self.events.skip(self.next)
    }

    spec fn advanced(self) -> FrameView {
        FrameView { next: self.next + 1, ..self }
    }
}

spec fn frames_view(frames: Seq<Frame>) -> Seq<FrameView> {
    frames.map_values(|f: Frame| f@)
}

spec fn all_wf(frames: Seq<FrameView>) -> bool {
    forall|i: int| 0 <= i < frames.len() ==> (#[trigger] frames[i]).wf()
}

/// The run of a stack of documents, the innermost last: what is left of the innermost is
/// resolved, then what is left of the one around it, and so on outward.
spec fn run_stack(namespace: Seq<char>, frames: Seq<FrameView>, script: Seq<FetchView>) -> Run
    decreases frames.len(),
{
    if frames.len() == 0 {
        ended(End::Finished)
    } else {
        let top = frames.last();
        let first = run_events(namespace, top.rest(), top.failure, script);
        first.followed_by(run_stack(namespace, frames.drop_last(), left_of(script, first.used)))
    }
}

/// Where the executor halts.
enum Halt {
    Awaiting { url: Seq<char>, alt: Option<Seq<char>>, continue_on_error: bool, frames: Seq<FrameView> },
    Finished,
    Failed(ErrorView),
}

/// The run from a halt on.
spec fn run_halt(namespace: Seq<char>, halt: Halt, script: Seq<FetchView>) -> Run {
    match halt {
        Halt::Finished => ended(End::Finished),
        Halt::Failed(e) => ended(End::Failed(e)),
        Halt::Awaiting { url, alt, continue_on_error, frames } => {
            let first = run_include(namespace, url, alt, continue_on_error, script);
            first.followed_by(run_stack(namespace, frames, left_of(script, first.used)))
        },
    }
}

spec fn remaining(frames: Seq<FrameView>) -> int {
    if frames.len() == 0 {
        0
    } else {
        frames.last().events.len() - frames.last().next
    }
}

/// What the executor writes before it next halts, and where it halts.
spec fn drain(frames: Seq<FrameView>) -> (Seq<u8>, Halt)
    decreases frames.len(), remaining(frames),
{
    if frames.len() == 0 {
        (Seq::empty(), Halt::Finished)
    } else {
        let top = frames.last();
        let below = frames.drop_last();
        if top.next < 0 || top.next >= top.events.len() {
            match top.failure {
                Some(e) => (Seq::empty(), Halt::Failed(e)),
                None => drain(below),
            }
        } else {
            match top.events[top.next] {
                EventView::XML(token) => {
                    let (output, halt) = drain(below.push(top.advanced()));
                    (token.markup() + output, halt)
                },
                EventView::ESI(TagView::Include { src, alt, continue_on_error }) => (
                    Seq::empty(),
                    Halt::Awaiting {
                        url: src,
                        alt,
                        continue_on_error,
                        frames: below.push(top.advanced()),
                    },
                ),
            }
        }
    }
}

/// The run of a stack, by its innermost document and the documents around it.
proof fn lemma_stack_push(
    namespace: Seq<char>,
    below: Seq<FrameView>,
    top: FrameView,
    script: Seq<FetchView>,
)
    ensures
        ({
            let first = run_events(namespace, top.rest(), top.failure, script);
            &&& first.used <= script.len()
            &&& run_stack(namespace, below.push(top), script) == first.followed_by(
                run_stack(namespace, below, script.skip(first.used as int)),
            )
        }),
{
    let frames = below.push(top);
    assert(frames.last() == top);
    assert(frames.drop_last() =~= below);
    lemma_events_use_script(namespace, top.rest(), top.failure, script);
}

/// Markup at the head of the innermost document is written first.
proof fn lemma_stack_markup(
    namespace: Seq<char>,
    below: Seq<FrameView>,
    top: FrameView,
    script: Seq<FetchView>,
)
    requires
        0 <= top.next < top.events.len(),
        top.events[top.next] is XML,
    ensures
        run_stack(namespace, below.push(top), script) =~= run_stack(
            namespace,
            below.push(top.advanced()),
            script,
        ).after(top.events[top.next]->XML_0.markup(), 0),
{
    let token = top.events[top.next]->XML_0;
    assert(top.rest()[0] == top.events[top.next]);
    assert(top.rest().drop_first() =~= top.advanced().rest());
    let inner = run_events(namespace, top.advanced().rest(), top.failure, script);
    let first = run_events(namespace, top.rest(), top.failure, script);
    assert(first == inner.after(token.markup(), 0));
    lemma_stack_push(namespace, below, top, script);
    lemma_stack_push(namespace, below, top.advanced(), script);
}

/// A directive at the head of the innermost document is resolved first, then the rest.
proof fn lemma_stack_include(
    namespace: Seq<char>,
    below: Seq<FrameView>,
    top: FrameView,
    script: Seq<FetchView>,
)
    requires
        0 <= top.next < top.events.len(),
        top.events[top.next] is ESI,
    ensures
        ({
            let tag = top.events[top.next]->ESI_0;
            run_stack(namespace, below.push(top), script) =~= run_halt(
                namespace,
                Halt::Awaiting {
                    url: tag->src,
                    alt: tag->alt,
                    continue_on_error: tag->continue_on_error,
                    frames: below.push(top.advanced()),
                },
                script,
            )
        }),
{
    let tag = top.events[top.next]->ESI_0;
    assert(top.rest()[0] == top.events[top.next]);
    assert(top.rest().drop_first() =~= top.advanced().rest());
    let first = run_include(namespace, tag->src, tag->alt, tag->continue_on_error, script);
    lemma_include_uses_script(namespace, tag->src, tag->alt, tag->continue_on_error, script);
    lemma_stack_push(namespace, below, top, script);
    if first.end is Finished {
        let later = script.skip(first.used as int);
        let second = run_events(namespace, top.advanced().rest(), top.failure, later);
        lemma_stack_push(namespace, below, top.advanced(), later);
        assert(later.skip(second.used as int) =~= script.skip((first.used + second.used) as int));
    }
}

/// A document that is done gives way to the one around it, or fails the run.
proof fn lemma_stack_end(
    namespace: Seq<char>,
    below: Seq<FrameView>,
    top: FrameView,
    script: Seq<FetchView>,
)
    requires
        top.next == top.events.len(),
    ensures
        run_stack(namespace, below.push(top), script) =~= match top.failure {
            Some(e) => ended(End::Failed(e)),
            None => run_stack(namespace, below, script),
        },
{
    assert(top.rest() =~= Seq::<EventView>::empty());
    assert(script.skip(0) =~= script);
    lemma_stack_push(namespace, below, top, script);
}

/// The executor's steps add up to the run of the stack.
proof fn lemma_drain(namespace: Seq<char>, frames: Seq<FrameView>, script: Seq<FetchView>)
    requires
        all_wf(frames),
    ensures
        run_stack(namespace, frames, script) =~= run_halt(
            namespace,
            drain(frames).1,
            script,
        ).after(drain(frames).0, 0),
    decreases frames.len(), remaining(frames),
{
    if frames.len() != 0 {
        let top = frames.last();
        let below = frames.drop_last();
        assert(frames =~= below.push(top));
        assert(top.wf());
        assert(all_wf(below));
        if top.next >= top.events.len() {
            lemma_stack_end(namespace, below, top, script);
            if top.failure is None {
                lemma_drain(namespace, below, script);
            }
        } else {
            let next = below.push(top.advanced());
            assert(all_wf(next)) by {
                assert forall|i: int| 0 <= i < next.len() implies (#[trigger] next[i]).wf() by {
                    if i < below.len() {
                        assert(next[i] == below[i]);
                    }
                }
            }
            match top.events[top.next] {
                EventView::XML(token) => {
                    lemma_stack_markup(namespace, below, top, script);
                    assert(next.last() == top.advanced());
                    lemma_drain(namespace, next, script);
                },
                EventView::ESI(TagView::Include { src, alt, continue_on_error }) => {
                    lemma_stack_include(namespace, below, top, script);
                },
            }
        }
    }
}

/// What delivering an outcome to a halted executor comes to.
proof fn lemma_deliver(
    namespace: Seq<char>,
    url: Seq<char>,
    alt: Option<Seq<char>>,
    continue_on_error: bool,
    frames: Seq<FrameView>,
    outcome: FetchView,
    script: Seq<FetchView>,
)
    ensures
        run_halt(
            namespace,
            Halt::Awaiting { url, alt, continue_on_error, frames },
            seq![outcome] + script,
        ) =~= (if outcome.succeeded() {
            let fragment = scan(namespace, outcome.fragment());
            run_stack(
                namespace,
                frames.push(
                    FrameView { events: fragment.events, next: 0, failure: fragment.failure },
                ),
                script,
            )
        } else {
            match alt {
                Some(alt) => run_halt(
                    namespace,
                    Halt::Awaiting { url: alt, alt: None, continue_on_error, frames },
                    script,
                ),
                None => if continue_on_error {
                    run_stack(namespace, frames, script)
                } else {
                    ended(End::Failed(outcome.error()))
                },
            }
        }).after(Seq::empty(), 1),
{
    let whole = seq![outcome] + script;
    assert(whole[0] == outcome);
    assert(whole.skip(1) =~= script);
    lemma_include_uses_script(namespace, url, alt, continue_on_error, whole);
    let first = run_include(namespace, url, alt, continue_on_error, whole);
    if outcome.succeeded() {
        let fragment = scan(namespace, outcome.fragment());
        let top = FrameView { events: fragment.events, next: 0, failure: fragment.failure };
        assert(top.rest() =~= fragment.events);
        lemma_stack_push(namespace, frames, top, script);
        let inner = run_events(namespace, fragment.events, fragment.failure, script);
        assert(whole.skip(first.used as int) =~= script.skip(inner.used as int));
    } else {
        match alt {
            Some(alt) => {
                let inner = run_include(namespace, alt, None, continue_on_error, script);
                lemma_include_uses_script(namespace, alt, None, continue_on_error, script);
                assert(whole.skip(first.used as int) =~= script.skip(inner.used as int));
            },
            None => {},
        }
    }
}

/// The executor where it has halted for good or for a fetch.
enum Halted {
    Awaiting { url: String, alt: Option<String>, continue_on_error: bool, frames: Vec<Frame> },
    Finished,
    Failed(ExecutionError),
}

impl View for Halted {
    type V = Halt;

    closed spec fn view(&self) -> Halt {
        match self {
            Halted::Awaiting { url, alt, continue_on_error, frames } => Halt::Awaiting {
                url: url@,
                alt: match alt {
                    Some(alt) => Some(alt@),
                    None => None,
                },
                continue_on_error: *continue_on_error,
                frames: frames_view(frames@),
            },
            Halted::Finished => Halt::Finished,
            Halted::Failed(e) => Halt::Failed(e@),
        }
    }
}

/// Works the stack off until a fragment has to be fetched or the run is over.
fn drain_frames(frames: Vec<Frame>, output: &mut Vec<u8>) -> (halted: Halted)
    requires
        all_wf(frames_view(frames@)),
    ensures
        final(output)@ == old(output)@ + drain(frames_view(frames@)).0,
        halted@ == drain(frames_view(frames@)).1,
{
    let ghost start = frames_view(frames@);
    let ghost initial = output@;
    let mut frames = frames;
    let mut halted = Halted::Finished;
    loop
        invariant_except_break
            all_wf(frames_view(frames@)),
            drain(start).1 == drain(frames_view(frames@)).1,
            initial + drain(start).0 == output@ + drain(frames_view(frames@)).0,
        ensures
            output@ == initial + drain(start).0,
            halted@ == drain(start).1,
        decreases frames@.len(), remaining(frames_view(frames@)),
    {
        let ghost stack = frames_view(frames@);
        let ghost written = output@;
        let top = match frames.pop() {
            None => {
                assert(output@ + Seq::<u8>::empty() =~= output@);
                halted = Halted::Finished;
                break ;
            },
            Some(top) => top,
        };
        let ghost below = frames_view(frames@);
        assert(below =~= stack.drop_last());
        assert(top@ == stack.last());
        assert(top@.wf());
        assert(all_wf(below)) by {
            assert forall|i: int| 0 <= i < below.len() implies (#[trigger] below[i]).wf() by {
                assert(below[i] == stack[i]);
            }
        }
        if top.next >= top.events.len() {
            match top.failure {
                Some(e) => {
                    assert(output@ + Seq::<u8>::empty() =~= output@);
                    halted = Halted::Failed(e);
                    break ;
                },
                None => {},
            }
        } else {
            let ghost event = top@.events[top@.next];
            assert(event == top.events@[top.next as int]@);
            let advanced = match &top.events[top.next] {
                Event::XML(token) => {
                    token.write_to(output);
                    None
                },
                Event::ESI(Tag::Include { src, alt, continue_on_error }) => Some(
                    (
                        src.clone(),
                        match alt {
                            Some(alt) => Some(alt.clone()),
                            None => None,
                        },
                        *continue_on_error,
                    ),
                ),
            };
            let next = Frame { events: top.events, next: top.next + 1, failure: top.failure };
            assert(next@ == top@.advanced());
            frames.push(next);
            let ghost pushed = frames_view(frames@);
            assert(pushed =~= below.push(top@.advanced()));
            assert(all_wf(pushed)) by {
                assert forall|i: int| 0 <= i < pushed.len() implies (#[trigger] pushed[i]).wf() by {
                    if i < below.len() {
                        assert(pushed[i] == below[i]);
                    }
                }
            }
            match advanced {
                None => {
                    assert(output@ + drain(pushed).0 =~= written + drain(stack).0);
                },
                Some((url, alt, continue_on_error)) => {
                    assert(output@ + Seq::<u8>::empty() =~= output@);
                    halted = Halted::Awaiting { url, alt, continue_on_error, frames };
                    break ;
                },
            }
        }
    }
    halted
}

/// What the script so far and any script to come resolve to, seen from a halt.
spec fn agrees(
    namespace: Seq<char>,
    document: Seq<u8>,
    history: Seq<FetchView>,
    emitted: Seq<u8>,
    halt: Halt,
) -> bool {
    forall|script: Seq<FetchView>| #[trigger]
        resolve(namespace, document, history + script) =~= run_halt(namespace, halt, script).after(
            emitted,
            history.len(),
        )
}

/// The same, seen from a stack that is yet to be worked off.
spec fn agrees_stack(
    namespace: Seq<char>,
    document: Seq<u8>,
    history: Seq<FetchView>,
    emitted: Seq<u8>,
    frames: Seq<FrameView>,
) -> bool {
    forall|script: Seq<FetchView>| #[trigger]
        resolve(namespace, document, history + script) =~= run_stack(
            namespace,
            frames,
            script,
        ).after(emitted, history.len())
}

/// A document on its way to being resolved, halted where a fragment has to be fetched.
/// It holds what is left of the document and of the fragments around the directive, and
/// the directive's fallback.
///
/// Fragments nest as deep as they ask for. Nothing here notices a fragment that asks for
/// itself: such a run goes on for as long as the fetches succeed, and it is for whoever
/// drives it to stop fetching.
pub struct Execution {
    namespace: String,
    url: String,
    alt: Option<String>,
    continue_on_error: bool,
    frames: Vec<Frame>,
    document: Ghost<Seq<u8>>,
    history: Ghost<Seq<FetchView>>,
    emitted: Ghost<Seq<u8>>,
}

/// The next thing to happen in a run.
pub enum Next {
    /// A fragment has to be fetched from `Execution::url`, and the outcome handed to
    /// `Execution::resume`.
    Fetch(Execution),
    /// The document is resolved.
    Finished,
    /// The run failed. What was written stays written; nothing more is.
    Failed(ExecutionError),
}

/// One stretch of a run: what it wrote, and what happens next.
pub struct Step {
    pub output: Vec<u8>,
    pub next: Next,
}

impl Step {
    /// This step is what the run of `document` under `history` comes to, when `before`
    /// is what the steps before this one wrote: the run used all of `history`, its output
    /// is `before` and then the output of this step, and it stands where `next` says.
    pub open spec fn follows(
        self,
        namespace: Seq<char>,
        document: Seq<u8>,
        history: Seq<FetchView>,
        before: Seq<u8>,
    ) -> bool {
        let run = resolve(namespace, document, history);
        &&& run.used == history.len()
        &&& run.output == before + self.output@
        &&& match self.next {
            Next::Fetch(execution) => {
                &&& run.end == End::Awaiting(execution.awaited())
                &&& execution.namespace() == namespace
                &&& execution.document() == document
                &&& execution.history() == history
                &&& execution.emitted() == run.output
            },
            Next::Finished => run.end is Finished,
            Next::Failed(e) => run.end == End::Failed(e@),
        }
    }
}

/// Works a stack off and says where the run then stands.
fn proceed(
    namespace: String,
    frames: Vec<Frame>,
    Ghost(document): Ghost<Seq<u8>>,
    Ghost(history): Ghost<Seq<FetchView>>,
    Ghost(emitted): Ghost<Seq<u8>>,
) -> (step: Step)
    requires
        all_wf(frames_view(frames@)),
        agrees_stack(namespace@, document, history, emitted, frames_view(frames@)),
    ensures
        step.follows(namespace@, document, history, emitted),
{
    let mut output: Vec<u8> = Vec::new();
    let halted = drain_frames(frames, &mut output);
    let ghost stack = frames_view(frames@);
    let ghost total = emitted + output@;
    proof {
        assert(output@ =~= drain(stack).0);
        assert forall|script: Seq<FetchView>| #[trigger]
            resolve(namespace@, document, history + script) =~= run_halt(
                namespace@,
                halted@,
                script,
            ).after(total, history.len()) by {
            lemma_drain(namespace@, stack, script);
        }
        assert(agrees(namespace@, document, history, total, halted@));
        lemma_halted_now(namespace@, document, history, total, halted@);
    }
    match halted {
        Halted::Awaiting { url, alt, continue_on_error, frames } => {
            proof {
                assert(drain(stack).1 is Awaiting);
                lemma_drain_wf(stack);
            }
            let execution = Execution {
                namespace,
                url,
                alt,
                continue_on_error,
                frames,
                document: Ghost(document),
                history: Ghost(history),
                emitted: Ghost(total),
            };
            Step { output, next: Next::Fetch(execution) }
        },
        Halted::Finished => Step { output, next: Next::Finished },
        Halted::Failed(e) => Step { output, next: Next::Failed(e) },
    }
}

/// The stack that a halt for a fetch leaves is in order.
proof fn lemma_drain_wf(frames: Seq<FrameView>)
    requires
        all_wf(frames),
    ensures
        drain(frames).1 matches Halt::Awaiting { frames: left, .. } ==> all_wf(left),
    decreases frames.len(), remaining(frames),
{
    if frames.len() != 0 {
        let top = frames.last();
        let below = frames.drop_last();
        assert(top.wf());
        assert(all_wf(below));
        if top.next >= top.events.len() {
            if top.failure is None {
                lemma_drain_wf(below);
            }
        } else {
            let next = below.push(top.advanced());
            assert(all_wf(next)) by {
                assert forall|i: int| 0 <= i < next.len() implies (#[trigger] next[i]).wf() by {
                    if i < below.len() {
                        assert(next[i] == below[i]);
                    }
                }
            }
            if top.events[top.next] is XML {
                assert(next.last() == top.advanced());
                lemma_drain_wf(next);
            }
        }
    }
}

impl Execution {
    spec fn halt(&self) -> Halt {
        Halt::Awaiting {
            url: self.url@,
            alt: match self.alt {
                Some(alt) => Some(alt@),
                None => None,
            },
            continue_on_error: self.continue_on_error,
            frames: frames_view(self.frames@),
        }
    }

    #[verifier::type_invariant]
    spec fn inv(&self) -> bool {
        &&& all_wf(frames_view(self.frames@))
        &&& agrees(self.namespace@, self.document@, self.history@, self.emitted@, self.halt())
    }

    /// The namespace of the directives that this run recognizes.
    pub closed spec fn namespace(&self) -> Seq<char> {
        self.namespace@
    }

    /// The document that is being resolved.
    pub closed spec fn document(&self) -> Seq<u8> {
        self.document@
    }

    /// The outcomes that the run was given up to here.
    pub closed spec fn history(&self) -> Seq<FetchView> {
        self.history@
    }

    /// All that the run has written up to here.
    pub closed spec fn emitted(&self) -> Seq<u8> {
        self.emitted@
    }

    /// The address whose fetch the run is waiting for.
    pub closed spec fn awaited(&self) -> Seq<char> {
        self.url@
    }

    /// The address to fetch the fragment from.
    pub fn url(&self) -> (url: &str)
        ensures
            url@ == self.awaited(),
    {
        self.url.as_str()
    }

    /// Starts resolving `document`, and runs until its first fragment has to be fetched.
    pub fn begin(namespace: &str, document: &[u8]) -> (step: Step)
        ensures
            step.follows(namespace@, document@, Seq::empty(), Seq::empty()),
    {
        let parsed = parse_tags(namespace, document);
        let mut frames: Vec<Frame> = Vec::new();
        let frame = Frame { events: parsed.events, next: 0, failure: parsed.failure };
        frames.push(frame);
        proof {
            let top = frame@;
            let stack = frames_view(frames@);
            let none = Seq::<FrameView>::empty();
            let history = Seq::<FetchView>::empty();
            assert(stack =~= none.push(top));
            assert(top.rest() =~= top.events);
            assert forall|script: Seq<FetchView>| #[trigger]
                resolve(namespace@, document@, history + script) =~= run_stack(
                    namespace@,
                    stack,
                    script,
                ).after(Seq::<u8>::empty(), history.len()) by {
                assert(history + script =~= script);
                lemma_stack_push(namespace@, none, top, script);
            }
        }
        proceed(namespace.to_owned(), frames, Ghost(document@), Ghost(Seq::empty()), Ghost(Seq::empty()))
    }

    /// Takes the outcome of the fetch that the run was waiting for, and runs until the
    /// next fragment has to be fetched. A fragment that was fetched is resolved in place
    /// of its directive. After a failed fetch the fallback address is fetched next, if the
    /// directive has one that was not tried yet; failing that, the run goes on without
    /// the fragment if the directive allows that, and fails with the error of this fetch
    /// if it does not.
    pub fn resume(self, outcome: FetchOutcome) -> (step: Step)
        ensures
            step.follows(
                self.namespace(),
                self.document(),
                self.history().push(outcome@),
                self.emitted(),
            ),
    {
        proof {
            use_type_invariant(&self);
        }
        let ghost namespace = self.namespace@;
        let ghost document = self.document@;
        let ghost history = self.history@.push(outcome@);
        let ghost emitted = self.emitted@;
        let ghost stack = frames_view(self.frames@);
        let ghost halt = self.halt();
        let ghost delivered = outcome@;
        proof {
            lemma_resume(namespace, document, self.history@, emitted, halt, delivered);
        }
        let Execution { namespace: name, url, alt, continue_on_error, frames, .. } = self;
        match outcome.into_fragment() {
            Ok(body) => {
                let parsed = parse_tags(name.as_str(), body.as_slice());
                let mut frames = frames;
                let frame = Frame { events: parsed.events, next: 0, failure: parsed.failure };
                frames.push(frame);
                proof {
                    let pushed = frames_view(frames@);
                    assert(pushed =~= stack.push(frame@));
                    assert(all_wf(pushed)) by {
                        assert forall|i: int| 0 <= i < pushed.len() implies (
                        #[trigger] pushed[i]).wf() by {
                            if i < stack.len() {
                                assert(pushed[i] == stack[i]);
                            }
                        }
                    }
                }
                proceed(name, frames, Ghost(document), Ghost(history), Ghost(emitted))
            },
            Err(e) => match alt {
                Some(alt) => {
                    proof {
                        lemma_halted_now(
                            namespace,
                            document,
                            history,
                            emitted,
                            Halt::Awaiting { url: alt@, alt: None, continue_on_error, frames: stack },
                        );
                        assert(emitted + Seq::<u8>::empty() =~= emitted);
                    }
                    let execution = Execution {
                        namespace: name,
                        url: alt,
                        alt: None,
                        continue_on_error,
                        frames,
                        document: Ghost(document),
                        history: Ghost(history),
                        emitted: Ghost(emitted),
                    };
                    Step { output: Vec::new(), next: Next::Fetch(execution) }
                },
                None => {
                    if continue_on_error {
                        proceed(name, frames, Ghost(document), Ghost(history), Ghost(emitted))
                    } else {
                        proof {
                            lemma_halted_now(
                                namespace,
                                document,
                                history,
                                emitted,
                                Halt::Failed(delivered.error()),
                            );
                            assert(emitted + Seq::<u8>::empty() =~= emitted);
                        }
                        Step { output: Vec::new(), next: Next::Failed(e) }
                    }
                },
            },
        }
    }
}

/// Where a halted run stands once the fetch that it waited for came to `outcome`: on a
/// stack to be worked off, or at a halt.
spec fn delivered(namespace: Seq<char>, halt: Halt, outcome: FetchView) -> Result<
    Seq<FrameView>,
    Halt,
> {
    if outcome.succeeded() {
        let fragment = scan(namespace, outcome.fragment());
        Ok(
            halt->frames.push(
                FrameView { events: fragment.events, next: 0, failure: fragment.failure },
            ),
        )
    } else {
        match halt->alt {
            Some(alt) => Err(
                Halt::Awaiting {
                    url: alt,
                    alt: None,
                    continue_on_error: halt->continue_on_error,
                    frames: halt->frames,
                },
            ),
            None => if halt->continue_on_error {
                Ok(halt->frames)
            } else {
                Err(Halt::Failed(outcome.error()))
            },
        }
    }
}

/// Delivering an outcome keeps the run in agreement with what the document resolves to.
proof fn lemma_resume(
    namespace: Seq<char>,
    document: Seq<u8>,
    history: Seq<FetchView>,
    emitted: Seq<u8>,
    halt: Halt,
    outcome: FetchView,
)
    requires
        halt is Awaiting,
        agrees(namespace, document, history, emitted, halt),
    ensures
        match delivered(namespace, halt, outcome) {
            Ok(frames) => agrees_stack(namespace, document, history.push(outcome), emitted, frames),
            Err(next) => agrees(namespace, document, history.push(outcome), emitted, next),
        },
{
    let longer = history.push(outcome);
    assert forall|script: Seq<FetchView>|
        match delivered(namespace, halt, outcome) {
            Ok(frames) => #[trigger] resolve(namespace, document, longer + script) =~= run_stack(
                namespace,
                frames,
                script,
            ).after(emitted, longer.len()),
            Err(next) => resolve(namespace, document, longer + script) =~= run_halt(
                namespace,
                next,
                script,
            ).after(emitted, longer.len()),
        } by {
        let whole = seq![outcome] + script;
        assert(history + whole =~= longer + script);
        assert(resolve(namespace, document, history + whole) =~= run_halt(
            namespace,
            halt,
            whole,
        ).after(emitted, history.len()));
        lemma_deliver(
            namespace,
            halt->url,
            halt->alt,
            halt->continue_on_error,
            halt->frames,
            outcome,
            script,
        );
    }
}

/// Where a run stands that has halted.
proof fn lemma_halted_now(
    namespace: Seq<char>,
    document: Seq<u8>,
    history: Seq<FetchView>,
    emitted: Seq<u8>,
    halt: Halt,
)
    requires
        agrees(namespace, document, history, emitted, halt),
    ensures
        resolve(namespace, document, history) =~= (Run {
            output: emitted,
            used: history.len(),
            end: match halt {
                Halt::Awaiting { url, .. } => End::Awaiting(url),
                Halt::Finished => End::Finished,
                Halt::Failed(e) => End::Failed(e),
            },
        }),
{
    let none = Seq::<FetchView>::empty();
    assert(history + none =~= history);
    assert(resolve(namespace, document, history + none) =~= run_halt(namespace, halt, none).after(
        emitted,
        history.len(),
    ));
}

} // verus!
