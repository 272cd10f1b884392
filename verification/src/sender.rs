//! The sender: one request per request unit, in order, one at a time.
//!
//! The sender does no I/O. It is a state machine that a driver feeds with
//! what happened and that answers with what to do next: the events to report
//! and one directive. The driver sends the query that a directive names,
//! waits for the reply, sleeps for the pause, and comes back each time.
//!
//! ```text
//! Idle --begin--> AwaitReply(0) --reply--> Recorded(0) --paced--> AwaitReply(1) ...
//!                      |                                     \--> Done (after the last)
//!                      \--transport failed--> Failed(0)
//! ```
//!
//! Dispatching a unit is the step into `AwaitReply`: it reports the unit and
//! hands out its query.

use vstd::prelude::*;
use vstd::string::StringExecFns;
use crate::error::ChannelError;
use crate::event::{views, Action, ActionView};
use crate::framer::{encrypt, encrypt_spec};
use crate::text::{decimal, decimal_text, uppercase_of};

verus! {

/// Seconds to wait after a reply before the next request.
pub const PACING_SECONDS: u64 = 1;

/// Where a transmission stands. The number is the index of the unit that
/// the phase is about.
#[derive(Debug, Clone, Copy, PartialEq, Eq, Structural)]
pub enum Phase {
    /// Nothing was sent yet.
    Idle,
    /// The query of this unit is out; its reply is awaited.
    AwaitReply(usize),
    /// The reply to this unit was reported; the pause after it is awaited.
    Recorded(usize),
    /// Every unit was sent and answered.
    Done,
    /// The transport failed on this unit; nothing more is sent.
    Failed(usize),
}

/// What the driver tells the sender.
#[derive(Debug, Clone, PartialEq, Eq)]
pub enum Feedback {
    /// The send is to begin.
    Begin,
    /// The reply to the query that is out has come, with these answer
    /// records as text; there may be none.
    Reply(Vec<String>),
    /// The transport failed on the query that is out.
    TransportFailed,
    /// The pause is over.
    Paced,
}

/// Feedback with its texts as sequences of characters.
pub enum FeedbackView {
    Begin,
    Reply(Seq<Seq<char>>),
    TransportFailed,
    Paced,
}

impl View for Feedback {
    type V = FeedbackView;

    open spec fn view(&self) -> FeedbackView {
        match self {
            Feedback::Begin => FeedbackView::Begin,
            Feedback::Reply(answers) => FeedbackView::Reply(answers.deep_view()),
            Feedback::TransportFailed => FeedbackView::TransportFailed,
            Feedback::Paced => FeedbackView::Paced,
        }
    }
}

/// What the sender tells the driver to do next.
#[derive(Debug, Clone, PartialEq, Eq)]
pub enum Directive {
    /// Send one query for this name and come back with its reply or with
    /// the transport's failure.
    Query(String),
    /// Sleep for this many seconds and come back.
    Pause(u64),
    /// The send is complete.
    Finish,
    /// The send failed: give up with the transport's error.
    Abort,
    /// The feedback did not fit the phase; nothing has changed.
    Nothing,
}

/// A directive with its name as a sequence of characters.
pub enum DirectiveView {
    Query(Seq<char>),
    Pause(u64),
    Finish,
    Abort,
    Nothing,
}

impl View for Directive {
    type V = DirectiveView;

    open spec fn view(&self) -> DirectiveView {
        match self {
            Directive::Query(name) => DirectiveView::Query(name@),
            Directive::Pause(seconds) => DirectiveView::Pause(*seconds),
            Directive::Finish => DirectiveView::Finish,
            Directive::Abort => DirectiveView::Abort,
            Directive::Nothing => DirectiveView::Nothing,
        }
    }
}

/// The answer of the sender to one feedback.
#[derive(Debug, Clone, PartialEq, Eq)]
pub struct Step {
    /// Events for the event sink, in order.
    pub events: Vec<Action>,
    /// What to do next.
    pub directive: Directive,
}

/// A step with its texts as sequences of characters.
pub struct StepView {
    pub events: Seq<ActionView>,
    pub directive: DirectiveView,
}

impl View for Step {
    type V = StepView;

    open spec fn view(&self) -> StepView {
        StepView { events: views(self.events@), directive: self.directive@ }
    }
}

/// The line that opens a send of `total` units.
pub open spec fn announce_line(total: nat) -> Seq<char> {
    "Sending "@ + decimal(total) + " DNS queries..."@
}

/// The prefix of a line about unit `number` of `total`, counted from one.
pub open spec fn tag(number: nat, total: nat) -> Seq<char> {
    "["@ + decimal(number) + "/"@ + decimal(total) + "] "@
}

/// The line that reports the dispatch of a unit.
pub open spec fn querying_line(number: nat, total: nat, name: Seq<char>) -> Seq<char> {
    tag(number, total) + "Querying: "@ + name
}

/// The line that reports what the server answered.
pub open spec fn echoed_line(number: nat, total: nat, echoed: Seq<char>) -> Seq<char> {
    tag(number, total) + "Server echoed: "@ + echoed
}

/// The line that reports a reply without an answer.
pub open spec fn silent_line(number: nat, total: nat) -> Seq<char> {
    tag(number, total) + "No answer from server"@
}

/// The line that closes a send.
pub open spec fn completed_line() -> Seq<char> {
    "All queries completed."@
}

/// The line that reports a reply: its first answer in upper case, or that
/// it has none.
pub open spec fn reply_line(number: nat, total: nat, answers: Seq<Seq<char>>) -> Seq<char> {
    if answers.len() == 0 {
        silent_line(number, total)
    } else {
        echoed_line(number, total, uppercase_of(answers[0]))
    }
}

/// A transmission as a value: the names to send and the phase.
pub struct TransmissionView {
    pub units: Seq<Seq<char>>,
    pub phase: Phase,
}

impl TransmissionView {
    /// The units can be counted, and the unit that the phase is about is
    /// one of them.
    pub open spec fn well_formed(self) -> bool {
        &&& self.units.len() <= usize::MAX
        &&& match self.phase {
            Phase::Idle => true,
            Phase::AwaitReply(i) => i < self.units.len(),
            Phase::Recorded(i) => i < self.units.len(),
            Phase::Done => true,
            Phase::Failed(i) => i < self.units.len(),
        }
    }

    /// Queries handed out so far.
    pub open spec fn issued(self) -> nat {
        match self.phase {
            Phase::Idle => 0,
            Phase::AwaitReply(i) => (i + 1) as nat,
            Phase::Recorded(i) => (i + 1) as nat,
            Phase::Done => self.units.len(),
            Phase::Failed(i) => (i + 1) as nat,
        }
    }

    /// Queries that are out and not yet answered: one or none.
    pub open spec fn in_flight(self) -> nat {
        if self.phase is AwaitReply {
            1
        } else {
            0
        }
    }

    /// The transmission in another phase.
    pub open spec fn at(self, phase: Phase) -> TransmissionView {
        TransmissionView { units: self.units, phase }
    }

    /// The step that dispatches unit `i`, after the events `before`.
    pub open spec fn dispatch(self, i: int, before: Seq<ActionView>) -> (
        TransmissionView,
        StepView,
    ) {
        (
            self.at(Phase::AwaitReply(i as usize)),
            StepView {
                events: before.push(
                    ActionView::Log(
                        querying_line((i + 1) as nat, self.units.len(), self.units[i]),
                    ),
                ),
                directive: DirectiveView::Query(self.units[i]),
            },
        )
    }

    /// The step that closes the send, after the events `before`.
    pub open spec fn finish(self, before: Seq<ActionView>) -> (TransmissionView, StepView) {
        (
            self.at(Phase::Done),
            StepView {
                events: before.push(ActionView::Log(completed_line())),
                directive: DirectiveView::Finish,
            },
        )
    }

    /// The step that changes nothing.
    pub open spec fn ignore(self) -> (TransmissionView, StepView) {
        (self, StepView { events: Seq::empty(), directive: DirectiveView::Nothing })
    }

    /// The transmission after `feedback`, and the answer to it.
    pub open spec fn step(self, feedback: FeedbackView) -> (TransmissionView, StepView) {
        let total = self.units.len();
        match (self.phase, feedback) {
            (Phase::Idle, FeedbackView::Begin) => {
                if total == 0 {
                    self.finish(seq![ActionView::Log(announce_line(total))])
                } else {
                    self.dispatch(0, seq![ActionView::Log(announce_line(total))])
                }
            },
            (Phase::AwaitReply(i), FeedbackView::Reply(answers)) => (
                self.at(Phase::Recorded(i)),
                StepView {
                    events: seq![ActionView::Log(reply_line((i + 1) as nat, total, answers))],
                    directive: DirectiveView::Pause(PACING_SECONDS),
                },
            ),
            (Phase::AwaitReply(i), FeedbackView::TransportFailed) => (
                self.at(Phase::Failed(i)),
                StepView { events: Seq::empty(), directive: DirectiveView::Abort },
            ),
            (Phase::Recorded(i), FeedbackView::Paced) => {
                if i + 1 < total {
                    self.dispatch(i + 1, Seq::empty())
                } else {
                    self.finish(Seq::empty())
                }
            },
            _ => self.ignore(),
        }
    }
}

/// The line that opens a send of `total` units.
pub fn announce(total: usize) -> (r: String)
    ensures
        r@ == announce_line(total as nat),
{
    let mut line = String::from_str("Sending ");
    line.append(decimal_text(total).as_str());
    line.append(" DNS queries...");
    line
}

/// The prefix of a line about unit `number` of `total`.
fn tagged(number: usize, total: usize) -> (r: String)
    ensures
        r@ == tag(number as nat, total as nat),
{
    let mut line = String::from_str("[");
    line.append(decimal_text(number).as_str());
    line.append("/");
    line.append(decimal_text(total).as_str());
    line.append("] ");
    line
}

/// The line that reports the dispatch of unit `number` of `total`.
pub fn querying(number: usize, total: usize, name: &str) -> (r: String)
    ensures
        r@ == querying_line(number as nat, total as nat, name@),
{
    let mut line = tagged(number, total);
    line.append("Querying: ");
    line.append(name);
    line
}

/// The line that reports what the server answered to unit `number` of
/// `total`, where `shown` is the answer as it is to be shown.
pub fn echoed(number: usize, total: usize, shown: &str) -> (r: String)
    ensures
        r@ == echoed_line(number as nat, total as nat, shown@),
{
    let mut line = tagged(number, total);
    line.append("Server echoed: ");
    line.append(shown);
    line
}

/// The line that reports a reply without an answer to unit `number` of
/// `total`.
pub fn silent(number: usize, total: usize) -> (r: String)
    ensures
        r@ == silent_line(number as nat, total as nat),
{
    let mut line = tagged(number, total);
    line.append("No answer from server");
    line
}

/// The line that closes a send.
pub fn completed() -> (r: String)
    ensures
        r@ == completed_line(),
{
    String::from_str("All queries completed.")
}

/// One send operation: the request units of a payload and how far the
/// exchange has come.
pub struct Transmission {
    units: Vec<String>,
    phase: Phase,
}

impl View for Transmission {
    type V = TransmissionView;

    closed spec fn view(&self) -> TransmissionView {
        TransmissionView { units: self.units.deep_view(), phase: self.phase }
    }
}

impl Transmission {
    #[verifier::type_invariant]
    spec fn inv(self) -> bool {
        self@.well_formed()
    }

    /// A transmission of these names, not yet begun.
    pub fn from_units(units: Vec<String>) -> (r: Transmission)
        ensures
            r@ == (TransmissionView { units: units.deep_view(), phase: Phase::Idle }),
    {
        assert(units.deep_view().len() == units.len());
        Transmission { units, phase: Phase::Idle }
    }

    /// A transmission of `payload` under `key`, not yet begun.
    pub fn new(payload: &[u8], key: &[u8]) -> (r: Result<Transmission, ChannelError>)
        ensures
            match r {
                Ok(t) => encrypt_spec(payload@, key@) == Ok::<Seq<Seq<char>>, ChannelError>(
                    t@.units,
                ) && t@.phase == Phase::Idle,
                Err(e) => encrypt_spec(payload@, key@) == Err::<Seq<Seq<char>>, ChannelError>(e),
            },
    {
        match encrypt(payload, key) {
            Ok(units) => Ok(Transmission::from_units(units)),
            Err(e) => Err(e),
        }
    }

    /// Where the transmission stands.
    pub fn phase(&self) -> (r: Phase)
        ensures
            r == self@.phase,
            self@.well_formed(),
    {
        proof {
            use_type_invariant(self);
        }
        self.phase
    }

    /// The number of request units.
    pub fn total(&self) -> (r: usize)
        ensures
            r == self@.units.len(),
    {
        self.units.len()
    }

    /// The step that dispatches unit `i`, after the events `events`.
    fn dispatch(&mut self, i: usize, events: Vec<Action>) -> (r: Step)
        requires
            i < old(self)@.units.len(),
        ensures
            final(self)@ == old(self)@.dispatch(i as int, views(events@)).0,
            r@ == old(self)@.dispatch(i as int, views(events@)).1,
    {
        let total = self.units.len();
        let ghost before = views(events@);
        let mut events = events;
        let line = querying(i + 1, total, self.units[i].as_str());
        events.push(Action::Log(line));
        let name = self.units[i].clone();
        self.phase = Phase::AwaitReply(i);
        assert(views(events@) =~= before.push(ActionView::Log(line@)));
        Step { events, directive: Directive::Query(name) }
    }

    /// The step that closes the send, after the events `events`.
    fn finish(&mut self, events: Vec<Action>) -> (r: Step)
        ensures
            final(self)@ == old(self)@.finish(views(events@)).0,
            r@ == old(self)@.finish(views(events@)).1,
    {
        proof {
            use_type_invariant(&*self);
        }
        let ghost before = views(events@);
        let mut events = events;
        let line = completed();
        events.push(Action::Log(line));
        self.phase = Phase::Done;
        assert(views(events@) =~= before.push(ActionView::Log(line@)));
        Step { events, directive: Directive::Finish }
    }

    /// Takes one feedback from the driver and answers with the events to
    /// report and the next thing to do.
    pub fn step(&mut self, feedback: Feedback) -> (r: Step)
        ensures
            old(self)@.well_formed(),
            final(self)@.well_formed(),
            final(self)@ == old(self)@.step(feedback@).0,
            r@ == old(self)@.step(feedback@).1,
    {
        proof {
            use_type_invariant(&*self);
        }
        let total = self.units.len();
        let mut events: Vec<Action> = Vec::new();
        assert(views(events@) =~= Seq::<ActionView>::empty());
        match feedback {
            Feedback::Begin => {
                match self.phase {
                    Phase::Idle => {
                        let line = announce(total);
                        events.push(Action::Log(line));
                        assert(views(events@) =~= seq![
                            ActionView::Log(announce_line(total as nat)),
                        ]);
                        if total == 0 {
                            self.finish(events)
                        } else {
                            self.dispatch(0, events)
                        }
                    },
                    _ => Step { events, directive: Directive::Nothing },
                }
            },
            Feedback::Reply(answers) => {
                match self.phase {
                    Phase::AwaitReply(i) => {
                        let line = if answers.len() == 0 {
                            silent(i + 1, total)
                        } else {
                            let shown = answers[0].as_str().to_uppercase();
                            echoed(i + 1, total, shown.as_str())
                        };
                        assert(line@ == reply_line(
                            (i + 1) as nat,
                            total as nat,
                            answers.deep_view(),
                        ));
                        events.push(Action::Log(line));
                        self.phase = Phase::Recorded(i);
                        assert(views(events@) =~= seq![
                            ActionView::Log(
                                reply_line((i + 1) as nat, total as nat, answers.deep_view()),
                            ),
                        ]);
                        Step { events, directive: Directive::Pause(PACING_SECONDS) }
                    },
                    _ => Step { events, directive: Directive::Nothing },
                }
            },
            Feedback::TransportFailed => {
                match self.phase {
                    Phase::AwaitReply(i) => {
                        self.phase = Phase::Failed(i);
                        Step { events, directive: Directive::Abort }
                    },
                    _ => Step { events, directive: Directive::Nothing },
                }
            },
            Feedback::Paced => {
                match self.phase {
                    Phase::Recorded(i) => {
                        if i + 1 < total {
                            self.dispatch(i + 1, events)
                        } else {
                            self.finish(events)
                        }
                    },
                    _ => Step { events, directive: Directive::Nothing },
                }
            },
        }
    }
}

/// The transmission after a run of feedback, and the directives that the
/// run was answered with, in order.
pub open spec fn run(start: TransmissionView, feedback: Seq<FeedbackView>) -> (
    TransmissionView,
    Seq<DirectiveView>,
)
    decreases feedback.len(),
{
    if feedback.len() == 0 {
        (start, Seq::empty())
    } else {
        let (before, directives) = run(start, feedback.drop_last());
        let (after, step) = before.step(feedback.last());
        (after, directives.push(step.directive))
    }
}

/// The names that a run of directives asks to query, in order.
pub open spec fn queried(directives: Seq<DirectiveView>) -> Seq<Seq<char>>
    decreases directives.len(),
{
    if directives.len() == 0 {
        Seq::empty()
    } else {
        let before = queried(directives.drop_last());
        match directives.last() {
            DirectiveView::Query(name) => before.push(name),
            _ => before,
        }
    }
}

/// The feedback of a driver whose transport never fails: the begin, and
/// for each reply the reply and the end of the pause after it.
pub open spec fn exchange(replies: Seq<Seq<Seq<char>>>) -> Seq<FeedbackView>
    decreases replies.len(),
{
    if replies.len() == 0 {
        seq![FeedbackView::Begin]
    } else {
        exchange(replies.drop_last()).push(FeedbackView::Reply(replies.last())).push(
            FeedbackView::Paced,
        )
    }
}

/// A step hands out a query only while none is out, and then for the unit
/// that follows the last one handed out; no other step hands one out.
pub proof fn one_query_at_a_time(state: TransmissionView, feedback: FeedbackView)
    requires
        state.well_formed(),
    ensures
        ({
            let (after, step) = state.step(feedback);
            &&& after.well_formed()
            &&& after.units == state.units
            &&& after.issued() <= state.units.len()
            &&& step.directive matches DirectiveView::Query(name) ==> {
                &&& state.in_flight() == 0
                &&& after.in_flight() == 1
                &&& after.issued() == state.issued() + 1
                &&& name == state.units[state.issued() as int]
            }
            &&& !(step.directive is Query) ==> {
                &&& after.issued() == state.issued()
                &&& after.in_flight() <= state.in_flight()
            }
        }),
{
}

/// Whatever the driver reports, the queries handed out are the units in
/// ascending order, each once, from the first that was not yet handed out;
/// a send that is done has handed out every unit.
pub proof fn queries_follow_unit_order(start: TransmissionView, feedback: Seq<FeedbackView>)
    requires
        start.well_formed(),
    ensures
        ({
            let (end, directives) = run(start, feedback);
            &&& end.well_formed()
            &&& end.units == start.units
            &&& directives.len() == feedback.len()
            &&& start.issued() <= end.issued() <= start.units.len()
            &&& queried(directives) == start.units.subrange(
                start.issued() as int,
                end.issued() as int,
            )
            &&& end.phase is Done ==> end.issued() == start.units.len()
        }),
    decreases feedback.len(),
{
    if feedback.len() == 0 {
        assert(start.units.subrange(start.issued() as int, start.issued() as int) =~= Seq::<
            Seq<char>,
        >::empty());
    } else {
        queries_follow_unit_order(start, feedback.drop_last());
        let (before, directives) = run(start, feedback.drop_last());
        one_query_at_a_time(before, feedback.last());
        let (after, step) = before.step(feedback.last());
        assert(directives.push(step.directive).drop_last() =~= directives);
        if step.directive is Query {
            assert(start.units.subrange(start.issued() as int, after.issued() as int)
                =~= start.units.subrange(start.issued() as int, before.issued() as int).push(
                start.units[before.issued() as int],
            ));
        }
    }
}

/// With a transport that never fails, a send of `N` units that has had
/// `k` replies has handed out the first `k + 1` units, or all `N` if there
/// are no more, and is done after the pause that follows reply `N`.
pub proof fn exchange_sends_every_unit(units: Seq<Seq<char>>, replies: Seq<Seq<Seq<char>>>)
    requires
        replies.len() <= units.len() <= usize::MAX,
    ensures
        ({
            let start = TransmissionView { units, phase: Phase::Idle };
            let (end, directives) = run(start, exchange(replies));
            &&& end.units == units
            &&& end.phase == if replies.len() < units.len() {
                Phase::AwaitReply(replies.len() as usize)
            } else {
                Phase::Done
            }
            &&& queried(directives) == units.take(end.issued() as int)
            &&& replies.len() == units.len() ==> queried(directives) == units
        }),
    decreases replies.len(),
{
    let start = TransmissionView { units, phase: Phase::Idle };
    queries_follow_unit_order(start, exchange(replies));
    if replies.len() == 0 {
        let begin = seq![FeedbackView::Begin];
        assert(begin.drop_last() =~= Seq::<FeedbackView>::empty());
        assert(run(start, begin.drop_last()).0 == start);
    } else {
        let earlier = replies.drop_last();
        exchange_sends_every_unit(units, earlier);
        let answered = exchange(earlier).push(FeedbackView::Reply(replies.last()));
        assert(exchange(replies).drop_last() =~= answered);
        assert(answered.drop_last() =~= exchange(earlier));
        let waiting = run(start, exchange(earlier)).0;
        assert(waiting.phase == Phase::AwaitReply(earlier.len() as usize));
        let recorded = run(start, answered).0;
        assert(recorded == waiting.step(FeedbackView::Reply(replies.last())).0);
        assert(recorded.phase == Phase::Recorded(earlier.len() as usize));
        assert(run(start, exchange(replies)).0 == recorded.step(FeedbackView::Paced).0);
    }
    assert(units.take(units.len() as int) =~= units);
}

} // verus!
