//! Running a command: the requests that are to be performed outside, one after the
//! other, until it is done.

use vstd::prelude::*;

use crate::clone::EntryView;
use crate::commands::{execute, execute_protocol, Cli, CommandsView};
use crate::order::sorts;
use crate::planner::{
    lemma_stage_is_performable, stage_protocol, survey_protocol, PlanState, Planner,
};
use crate::populator::{
    complete, lemma_task_is_performable, task_protocol, work_protocol, JobView, Populator, WorkState,
};
use crate::session::{Log, Progress, Reply, Request, RequestView, Session, Step, Stop};

verus! {

/// What a command is busy with.
pub enum Work {
    /// The command itself.
    Command,
    /// A plan that it needs.
    Planning(Planner),
    /// Carrying over what it planned.
    Populating(Populator),
}

impl Work {
    /// What was answered since.
    pub open spec fn answers(&self) -> Log {
        match self {
            Work::Command => Log::empty(),
            Work::Planning(planner) => planner.answers(),
            Work::Populating(populator) => populator.answers(),
        }
    }

    /// Whether this is what a step asks for, and comes out where its answers lead.
    pub open spec fn serves(&self, step: Step<Seq<char>>) -> bool {
        match self {
            Work::Command => true,
            Work::Planning(planner) => planner.faithful() && step == Step::<Seq<char>>::Ask(
                RequestView::Plan(planner.survey()),
            ),
            Work::Populating(populator) => populator.faithful() && step == Step::<Seq<char>>::Ask(
                RequestView::Populate {
                    source: populator.job().source,
                    destination: populator.job().destination,
                    entries: populator.job().entries,
                },
            ),
        }
    }

    pub open spec fn valid(&self) -> bool {
        match self {
            Work::Command => true,
            Work::Planning(planner) => planner.valid(),
            Work::Populating(populator) => populator.valid(),
        }
    }
}

/// A command being run.
pub struct Runner {
    cli: Cli,
    log: Vec<Reply>,
    work: Work,
    /// What was answered before the command became busy with what it is busy with.
    settled: Ghost<Log>,
}

impl Runner {
    /// What is done.
    pub closed spec fn command(&self) -> CommandsView {
        self.cli.command.deep_view()
    }

    /// What was answered to the command.
    pub closed spec fn log(&self) -> Log {
        self.log@
    }

    /// What the command is busy with.
    pub closed spec fn work(&self) -> Work {
        self.work
    }

    /// Everything that was answered, to the command and to what it was busy with.
    pub closed spec fn answers(&self) -> Log {
        self.settled@ + self.work.answers()
    }

    /// Whether the command stands where the answers from its beginning on lead.
    pub closed spec fn faithful(&self) -> bool {
        explained(self.command(), self.settled@, self.log()) && self.work().serves(
            standing(self.log(), self.command()),
        )
    }

    /// Where the command stands.
    pub open spec fn step(&self) -> Step<Seq<char>> {
        execute_protocol(self.log(), self.command())
    }

    pub open spec fn valid(&self) -> bool {
        self.work().valid()
    }

    /// A command that has not begun.
    pub fn new(cli: Cli) -> (r: Runner)
        ensures
            r.valid(),
            r.command() == cli.command.deep_view(),
            r.log() == Log::empty(),
            r.work() is Command,
            r.answers() == Log::empty(),
            r.faithful(),
    {
        let r = Runner {
            cli,
            log: Vec::new(),
            work: Work::Command,
            settled: Ghost(Log::empty()),
        };
        proof {
            assert(r.answers() =~= Log::empty());
            assert(r.log() =~= Log::empty());
            lemma_nothing_explained(r.command());
        }
        r
    }

    /// Takes the answer to the request that was made last.
    pub fn answer(&mut self, reply: Reply)
        requires
            old(self).valid(),
        ensures
            final(self).valid(),
            final(self).command() == old(self).command(),
            match old(self).work() {
                Work::Command => {
                    &&& final(self).work() is Command
                    &&& final(self).log() == old(self).log().push(reply)
                },
                Work::Planning(before) => {
                    &&& final(self).log() == old(self).log()
                    &&& final(self).work() matches Work::Planning(after) && after.survey()
                        == before.survey() && after.state() == before.state() && after.log()
                        == before.log().push(reply)
                },
                Work::Populating(before) => {
                    &&& final(self).log() == old(self).log()
                    &&& final(self).work() matches Work::Populating(after) && after.job()
                        == before.job() && after.state() == before.state() && after.log()
                        == before.log().push(reply)
                },
            },
            final(self).answers() == old(self).answers().push(reply),
            old(self).faithful() ==> final(self).faithful(),
    {
        match &mut self.work {
            Work::Command => {
                self.log.push(reply);
                let ghost before = self.settled@;
                self.settled = Ghost(before.push(reply));
                proof {
                    if old(self).faithful() {
                        lemma_explained(
                            self.command(),
                            before,
                            old(self).log(),
                            seq![reply],
                            reply,
                        );
                        assert(before + seq![reply] =~= before.push(reply));
                    }
                }
            },
            Work::Planning(planner) => {
                planner.answer(reply);
            },
            Work::Populating(populator) => {
                populator.answer(reply);
            },
        }
    }

    /// Goes one step. A plan or a population that the command asks for is done step
    /// by step, and what it comes to is the answer to the command.
    pub fn next(&mut self) -> (r: Progress<String>)
        requires
            old(self).valid(),
        ensures
            final(self).valid(),
            final(self).command() == old(self).command(),
            r matches Progress::Perform(request) ==> request.deep_view().performable(),
            match old(self).work() {
                Work::Command => command_goes(*old(self), r, *final(self)),
                Work::Planning(before) => plan_goes(*old(self), before, r, *final(self)),
                Work::Populating(before) => population_goes(*old(self), before, r, *final(self)),
            },
            r is Perform || r is Working ==> final(self).answers() == old(self).answers(),
            old(self).faithful() ==> run_comes_to(old(self).command(), old(self).answers(), r),
            old(self).faithful() && (r is Perform || r is Working) ==> final(self).faithful(),
    {
        let mut work = Work::Command;
        std::mem::swap(&mut self.work, &mut work);
        proof {
            assert(self.answers() =~= self.settled@);
        }
        match work {
            Work::Command => self.next_of_command(),
            Work::Planning(planner) => self.next_of_plan(planner),
            Work::Populating(populator) => self.next_of_population(populator),
        }
    }

    fn next_of_command(&mut self) -> (r: Progress<String>)
        requires
            old(self).work() is Command,
        ensures
            final(self).valid(),
            final(self).command() == old(self).command(),
            r matches Progress::Perform(request) ==> request.deep_view().performable(),
            command_goes(*old(self), r, *final(self)),
            r is Perform || r is Working ==> final(self).answers() == old(self).answers(),
            old(self).faithful() ==> run_comes_to(old(self).command(), old(self).answers(), r),
            old(self).faithful() && (r is Perform || r is Working) ==> final(self).faithful(),
    {
        let mut io = Session::new(self.log.as_slice());
        let outcome = execute(&mut io, &self.cli);
        proof {
            lemma_standing(self.log(), self.command());
            assert(self.answers() =~= self.settled@);
            assert(self.settled@.take(self.settled@.len() as int) =~= self.settled@);
            if let Err(Stop::Ask(request)) = &outcome {
                if self.faithful() && request.deep_view().performable() {
                    assert(asks(
                        self.command(),
                        self.answers(),
                        self.log(),
                        self.settled@.len() as int,
                        request.deep_view(),
                    ));
                }
            }
        }
        match outcome {
            Ok(answer) => Progress::Finished(Ok(answer)),
            Err(Stop::Stray) => Progress::Stray,
            Err(Stop::Fail(error)) => Progress::Finished(Err(error)),
            Err(Stop::Ask(Request::Plan(survey))) => {
                self.work = Work::Planning(Planner::new(survey));
                assert(self.answers() =~= old(self).answers());
                Progress::Working
            },
            Err(Stop::Ask(Request::Populate { source, destination, entries })) => {
                self.work = Work::Populating(Populator::new(source, destination, entries));
                assert(self.answers() =~= old(self).answers());
                Progress::Working
            },
            Err(Stop::Ask(request)) => Progress::Perform(request),
        }
    }

    fn next_of_plan(&mut self, planner: Planner) -> (r: Progress<String>)
        requires
            old(self).work() is Command,
            planner.valid(),
        ensures
            final(self).valid(),
            final(self).command() == old(self).command(),
            r matches Progress::Perform(request) ==> request.deep_view().performable(),
            plan_goes(*old(self), planner, r, *final(self)),
            r is Perform || r is Working ==> final(self).answers() == old(self).answers()
                + planner.answers(),
            old(self).faithful() && Work::Planning(planner).serves(
                standing(old(self).log(), old(self).command()),
            ) ==> {
                &&& run_comes_to(old(self).command(), old(self).answers() + planner.answers(), r)
                &&& r is Perform || r is Working ==> final(self).faithful()
            },
    {
        let mut planner = planner;
        let ghost before = planner;
        let ghost answers = self.answers();
        let ghost since = planner.answers();
        proof {
            lemma_stage_is_performable(planner.log(), planner.survey(), planner.state());
            let n = answers.len() as int;
            assert(answers =~= self.settled@);
            assert((answers + since).take(n) =~= answers);
            assert((answers + since).skip(n) =~= since);
        }
        match planner.advance() {
            Progress::Perform(request) => {
                self.work = Work::Planning(planner);
                assert(old(self).faithful() && Work::Planning(before).serves(
                    standing(old(self).log(), old(self).command()),
                ) ==> asks(
                    self.command(),
                    answers + since,
                    self.log(),
                    answers.len() as int,
                    request.deep_view(),
                ));
                Progress::Perform(request)
            },
            Progress::Working => {
                self.work = Work::Planning(planner);
                Progress::Working
            },
            Progress::Finished(outcome) => {
                self.log.push(Reply::Planned(outcome));
                self.settled = Ghost(answers + since);
                assert(self.log() =~= old(self).log().push(self.log().last()));
                assert(self.answers() =~= answers + since);
                proof {
                    if old(self).faithful() && Work::Planning(before).serves(
                        standing(old(self).log(), old(self).command()),
                    ) {
                        lemma_explained(
                            self.command(),
                            answers,
                            old(self).log(),
                            since,
                            self.log().last(),
                        );
                    }
                }
                Progress::Working
            },
            Progress::Stray => Progress::Stray,
        }
    }

    fn next_of_population(&mut self, populator: Populator) -> (r: Progress<String>)
        requires
            old(self).work() is Command,
            populator.valid(),
        ensures
            final(self).valid(),
            final(self).command() == old(self).command(),
            r matches Progress::Perform(request) ==> request.deep_view().performable(),
            population_goes(*old(self), populator, r, *final(self)),
            r is Perform || r is Working ==> final(self).answers() == old(self).answers()
                + populator.answers(),
            old(self).faithful() && Work::Populating(populator).serves(
                standing(old(self).log(), old(self).command()),
            ) ==> {
                &&& run_comes_to(old(self).command(), old(self).answers() + populator.answers(), r)
                &&& r is Perform || r is Working ==> final(self).faithful()
            },
    {
        let mut populator = populator;
        let ghost before = populator;
        let ghost answers = self.answers();
        let ghost since = populator.answers();
        proof {
            lemma_task_is_performable(populator.log(), populator.job(), populator.state());
            let n = answers.len() as int;
            assert(answers =~= self.settled@);
            assert((answers + since).take(n) =~= answers);
            assert((answers + since).skip(n) =~= since);
        }
        match populator.advance() {
            Progress::Perform(request) => {
                self.work = Work::Populating(populator);
                assert(old(self).faithful() && Work::Populating(before).serves(
                    standing(old(self).log(), old(self).command()),
                ) ==> asks(
                    self.command(),
                    answers + since,
                    self.log(),
                    answers.len() as int,
                    request.deep_view(),
                ));
                Progress::Perform(request)
            },
            Progress::Working => {
                self.work = Work::Populating(populator);
                Progress::Working
            },
            Progress::Finished(outcome) => {
                self.log.push(Reply::Populated(outcome));
                self.settled = Ghost(answers + since);
                assert(self.log() =~= old(self).log().push(self.log().last()));
                assert(self.answers() =~= answers + since);
                proof {
                    if old(self).faithful() && Work::Populating(before).serves(
                        standing(old(self).log(), old(self).command()),
                    ) {
                        lemma_explained(
                            self.command(),
                            answers,
                            old(self).log(),
                            since,
                            self.log().last(),
                        );
                    }
                }
                Progress::Working
            },
            Progress::Stray => Progress::Stray,
        }
    }
}

/// Whether answers lead to one answer to a command: it is their only one, or it tells
/// what a plan or a population that the command asked for comes to with them.
pub open spec fn leads_to(step: Step<Seq<char>>, answers: Log, reply: Reply) -> bool {
    ||| answers == seq![reply]
    ||| match step {
        Step::Ask(RequestView::Plan(survey)) => tells_plan(
            reply,
            survey_protocol(answers, survey, PlanState::start()),
        ),
        Step::Ask(RequestView::Populate { source, destination, entries }) => tells_population(
            reply,
            work_protocol(answers, JobView { source, destination, entries }, WorkState::start()),
        ),
        _ => false,
    }
}

/// Where a command stands that was answered this.
#[verifier::opaque]
pub open spec fn standing(log: Log, command: CommandsView) -> Step<Seq<char>> {
    execute_protocol(log, command)
}

/// Whether parts of what was answered lead to what a command was answered, each to one
/// answer.
pub open spec fn explains(command: CommandsView, parts: Seq<Log>, log: Log) -> bool {
    &&& parts.len() == log.len()
    &&& forall|k: int|
        0 <= k < log.len() ==> leads_to(
            standing(log.take(k), command),
            #[trigger] parts[k],
            log[k],
        )
}

/// Whether answers, one after the other, lead to what a command was answered.
pub open spec fn explained(command: CommandsView, answers: Log, log: Log) -> bool {
    exists|parts: Seq<Log>| #[trigger] explains(command, parts, log) && answers == parts.flatten()
}

/// Where a command stands with these answers: the first `n` of them led to `log`, and
/// the others are those to what it asks for now.
pub open spec fn asks(
    command: CommandsView,
    answers: Log,
    log: Log,
    n: int,
    request: RequestView,
) -> bool {
    &&& 0 <= n <= answers.len()
    &&& explained(command, answers.take(n), log)
    &&& match standing(log, command) {
        Step::Ask(RequestView::Plan(survey)) => survey_protocol(
            answers.skip(n),
            survey,
            PlanState::start(),
        ) == Step::<Seq<EntryView>>::Ask(request),
        Step::Ask(RequestView::Populate { source, destination, entries }) => work_protocol(
            answers.skip(n),
            JobView { source, destination, entries },
            WorkState::start(),
        ) == Step::<(int, int, int)>::Ask(request),
        Step::Ask(asked) => n == answers.len() && asked == request,
        _ => false,
    }
}

/// What a command comes to with these answers: what it, a plan or a population asks
/// for, the failure that ended it, or what is to be printed.
pub open spec fn run_comes_to(command: CommandsView, answers: Log, r: Progress<String>) -> bool {
    match r {
        Progress::Perform(request) => exists|log: Log, n: int| #[trigger]
            asks(command, answers, log, n, request.deep_view()),
        Progress::Finished(Ok(text)) => exists|log: Log| #[trigger]
            explained(command, answers, log) && (standing(log, command) matches Step::Done(
                answer,
                _,
            ) && text@ == answer),
        Progress::Finished(Err(error)) => exists|log: Log| #[trigger]
            explained(command, answers, log) && (standing(log, command) matches Step::Fail(
                failed,
                _,
            ) && failed == error.deep_view()),
        _ => true,
    }
}

proof fn lemma_standing(log: Log, command: CommandsView)
    ensures
        standing(log, command) == execute_protocol(log, command),
{
    reveal(standing);
}

proof fn lemma_explained(
    command: CommandsView,
    answers: Log,
    log: Log,
    more: Log,
    reply: Reply,
)
    requires
        explained(command, answers, log),
        leads_to(standing(log, command), more, reply),
    ensures
        explained(command, answers + more, log.push(reply)),
{
    let parts = choose|parts: Seq<Log>| #[trigger]
        explains(command, parts, log) && answers == parts.flatten();
    let longer = log.push(reply);
    let all = parts.push(more);
    assert forall|k: int| 0 <= k < longer.len() implies leads_to(
        standing(longer.take(k), command),
        #[trigger] all[k],
        longer[k],
    ) by {
        assert(longer.take(k) =~= log.take(k));
        if k < log.len() {
            assert(all[k] == parts[k]);
        } else {
            assert(log.take(k) =~= log);
        }
    }
    parts.lemma_flatten_push(more);
    assert(explains(command, all, longer));
}

proof fn lemma_nothing_explained(command: CommandsView)
    ensures
        explained(command, Log::empty(), Log::empty()),
{
    let none = Seq::<Log>::empty();
    assert(explains(command, none, Log::empty()));
    assert(none.flatten() =~= Log::empty());
}

/// How a command goes on when it is busy with itself.
pub open spec fn command_goes(old_run: Runner, r: Progress<String>, new_run: Runner) -> bool {
    match old_run.step() {
        Step::Ask(RequestView::Plan(survey)) => {
            &&& r is Working
            &&& new_run.log() == old_run.log()
            &&& new_run.work() matches Work::Planning(planner) && planner.survey() == survey
                && planner.state() == PlanState::start() && planner.log() == Log::empty()
        },
        Step::Ask(RequestView::Populate { source, destination, entries }) => {
            &&& r is Working
            &&& new_run.log() == old_run.log()
            &&& new_run.work() matches Work::Populating(populator) && populator.job() == (JobView {
                source,
                destination,
                entries,
            }) && populator.state() == WorkState::start() && populator.log() == Log::empty()
        },
        Step::Ask(request) => {
            &&& r matches Progress::Perform(asked) && asked.deep_view() == request
            &&& new_run.log() == old_run.log()
            &&& new_run.work() is Command
        },
        Step::Stray => r is Stray,
        Step::Fail(error, _) => r matches Progress::Finished(Err(failed)) && failed.deep_view()
            == error,
        Step::Done(answer, _) => r matches Progress::Finished(Ok(text)) && text@ == answer,
    }
}

/// Whether an answer tells what a plan came to.
pub open spec fn tells_plan(reply: Reply, outcome: Step<Seq<EntryView>>) -> bool {
    match reply {
        Reply::Planned(Ok(entries)) => outcome matches Step::Done(met, _) && sorts(
            met,
            entries.deep_view(),
        ),
        Reply::Planned(Err(error)) => outcome matches Step::Fail(failed, _) && failed
            == error.deep_view(),
        _ => false,
    }
}

/// Whether the command got one more answer, and is busy with itself again.
pub open spec fn resumes(old_run: Runner, r: Progress<String>, new_run: Runner) -> bool {
    &&& r is Working
    &&& new_run.work() is Command
    &&& new_run.log() == old_run.log().push(new_run.log().last())
}

/// How a command goes on while a plan is made for it.
pub open spec fn plan_goes(
    old_run: Runner,
    before: Planner,
    r: Progress<String>,
    new_run: Runner,
) -> bool {
    if before.is_over() {
        &&& resumes(old_run, r, new_run)
        &&& tells_plan(new_run.log().last(), before.outcome(Log::empty()))
    } else {
        match stage_protocol(before.log(), before.survey(), before.state()) {
            Step::Ask(request) => {
                &&& r matches Progress::Perform(asked) && asked.deep_view() == request
                &&& new_run.log() == old_run.log()
                &&& new_run.work() matches Work::Planning(after) && after.survey()
                    == before.survey() && after.state() == before.state() && after.log()
                    == before.log()
            },
            Step::Stray => r is Stray,
            Step::Fail(_, _) => {
                &&& resumes(old_run, r, new_run)
                &&& tells_plan(new_run.log().last(), before.outcome(Log::empty()))
            },
            Step::Done(next, rest) => if rest.len() > 0 {
                r is Stray
            } else {
                &&& r is Working
                &&& new_run.log() == old_run.log()
                &&& new_run.work() matches Work::Planning(after) && after.survey()
                    == before.survey() && after.state() == next && after.log() == Log::empty() && (
                forall|more: Log| #[trigger] after.outcome(more) == before.outcome(more))
            },
        }
    }
}

/// Whether an answer tells what carrying over came to.
pub open spec fn tells_population(reply: Reply, outcome: Step<(int, int, int)>) -> bool {
    match reply {
        Reply::Populated(Ok(stats)) => outcome matches Step::Done(done, _) && done == (
            stats.files as int,
            stats.logical_bytes as int,
            stats.symlinks as int,
        ),
        Reply::Populated(Err(error)) => outcome matches Step::Fail(failed, _) && failed
            == error.deep_view(),
        _ => false,
    }
}

/// How a command goes on while something is carried over for it.
pub open spec fn population_goes(
    old_run: Runner,
    before: Populator,
    r: Progress<String>,
    new_run: Runner,
) -> bool {
    if complete(before.job(), before.state()) {
        &&& resumes(old_run, r, new_run)
        &&& tells_population(new_run.log().last(), before.outcome(Log::empty()))
    } else {
        match task_protocol(before.log(), before.job(), before.state()) {
            Step::Ask(request) => {
                &&& r matches Progress::Perform(asked) && asked.deep_view() == request
                &&& new_run.log() == old_run.log()
                &&& new_run.work() matches Work::Populating(after) && after.job() == before.job()
                    && after.state() == before.state() && after.log() == before.log()
            },
            Step::Stray => r is Stray,
            Step::Fail(_, _) => {
                &&& resumes(old_run, r, new_run)
                &&& tells_population(new_run.log().last(), before.outcome(Log::empty()))
            },
            Step::Done(next, rest) => if rest.len() > 0 {
                r is Stray
            } else {
                &&& r is Working
                &&& new_run.log() == old_run.log()
                &&& new_run.work() matches Work::Populating(after) && after.job() == before.job()
                    && after.state() == next && after.log() == Log::empty() && (forall|more: Log|
                 #[trigger] after.outcome(more) == before.outcome(more))
            },
        }
    }
}

} // verus!
