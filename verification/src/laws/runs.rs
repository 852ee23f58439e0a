//! What a command that was run to its end comes to.

use vstd::prelude::*;

use crate::clone::{Entry, EntryView, Stats};
use crate::commands::{execute_protocol, CommandsView};
use crate::errors::Error;
use crate::order::sorts;
use crate::planner::{survey_protocol, PlanState};
use crate::populator::{work_protocol, JobView, WorkState};
use crate::runner::{asks, explained, explains, leads_to, run_comes_to, standing};
use crate::session::{Log, Progress, Reply, RequestView, Step};

verus! {

/// Whether an answer is a plan or what a population came to.
pub open spec fn composed(reply: Reply) -> bool {
    reply is Planned || reply is Populated
}

/// Whether a plan is what was met, in order, or the failure that ended it.
pub open spec fn is_the_plan(outcome: Result<Vec<Entry>, Error>, step: Step<Seq<EntryView>>) -> bool {
    match outcome {
        Ok(entries) => step matches Step::Done(met, _) && sorts(met, entries.deep_view()),
        Err(error) => step matches Step::Fail(failed, _) && failed == error.deep_view(),
    }
}

/// Whether what was counted is what a population came to, or the failure that ended it.
pub open spec fn is_the_count(outcome: Result<Stats, Error>, step: Step<(int, int, int)>) -> bool {
    match outcome {
        Ok(stats) => step matches Step::Done(done, _) && stats.files == done.0
            && stats.logical_bytes == done.1 && stats.symlinks == done.2,
        Err(error) => step matches Step::Fail(failed, _) && failed == error.deep_view(),
    }
}

/// Whether one answer to a command was made from the answers that were given: a plan and
/// what a population came to from all answers to it, and any other answer is itself
/// the one that was given.
pub open spec fn made_from(step: Step<Seq<char>>, answers: Log, reply: Reply) -> bool {
    match reply {
        Reply::Planned(outcome) => step matches Step::Ask(RequestView::Plan(survey))
            && is_the_plan(outcome, survey_protocol(answers, survey, PlanState::start())),
        Reply::Populated(outcome) => step matches Step::Ask(
            RequestView::Populate { source, destination, entries },
        ) && is_the_count(
            outcome,
            work_protocol(answers, JobView { source, destination, entries }, WorkState::start()),
        ),
        _ => answers == seq![reply],
    }
}

/// Whether a command was answered `log`, each answer made from its part of the answers
/// that were given.
pub open spec fn run_through(
    command: CommandsView,
    answers: Log,
    parts: Seq<Log>,
    log: Log,
) -> bool {
    &&& answers == parts.flatten()
    &&& parts.len() == log.len()
    &&& forall|k: int|
        0 <= k < log.len() ==> made_from(
            execute_protocol(log.take(k), command),
            #[trigger] parts[k],
            log[k],
        )
}

proof fn lemma_part_is_given(parts: Seq<Log>, k: int, i: int)
    requires
        0 <= k < parts.len(),
        0 <= i < parts[k].len(),
    ensures
        parts.flatten().contains(parts[k][i]),
    decreases parts.len(),
{
    let first = parts.first();
    let more = parts.drop_first().flatten();
    assert(parts.flatten() == first + more);
    if k == 0 {
        assert((first + more)[i] == parts[k][i]);
    } else {
        lemma_part_is_given(parts.drop_first(), k - 1, i);
        assert(parts.drop_first()[k - 1] == parts[k]);
        let j = choose|j: int| 0 <= j < more.len() && more[j] == parts[k][i];
        assert((first + more)[first.len() + j] == parts[k][i]);
    }
}

proof fn lemma_made(step: Step<Seq<char>>, answers: Log, reply: Reply)
    requires
        leads_to(step, answers, reply),
        composed(reply) ==> answers != seq![reply],
    ensures
        made_from(step, answers, reply),
{
}

proof fn lemma_run_through(command: CommandsView, answers: Log, log: Log) -> (parts: Seq<Log>)
    requires
        explained(command, answers, log),
        forall|i: int| 0 <= i < answers.len() ==> !composed(#[trigger] answers[i]),
    ensures
        run_through(command, answers, parts, log),
{
    let parts = choose|parts: Seq<Log>| #[trigger]
        explains(command, parts, log) && answers == parts.flatten();
    assert forall|k: int| 0 <= k < log.len() implies made_from(
        execute_protocol(log.take(k), command),
        #[trigger] parts[k],
        log[k],
    ) by {
        let step = standing(log.take(k), command);
        assert(leads_to(step, parts[k], log[k]));
        if composed(log[k]) && parts[k] == seq![log[k]] {
            lemma_part_is_given(parts, k, 0);
            assert(answers.contains(log[k]));
        }
        lemma_made(step, parts[k], log[k]);
        assert(step == execute_protocol(log.take(k), command)) by {
            reveal(standing);
        }
    }
    parts
}

/// A command that has come to its end came out where its answers lead: the answers, in
/// the order in which they were given, make up the answers to the command, with every
/// plan made from the answers to it and every population done with those to it, and
/// with these the command comes to what is printed, or to the failure. Nobody but the
/// library makes plans and populations.
pub proof fn law_a_finished_run_follows_from_its_answers(
    command: CommandsView,
    answers: Log,
    r: Progress<String>,
)
    requires
        run_comes_to(command, answers, r),
        forall|i: int| 0 <= i < answers.len() ==> !composed(#[trigger] answers[i]),
    ensures
        r matches Progress::Finished(outcome) ==> exists|parts: Seq<Log>, log: Log| #[trigger]
            run_through(command, answers, parts, log) && match outcome {
                Ok(text) => execute_protocol(log, command) matches Step::Done(answer, _)
                    && answer == text@,
                Err(error) => execute_protocol(log, command) matches Step::Fail(failed, _)
                    && failed == error.deep_view(),
            },
{
    if let Progress::Finished(outcome) = r {
        let log = match outcome {
            Ok(text) => choose|log: Log| #[trigger]
                explained(command, answers, log) && (standing(log, command) matches Step::Done(
                    answer,
                    _,
                ) && text@ == answer),
            Err(error) => choose|log: Log| #[trigger]
                explained(command, answers, log) && (standing(log, command) matches Step::Fail(
                    failed,
                    _,
                ) && failed == error.deep_view()),
        };
        let parts = lemma_run_through(command, answers, log);
        assert(standing(log, command) == execute_protocol(log, command)) by {
            reveal(standing);
        }
        assert(run_through(command, answers, parts, log));
    }
}

/// Whether a request is what a command needs that was answered `log`: what it asks for
/// itself, or what a plan or a population asks for that it needs, with the answers that
/// were given to that.
pub open spec fn needed(
    command: CommandsView,
    log: Log,
    since: Log,
    request: RequestView,
) -> bool {
    match execute_protocol(log, command) {
        Step::Ask(RequestView::Plan(survey)) => survey_protocol(
            since,
            survey,
            PlanState::start(),
        ) == Step::<Seq<EntryView>>::Ask(request),
        Step::Ask(RequestView::Populate { source, destination, entries }) => work_protocol(
            since,
            JobView { source, destination, entries },
            WorkState::start(),
        ) == Step::<(int, int, int)>::Ask(request),
        Step::Ask(asked) => since.len() == 0 && asked == request,
        _ => false,
    }
}

/// What is to be performed is what the command needs next: the answers so far make up the
/// answers to the command and those to what it is busy with, and with these that request
/// comes next.
pub proof fn law_what_is_to_be_performed_is_needed(
    command: CommandsView,
    answers: Log,
    r: Progress<String>,
)
    requires
        run_comes_to(command, answers, r),
        forall|i: int| 0 <= i < answers.len() ==> !composed(#[trigger] answers[i]),
    ensures
        r matches Progress::Perform(request) ==> exists|n: int, parts: Seq<Log>, log: Log|
            0 <= n <= answers.len() && #[trigger] run_through(command, answers.take(n), parts, log)
                && needed(command, log, answers.skip(n), request.deep_view()),
{
    if let Progress::Perform(request) = r {
        let (log, n) = choose|log: Log, n: int| #[trigger]
            asks(command, answers, log, n, request.deep_view());
        let before = answers.take(n);
        assert forall|i: int| 0 <= i < before.len() implies !composed(#[trigger] before[i]) by {
            assert(before[i] == answers[i]);
        }
        let parts = lemma_run_through(command, before, log);
        assert(standing(log, command) == execute_protocol(log, command)) by {
            reveal(standing);
        }
        assert(needed(command, log, answers.skip(n), request.deep_view()));
        assert(run_through(command, answers.take(n), parts, log));
    }
}

} // verus!
