//! What a procedure asked for on its way, and what was answered.

use vstd::prelude::*;

use crate::session::{extends, Log, Reply, RequestView, Step};

verus! {

/// Whether the answer at `j` was given to a request of a procedure.
pub open spec fn asked<T>(
    procedure: spec_fn(Log) -> Step<T>,
    log: Log,
    j: int,
    request: RequestView,
) -> bool {
    0 <= j < log.len() && procedure(log.take(j)) == Step::<T>::Ask(request)
}

/// Whether an answer says that something was done.
pub open spec fn succeeded(reply: Reply) -> bool {
    reply matches Reply::Unit(Ok(_))
}

/// Whether a step leaves no more answers than there were.
pub open spec fn lean<T>(step: Step<T>, log: Log) -> bool {
    match step {
        Step::Done(_, rest) => rest.len() <= log.len(),
        Step::Fail(_, rest) => rest.len() <= log.len(),
        _ => true,
    }
}

/// Whether a step that asks for something uses what is answered next.
pub open spec fn hungry<T>(a: Step<T>, b: Step<T>, more: Log) -> bool {
    a is Ask ==> match b {
        Step::Done(_, rest) => rest.len() < more.len(),
        Step::Fail(_, rest) => rest.len() < more.len(),
        _ => true,
    }
}

/// How a procedure stands with more answers: where it was done it stays so, and where it
/// asked for something it uses what is answered.
pub open spec fn goes_on<T>(procedure: spec_fn(Log) -> Step<T>, log: Log, more: Log) -> bool {
    &&& extends(procedure(log), procedure(log + more), more)
    &&& hungry(procedure(log), procedure(log + more), more)
}

/// Whether a procedure uses answers one by one, as it asks for them.
pub open spec fn thrifty<T>(procedure: spec_fn(Log) -> Step<T>) -> bool {
    &&& forall|log: Log, more: Log| #[trigger] goes_on(procedure, log, more)
    &&& forall|log: Log| lean(#[trigger] procedure(log), log)
}

/// How many answers a procedure that has come to a result has used.
pub open spec fn used<T>(step: Step<T>, log: Log) -> int {
    match step {
        Step::Done(_, rest) => log.len() - rest.len(),
        _ => log.len() as int,
    }
}

/// A procedure that has come to a result asked for each answer that it used, and looked
/// at no other.
pub proof fn lemma_result<T>(procedure: spec_fn(Log) -> Step<T>, log: Log)
    requires
        thrifty(procedure),
        procedure(log) is Done,
    ensures
        ({
            let n = used(procedure(log), log);
            &&& 0 <= n <= log.len()
            &&& procedure(log)->Done_1 == log.skip(n)
            &&& forall|m: int| 0 <= m < n ==> procedure(#[trigger] log.take(m)) is Ask
            &&& forall|m: int|
                n <= m <= log.len() ==> procedure(#[trigger] log.take(m)) == Step::Done(
                    procedure(log)->Done_0,
                    log.skip(n).take(m - n),
                )
        }),
{
    let n = used(procedure(log), log);
    let value = procedure(log)->Done_0;
    let rest = procedure(log)->Done_1;
    assert(lean(procedure(log), log));
    let front = log.take(n);
    let more = log.skip(n);
    assert(front + more =~= log);
    assert(goes_on(procedure, front, more));
    assert(procedure(front) is Done);
    let left = procedure(front)->Done_1;
    assert(left + more == rest);
    assert(left.len() == 0);
    assert(rest =~= more);
    assert forall|m: int| 0 <= m < n implies procedure(#[trigger] log.take(m)) is Ask by {
        let a = log.take(m);
        let b = log.skip(m);
        assert(a + b =~= log);
        assert(goes_on(procedure, a, b));
        if procedure(a) is Done {
            assert((procedure(a)->Done_1 + b).len() >= b.len());
        }
    }
    assert forall|m: int| n <= m <= log.len() implies procedure(#[trigger] log.take(m))
        == Step::Done(value, log.skip(n).take(m - n)) by {
        let b = more.take(m - n);
        assert(front + b =~= log.take(m));
        assert(goes_on(procedure, front, b));
        assert(left + b =~= b);
    }
}

/// What a procedure asked for before it went on.
pub proof fn lemma_asked_first<T, U>(
    first: spec_fn(Log) -> Step<T>,
    next: spec_fn(T, Log) -> Step<U>,
    whole: spec_fn(Log) -> Step<U>,
    log: Log,
    j: int,
    request: RequestView,
)
    requires
        forall|l: Log| #[trigger] whole(l) == first(l).bind(next),
        asked(first, log, j, request),
    ensures
        asked(whole, log, j, request),
{
}

/// What a procedure asked for after it went on.
pub proof fn lemma_asked_next<T, U>(
    first: spec_fn(Log) -> Step<T>,
    next: spec_fn(T, Log) -> Step<U>,
    whole: spec_fn(Log) -> Step<U>,
    log: Log,
    j: int,
    request: RequestView,
)
    requires
        thrifty(first),
        forall|l: Log| #[trigger] whole(l) == first(l).bind(next),
        first(log) is Done,
        asked(|l: Log| next(first(log)->Done_0, l), first(log)->Done_1, j, request),
    ensures
        asked(whole, log, used(first(log), log) + j, request),
        log[used(first(log), log) + j] == first(log)->Done_1[j],
{
    lemma_result(first, log);
    let n = used(first(log), log);
    assert(log.skip(n).take(n + j - n) =~= log.skip(n).take(j));
    assert(first(log.take(n + j)) is Done);
    assert(whole(log.take(n + j)) == first(log.take(n + j)).bind(next));
}

/// Each request of a procedure was made before it went on, or after that.
pub proof fn lemma_asked_either<T, U>(
    first: spec_fn(Log) -> Step<T>,
    next: spec_fn(T, Log) -> Step<U>,
    whole: spec_fn(Log) -> Step<U>,
    log: Log,
    j: int,
    request: RequestView,
)
    requires
        thrifty(first),
        forall|l: Log| #[trigger] whole(l) == first(l).bind(next),
        first(log) is Done,
        asked(whole, log, j, request),
    ensures
        j < used(first(log), log) ==> asked(first, log, j, request),
        j >= used(first(log), log) ==> asked(
            |l: Log| next(first(log)->Done_0, l),
            first(log)->Done_1,
            j - used(first(log), log),
            request,
        ) && log[j] == first(log)->Done_1[j - used(first(log), log)],
{
    lemma_result(first, log);
    let n = used(first(log), log);
    assert(whole(log.take(j)) == first(log.take(j)).bind(next));
    if j >= n {
        assert(first(log.take(j)) is Done);
    } else {
        assert(first(log.take(j)) is Ask);
    }
}

} // verus!
