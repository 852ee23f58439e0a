//! Failures: what went wrong, with the contexts it was met in.

use vstd::prelude::*;

use crate::session::{ErrorKind, IoError};
use crate::text::{cat3, copied};

verus! {

/// A request that the command line should not have made.
#[derive(Debug)]
pub struct UsageError(pub String);

/// A failure. The chain runs from the outermost context to the first cause.
#[derive(Debug)]
pub struct Error {
    pub usage: bool,
    pub chain: Vec<String>,
}

/// What an [`Error`] says.
#[verifier::ext_equal]
pub struct ErrorView {
    pub usage: bool,
    pub chain: Seq<Seq<char>>,
}

impl DeepView for Error {
    type V = ErrorView;

    open spec fn deep_view(&self) -> ErrorView {
        ErrorView { usage: self.usage, chain: self.chain.deep_view() }
    }
}

impl ErrorView {
    /// The same failure, met while doing `context`.
    pub open spec fn wrap(self, context: Seq<char>) -> ErrorView {
        ErrorView { usage: self.usage, chain: seq![context] + self.chain }
    }

    /// The outermost message.
    pub open spec fn headline(self) -> Seq<char> {
        if self.chain.len() == 0 {
            Seq::empty()
        } else {
            self.chain[0]
        }
    }

    /// All messages, the outermost first, with a colon between neighbours.
    pub open spec fn message(self) -> Seq<char> {
        chain_text(self.chain)
    }
}

/// Messages with a colon and a space between neighbours.
pub open spec fn chain_text(chain: Seq<Seq<char>>) -> Seq<char>
    decreases chain.len(),
{
    if chain.len() == 0 {
        Seq::empty()
    } else if chain.len() == 1 {
        chain[0]
    } else {
        chain_text(chain.drop_last()) + ": "@ + chain.last()
    }
}

/// A failure with one message.
pub open spec fn plain(text: Seq<char>) -> ErrorView {
    ErrorView { usage: false, chain: seq![text] }
}

/// A failure of usage with one message.
pub open spec fn misuse(text: Seq<char>) -> ErrorView {
    ErrorView { usage: true, chain: seq![text] }
}

/// The failure that an operation of the system reported.
pub open spec fn system(error: IoError) -> ErrorView {
    plain(error.text@)
}

/// The exit status that a failure ends the program with.
pub open spec fn status_of(error: ErrorView) -> int {
    if error.usage {
        2
    } else {
        1
    }
}

/// A failure with one message.
pub fn failure(text: &str) -> (r: Error)
    ensures
        r.deep_view() == plain(text@),
{
    let chain = vec![text.to_owned()];
    assert(chain.deep_view() =~= seq![text@]);
    Error { usage: false, chain }
}

/// A failure of usage with one message.
pub fn usage(message: &str) -> (r: Error)
    ensures
        r.deep_view() == misuse(message@),
{
    UsageError(message.to_owned()).into_error()
}

impl UsageError {
    /// The failure that reports the misuse.
    pub fn into_error(self) -> (r: Error)
        ensures
            r.deep_view() == misuse(self.0@),
    {
        let chain = vec![self.0];
        assert(chain.deep_view() =~= seq![self.0@]);
        Error { usage: true, chain }
    }
}

/// The failure that an operation of the system reported.
pub fn system_failure(error: &IoError) -> (r: Error)
    ensures
        r.deep_view() == system(*error),
{
    failure(error.text.as_str())
}

/// The failure that ends the program when its answer could not be printed. That
/// nobody reads the answer any more is none.
pub fn printing_failure(error: &IoError) -> (r: Option<Error>)
    ensures
        r is None <==> error.kind is BrokenPipe,
        r matches Some(failure) ==> failure.deep_view() == system(*error).wrap("writing stdout"@),
{
    match error.kind {
        ErrorKind::BrokenPipe => None,
        _ => Some(system_failure(error).context("writing stdout")),
    }
}

impl Error {
    /// The same failure, met while doing `context`.
    pub fn context(self, context: &str) -> (r: Error)
        ensures
            r.deep_view() == self.deep_view().wrap(context@),
    {
        let ghost before = self.chain.deep_view();
        let mut chain = vec![context.to_owned()];
        let mut rest = self.chain;
        chain.append(&mut rest);
        assert(chain.deep_view() =~= seq![context@] + before);
        Error { usage: self.usage, chain }
    }

    /// The outermost message.
    pub fn headline(&self) -> (r: String)
        ensures
            r@ == self.deep_view().headline(),
    {
        if self.chain.len() == 0 {
            String::new()
        } else {
            self.chain[0].clone()
        }
    }

    /// All messages, the outermost first, with a colon between neighbours.
    pub fn message(&self) -> (r: String)
        ensures
            r@ == self.deep_view().message(),
    {
        let ghost all = self.chain.deep_view();
        if self.chain.len() == 0 {
            return String::new();
        }
        let mut r = self.chain[0].clone();
        let mut k: usize = 1;
        assert(all.take(1).len() == 1 && all.take(1)[0] == all[0]);
        while k < self.chain.len()
            invariant
                1 <= k <= self.chain@.len(),
                all == self.chain.deep_view(),
                r@ == chain_text(all.take(k as int)),
            decreases self.chain@.len() - k,
        {
            r = cat3(r.as_str(), ": ", self.chain[k].as_str());
            assert(all.take(k + 1).drop_last() =~= all.take(k as int));
            k = k + 1;
        }
        assert(all.take(k as int) =~= all);
        r
    }

    /// The line that tells of the failure.
    pub fn complaint(&self) -> (r: String)
        ensures
            r@ == "git-wt: "@ + self.deep_view().message() + "\n"@,
    {
        let message = self.message();
        cat3("git-wt: ", message.as_str(), "\n")
    }

    /// The exit status that the failure ends the program with.
    pub fn exit_status(&self) -> (r: i32)
        ensures
            r == status_of(self.deep_view()),
    {
        if self.usage {
            2
        } else {
            1
        }
    }

    /// A copy of the failure.
    pub fn duplicate(&self) -> (r: Error)
        ensures
            r.deep_view() == self.deep_view(),
    {
        Error { usage: self.usage, chain: copied(&self.chain) }
    }
}

} // verus!
