//! What can go wrong while a run is configured or carried out.

use vstd::prelude::*;

verus! {

/// An argument that cannot be used, with the reason.
#[derive(Debug, PartialEq, Eq)]
pub struct ArgumentError {
    pub name: String,
    pub description: String,
}

/// An argument error as text.
pub struct ArgumentErrorView {
    pub name: Seq<char>,
    pub description: Seq<char>,
}

impl View for ArgumentError {
    type V = ArgumentErrorView;

    open spec fn view(&self) -> ArgumentErrorView {
        ArgumentErrorView { name: self.name@, description: self.description@ }
    }
}

impl ArgumentError {
    /// The error for the argument `name`, with the reason.
    pub fn new(name: &str, description: &str) -> (r: ArgumentError)
        ensures
            r@ == (ArgumentErrorView { name: name@, description: description@ }),
    {
        ArgumentError { name: String::from_str(name), description: String::from_str(description) }
    }

    /// The text shown for this error: the name, a space, the description.
    pub open spec fn text(&self) -> Seq<char> {
        self.name@ + seq![' '] + self.description@
    }

    /// The text shown for this error.
    pub fn to_text(&self) -> (r: String)
        ensures
            r@ == self.text(),
    {
        proof {
            reveal_strlit(" ");
        }
        let mut out = self.name.clone();
        out.append(" ");
        out.append(self.description.as_str());
        assert(" "@ =~= seq![' ']);
        out
    }
}

/// Why a run failed.
#[derive(Debug, PartialEq, Eq)]
pub enum Errors {
    /// A read, write or open failed; the message is that of
    /// `Errors::io_message`.
    Io(String),
    /// An argument cannot be used.
    Arg(ArgumentError),
}

/// An error as text.
pub enum ErrorsView {
    Io(Seq<char>),
    Arg(ArgumentErrorView),
}

impl View for Errors {
    type V = ErrorsView;

    open spec fn view(&self) -> ErrorsView {
        match self {
            Errors::Io(message) => ErrorsView::Io(message@),
            Errors::Arg(error) => ErrorsView::Arg(error@),
        }
    }
}

impl Errors {
    /// The message of an I/O failure: what was being done, a colon and a
    /// space, then the failure as its reporter described it.
    pub open spec fn io_message(detail: Seq<char>, prefix: Seq<char>) -> Seq<char> {
        prefix + seq![':', ' '] + detail
    }

    /// The error for an I/O failure that `detail` describes and that
    /// happened while doing what `prefix` says.
    pub fn from_io(detail: &str, prefix: &str) -> (r: Errors)
        ensures
            r@ == ErrorsView::Io(Self::io_message(detail@, prefix@)),
    {
        proof {
            reveal_strlit(": ");
        }
        let mut message = String::from_str(prefix);
        message.append(": ");
        message.append(detail);
        assert(": "@ =~= seq![':', ' ']);
        Errors::Io(message)
    }
}

} // verus!
