//! The terms of the plain pi calculus.

use vstd::prelude::*;

verus! {

/// A term of the pi calculus.
#[derive(Debug, PartialEq, Eq)]
pub enum Process {
    /// The inert process.
    End,
    /// Parallel composition.
    Par(Box<Process>, Box<Process>),
    /// Restriction of a name.
    New(String, Box<Process>),
    /// Choice.
    Sum(Box<Process>, Box<Process>),
    /// An action and what follows it.
    Prefix(AtomicAction, Box<Process>),
}

/// An action: a send or a receive of a name on a channel.
#[derive(Debug, PartialEq, Eq)]
pub enum AtomicAction {
    Send(String, String),
    Receive(String, String),
}

/// The view of an `AtomicAction`.
pub enum AtomicActionView {
    Send(Seq<char>, Seq<char>),
    Receive(Seq<char>, Seq<char>),
}

/// The view of a `Process`.
pub enum ProcessView {
    End,
    Par(Box<ProcessView>, Box<ProcessView>),
    New(Seq<char>, Box<ProcessView>),
    Sum(Box<ProcessView>, Box<ProcessView>),
    Prefix(AtomicActionView, Box<ProcessView>),
}

impl View for AtomicAction {
    type V = AtomicActionView;

    open spec fn view(&self) -> AtomicActionView {
        match self {
            AtomicAction::Send(ch, val) => AtomicActionView::Send(ch@, val@),
            AtomicAction::Receive(ch, val) => AtomicActionView::Receive(ch@, val@),
        }
    }
}

impl Process {
    /// The mathematical term that this process stands for.
    pub open spec fn model(&self) -> ProcessView
        decreases self,
    {
        match self {
            Process::End => ProcessView::End,
            Process::Par(a, b) => ProcessView::Par(Box::new(a.model()), Box::new(b.model())),
            Process::New(name, p) => ProcessView::New(name@, Box::new(p.model())),
            Process::Sum(a, b) => ProcessView::Sum(Box::new(a.model()), Box::new(b.model())),
            Process::Prefix(act, p) => ProcessView::Prefix(act@, Box::new(p.model())),
        }
    }
}

impl View for Process {
    type V = ProcessView;

    open spec fn view(&self) -> ProcessView {
        self.model()
    }
}

impl Clone for AtomicAction {
    fn clone(&self) -> (r: Self)
        ensures
            r@ == self@,
    {
        match self {
            AtomicAction::Send(ch, val) => AtomicAction::Send(ch.clone(), val.clone()),
            AtomicAction::Receive(ch, val) => AtomicAction::Receive(ch.clone(), val.clone()),
        }
    }
}

impl Clone for Process {
    fn clone(&self) -> (r: Self)
        ensures
            r@ == self@,
        decreases self,
    {
        match self {
            Process::End => Process::End,
            Process::Par(a, b) => Process::Par(Box::new((**a).clone()), Box::new((**b).clone())),
            Process::New(name, p) => Process::New(name.clone(), Box::new((**p).clone())),
            Process::Sum(a, b) => Process::Sum(Box::new((**a).clone()), Box::new((**b).clone())),
            Process::Prefix(act, p) => Process::Prefix(act.clone(), Box::new((**p).clone())),
        }
    }
}

} // verus!
