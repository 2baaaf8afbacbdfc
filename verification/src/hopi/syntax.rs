//! The terms of the higher-order pi calculus: what is sent is a process.

use vstd::prelude::*;

verus! {

/// A term of the higher-order pi calculus.
#[derive(Debug, PartialEq, Eq)]
pub enum Process {
    /// The inert process.
    End,
    /// A process variable.
    PVar(String),
    /// Restriction of a channel name.
    New(String, Box<Process>),
    /// Parallel composition.
    Par(Box<Process>, Box<Process>),
    /// A send on a channel of a process.
    Send(String, Box<Process>),
    /// A receive on a channel that binds a process variable in what follows.
    Receive(String, String, Box<Process>),
}

/// The view of a `Process`.
pub enum ProcessView {
    End,
    PVar(Seq<char>),
    New(Seq<char>, Box<ProcessView>),
    Par(Box<ProcessView>, Box<ProcessView>),
    Send(Seq<char>, Box<ProcessView>),
    Receive(Seq<char>, Seq<char>, Box<ProcessView>),
}

impl Process {
    /// The mathematical term that this process stands for.
    pub open spec fn model(&self) -> ProcessView
        decreases self,
    {
        match self {
            Process::End => ProcessView::End,
            Process::PVar(v) => ProcessView::PVar(v@),
            Process::New(c, p) => ProcessView::New(c@, Box::new(p.model())),
            Process::Par(a, b) => ProcessView::Par(Box::new(a.model()), Box::new(b.model())),
            Process::Send(c, p) => ProcessView::Send(c@, Box::new(p.model())),
            Process::Receive(c, v, p) => ProcessView::Receive(c@, v@, Box::new(p.model())),
        }
    }
}

impl View for Process {
    type V = ProcessView;

    open spec fn view(&self) -> ProcessView {
        self.model()
    }
}

impl Clone for Process {
    fn clone(&self) -> (r: Self)
        ensures
            r@ == self@,
        decreases self,
    {
        match self {
            Process::End => Process::End,
            Process::PVar(v) => Process::PVar(v.clone()),
            Process::New(c, p) => Process::New(c.clone(), Box::new((**p).clone())),
            Process::Par(a, b) => Process::Par(Box::new((**a).clone()), Box::new((**b).clone())),
            Process::Send(c, p) => Process::Send(c.clone(), Box::new((**p).clone())),
            Process::Receive(c, v, p) => Process::Receive(
                c.clone(),
                v.clone(),
                Box::new((**p).clone()),
            ),
        }
    }
}

} // verus!
