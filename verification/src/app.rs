//! What an application and the loop that hosts it tell each other, and what the
//! host decides on each turn of its loop.
//!
//! The host owns a window and a platform event loop.  On every platform event
//! it asks `Host::step` which call the application gets, makes that call, and
//! hands the application's title and state to `Host::settle`, which says
//! whether the window needs a new title and whether the loop ends.

use vstd::prelude::*;

verus! {

/// Whether an application goes on.  The host asks after every event and every
/// update, and stops iterating once the answer is `Finished`.
#[derive(Copy, Clone, Debug, PartialEq, Eq, Structural)]
pub enum ApplicationState {
    /// The application is running.
    Running,
    /// The application has finished running.
    Finished,
}

/// What the host reports to an application.
#[derive(Copy, Clone, Debug, PartialEq, Eq, Structural)]
pub enum Event {
    /// The application window was asked to close.
    CloseRequested,
}

/// What the platform reports to the host, as far as the host acts on it.
#[derive(Copy, Clone, Debug, PartialEq, Eq, Structural)]
pub enum Signal {
    /// The window was asked to close.
    CloseRequested,
    /// All pending platform events are handled; a frame can run.
    AboutToWait,
    /// Anything else.
    Other,
}

/// The call that the application gets on a platform event.
#[derive(Copy, Clone, Debug, PartialEq, Eq, Structural)]
pub enum Step {
    /// The application handles the event.
    Handle(Event),
    /// The application updates for the current frame.
    Update,
    /// The application is not called.
    Nothing,
}

/// What the host does once the application has been called.
#[derive(Copy, Clone, Debug, PartialEq, Eq, Structural)]
pub struct Outcome {
    /// The window gets the application's current title.
    pub retitle: bool,
    /// The loop ends.
    pub exit: bool,
}

/// The host's own state: the title that the window shows.
pub struct Host {
    shown: String,
}

impl ApplicationState {
    /// Whether the application has finished.
    pub fn is_finished(&self) -> (finished: bool)
        ensures
            finished == (*self == ApplicationState::Finished),
    {
        match self {
            ApplicationState::Finished => true,
            ApplicationState::Running => false,
        }
    }
}

impl Host {
    /// The title that the window shows.
    pub closed spec fn shown(&self) -> Seq<char> {
        self.shown@
    }

    /// The call that `signal` leads to: a close request is handed on as an
    /// event, the end of the pending events runs a frame, and nothing else
    /// reaches the application.
    pub open spec fn step_of(signal: Signal) -> Step {
        match signal {
            Signal::CloseRequested => Step::Handle(Event::CloseRequested),
            Signal::AboutToWait => Step::Update,
            Signal::Other => Step::Nothing,
        }
    }

    /// A host whose window shows `title`.
    pub fn new(title: String) -> (host: Host)
        ensures
            host.shown() == title@,
    {
        Host { shown: title }
    }

    /// The call that the application gets on `signal`.
    pub fn step(signal: Signal) -> (step: Step)
        ensures
            step == Host::step_of(signal),
    {
        match signal {
            Signal::CloseRequested => Step::Handle(Event::CloseRequested),
            Signal::AboutToWait => Step::Update,
            Signal::Other => Step::Nothing,
        }
    }

    /// Decides what follows the application's call on `signal`, from the title
    /// and the state that the application reports afterwards.
    ///
    /// The window is retitled after a frame whose title differs from the one
    /// shown; the host remembers the new title.  The loop ends as soon as the
    /// application has finished, whatever the signal was.
    pub fn settle(
        &mut self,
        signal: Signal,
        title: String,
        state: ApplicationState,
    ) -> (outcome: Outcome)
        ensures
            outcome.retitle == (signal == Signal::AboutToWait && title@ != old(self).shown()),
            outcome.exit == (state == ApplicationState::Finished),
            final(self).shown() == (if outcome.retitle {
                title@
            } else {
                old(self).shown()
            }),
    {
        let retitle = match signal {
            Signal::AboutToWait => title != self.shown,
            _ => false,
        };
        if retitle {
            self.shown = title;
        }
        Outcome { retitle, exit: state.is_finished() }
    }
}

} // verus!
