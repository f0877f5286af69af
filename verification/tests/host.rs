use pulse::ApplicationState;
use pulse::Event;
use pulse::Host;
use pulse::Outcome;
use pulse::Signal;
use pulse::Step;

#[test]
fn host_hands_a_close_request_on() {
    assert_eq!(Host::step(Signal::CloseRequested), Step::Handle(Event::CloseRequested));
}

#[test]
fn host_runs_a_frame_when_the_events_are_handled() {
    assert_eq!(Host::step(Signal::AboutToWait), Step::Update);
}

#[test]
fn host_ignores_other_signals() {
    assert_eq!(Host::step(Signal::Other), Step::Nothing);
}

#[test]
fn host_retitles_after_a_frame_with_a_new_title() {
    let mut host = Host::new("one".to_string());

    let first = host.settle(Signal::AboutToWait, "two".to_string(), ApplicationState::Running);
    let second = host.settle(Signal::AboutToWait, "two".to_string(), ApplicationState::Running);

    assert_eq!(first, Outcome { retitle: true, exit: false });
    assert_eq!(second, Outcome { retitle: false, exit: false });
}

#[test]
fn host_retitles_only_after_a_frame() {
    let mut host = Host::new("one".to_string());

    let closing = host.settle(Signal::CloseRequested, "two".to_string(), ApplicationState::Running);
    let other = host.settle(Signal::Other, "two".to_string(), ApplicationState::Running);
    let frame = host.settle(Signal::AboutToWait, "two".to_string(), ApplicationState::Running);

    assert_eq!(closing, Outcome { retitle: false, exit: false });
    assert_eq!(other, Outcome { retitle: false, exit: false });
    assert_eq!(frame, Outcome { retitle: true, exit: false });
}

#[test]
fn host_exits_once_the_application_has_finished() {
    let mut host = Host::new("one".to_string());

    let closing = host.settle(Signal::CloseRequested, "one".to_string(), ApplicationState::Finished);
    let frame = host.settle(Signal::AboutToWait, "one".to_string(), ApplicationState::Finished);
    let other = host.settle(Signal::Other, "one".to_string(), ApplicationState::Finished);

    assert_eq!(closing, Outcome { retitle: false, exit: true });
    assert_eq!(frame, Outcome { retitle: false, exit: true });
    assert_eq!(other, Outcome { retitle: false, exit: true });
}

#[test]
fn application_state_knows_when_it_has_finished() {
    assert!(ApplicationState::Finished.is_finished());
    assert!(!ApplicationState::Running.is_finished());
}
