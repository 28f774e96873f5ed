use hypothesis_fast::stateful::{
    check_machine, failure_notes, prints_steps, Action, Event, Phase, StatefulRunner,
};

fn drive(is_final: bool, events: &[Event]) -> (StatefulRunner, Vec<Action>) {
    let mut s = StatefulRunner::new(is_final);
    let mut out = vec![];
    for e in events {
        let (next, a) = s.advance(*e);
        s = next;
        out.push(a);
    }
    (s, out)
}

#[test]
fn machines_run_rules_until_they_stop() {
    let (s, a) = drive(
        false,
        &[
            Event::Done,
            Event::Done,
            Event::Done,
            Event::MustStop(Some(false)),
            Event::Drew(false),
            Event::Chose(4),
            Event::Done,
            Event::Done,
            Event::MustStop(None),
            Event::Drew(true),
            Event::Done,
            Event::Done,
        ],
    );
    assert_eq!(
        a,
        vec![
            Action::Announce,
            Action::CheckInvariants,
            Action::AskMustStop { steps: 0 },
            Action::DrawStop { forced: Some(false) },
            Action::ChooseRule,
            Action::RunRule { rule: 4 },
            Action::CheckInvariants,
            Action::AskMustStop { steps: 1 },
            Action::DrawStop { forced: None },
            Action::AnnounceEnd,
            Action::TearDown,
            Action::Finish,
        ]
    );
    assert_eq!((s.phase, s.steps), (Phase::Over, 1));
}

#[test]
fn failing_machines_are_torn_down() {
    let (_, a) = drive(true, &[Event::Done, Event::Failed(9), Event::Done, Event::Done]);
    assert_eq!(a[2], Action::TearDown);
    assert_eq!(a[3], Action::Raise { failure: 9, with_steps: true });
    let (_, a) = drive(true, &[Event::Done, Event::Failed(9), Event::Done, Event::Failed(2)]);
    assert_eq!(a[3], Action::Raise { failure: 2, with_steps: false });
    let (_, a) = drive(false, &[Event::Done, Event::Chose(1)]);
    assert_eq!(a[1], Action::Confused);
}

#[test]
fn machines_are_checked_and_explained() {
    assert!(check_machine(true, "m").is_ok());
    assert_eq!(
        check_machine(false, "5").err().unwrap().msg,
        "state_machine_factory() must return a RuleBasedStateMachine, got 5"
    );
    assert!(prints_steps(true, false));
    assert!(!prints_steps(false, false));
    let notes = failure_notes(&vec!["a".to_string()]);
    assert_eq!(notes, vec!["Falsifying example:".to_string(), "a".to_string()]);
}
