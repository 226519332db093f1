use wireframe_cube::frame::{
    exit_requested, Action, Color, InputEvent, Key, LoopState, Step, FRAME_DELAY_MS,
};

#[test]
fn loop_starts_with_input() {
    assert_eq!(LoopState::start(), LoopState::Running(Step::PollInput));
    assert_eq!(LoopState::start().action(), Some(Action::PollEvents));
}

#[test]
fn a_quiet_frame_has_five_steps() {
    let mut state = LoopState::start();
    let mut actions = vec![];
    for _ in 0..5 {
        actions.push(state.action().unwrap());
        state = state.advance(&[]);
    }
    assert_eq!(state, LoopState::start());
    assert_eq!(
        actions,
        vec![
            Action::PollEvents,
            Action::Clear(Color { red: 0, green: 64, blue: 255 }),
            Action::DrawMesh(Color { red: 0, green: 0, blue: 0 }),
            Action::Present,
            Action::Sleep(10),
        ]
    );
    assert_eq!(FRAME_DELAY_MS, 10);
}

#[test]
fn quit_ends_the_loop() {
    let state = LoopState::start().advance(&[InputEvent::Other, InputEvent::Quit]);
    assert_eq!(state, LoopState::Terminated);
    assert_eq!(state.action(), None);
}

#[test]
fn escape_ends_the_loop() {
    let state = LoopState::start().advance(&[InputEvent::KeyDown(Key::Escape)]);
    assert_eq!(state, LoopState::Terminated);
}

#[test]
fn other_keys_and_events_do_not_end_the_loop() {
    let events = [
        InputEvent::KeyDown(Key::Other),
        InputEvent::Other,
        InputEvent::KeyDown(Key::Other),
    ];
    assert!(!exit_requested(&events));
    assert_eq!(
        LoopState::start().advance(&events),
        LoopState::Running(Step::Clear)
    );
}

#[test]
fn exit_is_found_anywhere_among_the_events() {
    for place in 0..4 {
        let mut events = [InputEvent::Other; 4];
        events[place] = InputEvent::KeyDown(Key::Escape);
        assert!(exit_requested(&events));
        events[place] = InputEvent::Quit;
        assert!(exit_requested(&events));
    }
    assert!(!exit_requested(&[]));
}

#[test]
fn events_count_only_when_input_is_due() {
    let quit = [InputEvent::Quit];
    assert_eq!(
        LoopState::Running(Step::Clear).advance(&quit),
        LoopState::Running(Step::Draw)
    );
    assert_eq!(
        LoopState::Running(Step::Draw).advance(&quit),
        LoopState::Running(Step::Present)
    );
    assert_eq!(
        LoopState::Running(Step::Present).advance(&quit),
        LoopState::Running(Step::Yield)
    );
    assert_eq!(
        LoopState::Running(Step::Yield).advance(&quit),
        LoopState::Running(Step::PollInput)
    );
}

#[test]
fn terminated_stays_terminated() {
    let mut state = LoopState::Terminated;
    for _ in 0..7 {
        state = state.advance(&[InputEvent::Other]);
        assert_eq!(state, LoopState::Terminated);
    }
    assert_eq!(state.advance(&[]), LoopState::Terminated);
}
