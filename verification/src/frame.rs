//! The decisions of the render loop: which step comes next, what it asks of
//! the drawing surface, and when the loop ends.

use vstd::prelude::*;

verus! {

/// A key of the keyboard, as far as the loop tells keys apart.
#[derive(Clone, Copy, Debug, PartialEq, Eq, Structural)]
pub enum Key {
    Escape,
    Other,
}

/// An input event, as far as the loop tells events apart.
#[derive(Clone, Copy, Debug, PartialEq, Eq, Structural)]
pub enum InputEvent {
    /// The window was closed.
    Quit,
    /// A key went down.
    KeyDown(Key),
    Other,
}

/// A colour of the drawing surface.
#[derive(Clone, Copy, Debug, PartialEq, Eq, Structural)]
pub struct Color {
    pub red: u8,
    pub green: u8,
    pub blue: u8,
}

/// The steps of one frame, in their order.
#[derive(Clone, Copy, Debug, PartialEq, Eq, Structural)]
pub enum Step {
    PollInput,
    Clear,
    Draw,
    Present,
    Yield,
}

/// The state of the render loop.
#[derive(Clone, Copy, Debug, PartialEq, Eq, Structural)]
pub enum LoopState {
    /// The loop runs, and this step is due.
    Running(Step),
    /// The loop has ended, for good.
    Terminated,
}

/// What a step asks of the surroundings.
#[derive(Clone, Copy, Debug, PartialEq, Eq, Structural)]
pub enum Action {
    /// Collect the pending input events.
    PollEvents,
    /// Fill the surface with the colour.
    Clear(Color),
    /// Read the clock, transform the mesh and draw its edges in the colour.
    DrawMesh(Color),
    /// Show the frame.
    Present,
    /// Wait for so many milliseconds.
    Sleep(u64),
}

/// The colour that the window shows before the first frame.
pub open spec fn startup_color() -> Color {
    Color { red: 0, green: 255, blue: 255 }
}

/// The colour behind the cube.
pub open spec fn background_color() -> Color {
    Color { red: 0, green: 64, blue: 255 }
}

/// The colour of the edges.
pub open spec fn edge_color() -> Color {
    Color { red: 0, green: 0, blue: 0 }
}

/// The pause at the end of a frame, in milliseconds.
pub const FRAME_DELAY_MS: u64 = 10;

/// Whether an event asks the loop to end: a closed window or the escape key.
pub open spec fn asks_to_exit(event: InputEvent) -> bool {
    event == InputEvent::Quit || event == InputEvent::KeyDown(Key::Escape)
}

/// Whether any event of the sequence asks the loop to end.
pub open spec fn any_asks_to_exit(events: Seq<InputEvent>) -> bool {
    exists|i: int| 0 <= i < events.len() && asks_to_exit(#[trigger] events[i])
}

/// The step after `step` within a frame; after the last, the first.
pub open spec fn step_after(step: Step) -> Step {
    match step {
        Step::PollInput => Step::Clear,
        Step::Clear => Step::Draw,
        Step::Draw => Step::Present,
        Step::Present => Step::Yield,
        Step::Yield => Step::PollInput,
    }
}

/// What a step asks for.
pub open spec fn action_of(step: Step) -> Action {
    match step {
        Step::PollInput => Action::PollEvents,
        Step::Clear => Action::Clear(background_color()),
        Step::Draw => Action::DrawMesh(edge_color()),
        Step::Present => Action::Present,
        Step::Yield => Action::Sleep(FRAME_DELAY_MS),
    }
}

impl LoopState {
    /// The state after the step that was due, where `events` are the input
    /// events that the step collected (none, for every step but the first).
    /// The loop ends when an event collected by the first step asks for it,
    /// and never starts again.
    pub open spec fn next(self, events: Seq<InputEvent>) -> LoopState {
        match self {
            LoopState::Terminated => LoopState::Terminated,
            LoopState::Running(step) => if step == Step::PollInput && any_asks_to_exit(events) {
                LoopState::Terminated
            } else {
                LoopState::Running(step_after(step))
            },
        }
    }

    /// The state after `n` steps in which no event asks the loop to end.
    pub open spec fn after_quiet_steps(self, n: nat) -> LoopState
        decreases n,
    {
        if n == 0 {
            self
        } else {
            self.after_quiet_steps((n - 1) as nat).next(Seq::empty())
        }
    }

    /// The colour with which the window is filled before the loop starts.
    pub fn startup_fill() -> (color: Color)
        ensures
            color == startup_color(),
    {
        Color { red: 0, green: 255, blue: 255 }
    }

    /// The state in which the loop starts: running, with input due.
    pub fn start() -> (state: LoopState)
        ensures
            state == LoopState::Running(Step::PollInput),
    {
        LoopState::Running(Step::PollInput)
    }

    /// What the state asks of the surroundings; nothing once the loop has
    /// ended.
    pub fn action(self) -> (action: Option<Action>)
        ensures
            action == match self {
                LoopState::Running(step) => Some(action_of(step)),
                LoopState::Terminated => None,
            },
    {
        match self {
            LoopState::Running(Step::PollInput) => Some(Action::PollEvents),
            LoopState::Running(Step::Clear) => Some(
                Action::Clear(Color { red: 0, green: 64, blue: 255 }),
            ),
            LoopState::Running(Step::Draw) => Some(
                Action::DrawMesh(Color { red: 0, green: 0, blue: 0 }),
            ),
            LoopState::Running(Step::Present) => Some(Action::Present),
            LoopState::Running(Step::Yield) => Some(Action::Sleep(FRAME_DELAY_MS)),
            LoopState::Terminated => None,
        }
    }

    /// Moves on after the step that was due, given the events it collected.
    pub fn advance(self, events: &[InputEvent]) -> (state: LoopState)
        ensures
            state == self.next(events@),
    {
        match self {
            LoopState::Terminated => LoopState::Terminated,
            LoopState::Running(Step::PollInput) => {
                if exit_requested(events) {
                    LoopState::Terminated
                } else {
                    LoopState::Running(Step::Clear)
                }
            },
            LoopState::Running(Step::Clear) => LoopState::Running(Step::Draw),
            LoopState::Running(Step::Draw) => LoopState::Running(Step::Present),
            LoopState::Running(Step::Present) => LoopState::Running(Step::Yield),
            LoopState::Running(Step::Yield) => LoopState::Running(Step::PollInput),
        }
    }
}

/// Whether any of the events asks the loop to end.
pub fn exit_requested(events: &[InputEvent]) -> (found: bool)
    ensures
        found == any_asks_to_exit(events@),
{
    let mut i: usize = 0;
    while i < events.len()
        invariant
            i <= events.len(),
            forall|j: int| 0 <= j < i ==> !asks_to_exit(#[trigger] events@[j]),
        decreases events.len() - i,
    {
        match events[i] {
            InputEvent::Quit => {
                return true;
            },
            InputEvent::KeyDown(Key::Escape) => {
                return true;
            },
            _ => {},
        }
        i += 1;
    }
    false
}

/// Once the loop has ended it stays ended, whatever events arrive.
pub proof fn lemma_terminated_is_final(events: Seq<InputEvent>)
    ensures
        LoopState::Terminated.next(events) == LoopState::Terminated,
{
}

/// Only the step that polls input can end the loop.
pub proof fn lemma_only_input_ends_the_loop(step: Step, events: Seq<InputEvent>)
    ensures
        LoopState::Running(step).next(events) == LoopState::Terminated <==> step == Step::PollInput
            && any_asks_to_exit(events),
{
}

/// While no event asks the loop to end, five steps make a frame: the loop
/// is back at the step it was at.
pub proof fn lemma_frame_has_five_steps(step: Step)
    ensures
        LoopState::Running(step).after_quiet_steps(5) == LoopState::Running(step),
{
    reveal_with_fuel(LoopState::after_quiet_steps, 6);
    assert(!any_asks_to_exit(Seq::empty()));
}

} // verus!
