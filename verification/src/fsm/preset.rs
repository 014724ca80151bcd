use vstd::prelude::*;
use crate::context::{Action, MouseButton};
use crate::image::finder::Finder;
use crate::image::matching::{located, Direction};
use crate::image::pattern::Pattern;
use crate::image::screenshot::{Frame, Screenshot};

verus! {

/// The states that a script of clicks is made of. What a state does is
/// decided here; capturing the frame it asks for and carrying out the
/// actions it answers with is the caller's part.
pub enum PresetState<'a> {
    /// Waits until the pattern is on the screen and moves the pointer there.
    MouseMoveTo { pattern: &'a Pattern, dir: Direction },
    /// Clicks where the pointer is.
    MouseClick { btn: MouseButton },
    /// Waits until the pattern is on the screen and clicks on it.
    MouseClickAt { pattern: &'a Pattern, dir: Direction, btn: MouseButton },
    /// Turns the wheel.
    MouseScroll { dx: i32, dy: i32 },
    /// Does nothing.
    Empty,
    /// Where a script starts.
    Entry,
    /// Where a script ends.
    Exit,
}

/// What a state answers to a tick: whether it has finished, and what the
/// input simulator is to do, in order.
pub struct TickPlan {
    pub finished: bool,
    pub actions: Vec<Action>,
}

impl<'a> PresetState<'a> {
    /// Whether the state looks at the screen when it is ticked.
    pub open spec fn looks(self) -> bool {
        self is MouseMoveTo || self is MouseClickAt
    }

    /// Whether the state looks at the screen when it is ticked, and is to be
    /// given a fresh frame.
    pub fn needs_frame(&self) -> (needed: bool)
        ensures
            needed == self.looks(),
    {
        match self {
            PresetState::MouseMoveTo { .. } => true,
            PresetState::MouseClickAt { .. } => true,
            _ => false,
        }
    }

    /// What the input simulator is to do when the machine comes to the
    /// state: a click or a turn of the wheel for the states that are one,
    /// nothing for the others.
    pub fn on_enter(&self) -> (action: Option<Action>)
        ensures
            action == match *self {
                PresetState::MouseClick { btn } => Some(Action::Click { btn }),
                PresetState::MouseScroll { dx, dy } => Some(Action::Scroll { dx, dy }),
                _ => None::<Action>,
            },
    {
        match self {
            PresetState::MouseClick { btn } => Some(Action::Click { btn: *btn }),
            PresetState::MouseScroll { dx, dy } => Some(Action::Scroll { dx: *dx, dy: *dy }),
            _ => None,
        }
    }

    /// What the state answers to a tick when it is shown the frame. A state
    /// that looks for a pattern finishes once the pattern is found: the
    /// pointer is moved to the centre of the match, and a button is clicked
    /// there if the state is one that clicks. Shown no frame, or one without
    /// the pattern, it does nothing and has not finished. Every other state
    /// finishes at once.
    pub fn on_tick(&self, frame: Option<&Screenshot>) -> (plan: TickPlan)
        ensures
            plan.finished == self.finishes_on(Self::shown(frame)),
            plan.actions@ == self.acts_on(Self::shown(frame)),
    {
        let mut actions: Vec<Action> = Vec::new();
        match self {
            PresetState::MouseMoveTo { pattern, dir } => {
                match Self::look(frame, pattern, *dir) {
                    Some(pos) => {
                        actions.push(Action::MoveTo { x: pos.0, y: pos.1 });
                        assert(actions@ =~= seq![Action::MoveTo { x: pos.0, y: pos.1 }]);
                        TickPlan { finished: true, actions }
                    },
                    None => TickPlan { finished: false, actions },
                }
            },
            PresetState::MouseClickAt { pattern, dir, btn } => {
                match Self::look(frame, pattern, *dir) {
                    Some(pos) => {
                        actions.push(Action::MoveTo { x: pos.0, y: pos.1 });
                        actions.push(Action::Click { btn: *btn });
                        assert(actions@ =~= seq![
                            Action::MoveTo { x: pos.0, y: pos.1 },
                            Action::Click { btn: *btn },
                        ]);
                        TickPlan { finished: true, actions }
                    },
                    None => TickPlan { finished: false, actions },
                }
            },
            _ => TickPlan { finished: true, actions },
        }
    }

    /// The frame that a state is shown, if it is shown one.
    pub open spec fn shown(frame: Option<&Screenshot>) -> Option<Frame> {
        match frame {
            Some(shot) => Some(shot@),
            None => None,
        }
    }

    /// Where the state finds what it looks for on the frame it is shown.
    pub open spec fn finds(self, frame: Option<Frame>) -> Option<(u32, u32)> {
        match (self, frame) {
            (PresetState::MouseMoveTo { pattern, dir }, Some(f)) => located(
                f,
                pattern@,
                pattern.spec_factor(),
                dir,
            ),
            (PresetState::MouseClickAt { pattern, dir, btn }, Some(f)) => located(
                f,
                pattern@,
                pattern.spec_factor(),
                dir,
            ),
            _ => None,
        }
    }

    /// Whether the state has finished after a tick on the frame.
    pub open spec fn finishes_on(self, frame: Option<Frame>) -> bool {
        !self.looks() || self.finds(frame) is Some
    }

    /// What the input simulator is to do after a tick on the frame.
    pub open spec fn acts_on(self, frame: Option<Frame>) -> Seq<Action> {
        match self.finds(frame) {
            Some(pos) => match self {
                PresetState::MouseClickAt { pattern, dir, btn } => seq![
                    Action::MoveTo { x: pos.0, y: pos.1 },
                    Action::Click { btn },
                ],
                _ => seq![Action::MoveTo { x: pos.0, y: pos.1 }],
            },
            None => Seq::empty(),
        }
    }

    /// Where the pattern is on the frame, if a frame is shown.
    fn look(frame: Option<&Screenshot>, pattern: &Pattern, dir: Direction) -> (found: Option<
        (u32, u32),
    >)
        ensures
            found == match frame {
                Some(shot) => located(shot@, pattern@, pattern.spec_factor(), dir),
                None => None,
            },
    {
        match frame {
            Some(shot) => Finder::new(shot).find(pattern, dir),
            None => None,
        }
    }
}

/// The transitions that a script of clicks is made of.
pub enum PresetTransition<'a> {
    /// May be followed once the pattern is on the screen.
    PatternFound { pattern: &'a Pattern, dir: Direction },
    /// May always be followed.
    Direct,
}

impl<'a> PresetTransition<'a> {
    /// Whether the transition looks at the screen when it is asked.
    pub open spec fn looks(self) -> bool {
        self is PatternFound
    }

    /// Whether the transition looks at the screen when it is asked, and is
    /// to be given a fresh frame.
    pub fn needs_frame(&self) -> (needed: bool)
        ensures
            needed == self.looks(),
    {
        match self {
            PresetTransition::PatternFound { .. } => true,
            PresetTransition::Direct => false,
        }
    }

    /// Whether the transition may be followed, given the frame it is shown.
    pub open spec fn holds_on(self, frame: Option<Frame>) -> bool {
        match self {
            PresetTransition::Direct => true,
            PresetTransition::PatternFound { pattern, dir } => match frame {
                Some(f) => located(f, pattern@, pattern.spec_factor(), dir) is Some,
                None => false,
            },
        }
    }

    /// Whether the transition may be followed: always for a direct one, and
    /// for one that looks for a pattern where the pattern is found on the
    /// frame it is shown.
    pub fn satisfied_on(&self, frame: Option<&Screenshot>) -> (satisfied: bool)
        ensures
            satisfied == self.holds_on(PresetState::shown(frame)),
    {
        match self {
            PresetTransition::Direct => true,
            PresetTransition::PatternFound { pattern, dir } => match frame {
                Some(shot) => Finder::new(shot).find(pattern, *dir).is_some(),
                None => false,
            },
        }
    }
}

} // verus!
