use automation::context::{Action, MouseButton};
use automation::fsm::{PresetState, PresetTransition};
use automation::image::{Direction, GrayImage, Pattern, Screenshot};

fn tiles(width: u32, height: u32) -> Vec<u8> {
    let mut data = Vec::new();
    for y in 0..height {
        for x in 0..width {
            let block = (x / 2) * 7 + (y / 2) * 13;
            data.push((40 + (block * 37) % 200) as u8);
        }
    }
    data
}

fn gray_frame(width: u32, height: u32, luma: &[u8]) -> Screenshot {
    let mut buf = Vec::new();
    for v in luma {
        buf.extend_from_slice(&[*v, *v, *v, 255]);
    }
    Screenshot::from_bgra_buf(width, height, buf).unwrap()
}

fn frame_with_patch(patch: &[u8], x: u32, y: u32) -> Screenshot {
    let mut canvas = vec![0u8; 80 * 60];
    for dy in 0..12u32 {
        for dx in 0..12u32 {
            canvas[((y + dy) * 80 + x + dx) as usize] = patch[(dy * 12 + dx) as usize];
        }
    }
    gray_frame(80, 60, &canvas)
}

#[test]
fn plain_states_finish_at_once() {
    for state in [
        PresetState::Entry,
        PresetState::Exit,
        PresetState::Empty,
        PresetState::MouseClick { btn: MouseButton::Left },
        PresetState::MouseScroll { dx: 1, dy: -2 },
    ] {
        assert!(!state.needs_frame());
        let plan = state.on_tick(None);
        assert!(plan.finished);
        assert!(plan.actions.is_empty());
        let shot = gray_frame(4, 4, &[9; 16]);
        let plan = state.on_tick(Some(&shot));
        assert!(plan.finished);
        assert!(plan.actions.is_empty());
    }
}

#[test]
fn click_and_scroll_act_on_enter() {
    assert_eq!(
        PresetState::MouseClick { btn: MouseButton::Right }.on_enter(),
        Some(Action::Click { btn: MouseButton::Right })
    );
    assert_eq!(
        PresetState::MouseClick { btn: MouseButton::Middle }.on_enter(),
        Some(Action::Click { btn: MouseButton::Middle })
    );
    assert_eq!(
        PresetState::MouseScroll { dx: -3, dy: 4 }.on_enter(),
        Some(Action::Scroll { dx: -3, dy: 4 })
    );
    assert_eq!(PresetState::Entry.on_enter(), None);
    assert_eq!(PresetState::Exit.on_enter(), None);
    assert_eq!(PresetState::Empty.on_enter(), None);
    let pattern = Pattern::from_gray_image(GrayImage::from_raw(12, 12, tiles(12, 12)).unwrap());
    assert_eq!(
        PresetState::MouseMoveTo { pattern: &pattern, dir: Direction::Left }.on_enter(),
        None
    );
    assert_eq!(
        PresetState::MouseClickAt {
            pattern: &pattern,
            dir: Direction::Left,
            btn: MouseButton::Left
        }
        .on_enter(),
        None
    );
}

#[test]
fn move_to_waits_for_pattern() {
    let patch = tiles(12, 12);
    let pattern = Pattern::from_gray_image(GrayImage::from_raw(12, 12, patch.clone()).unwrap());
    let state = PresetState::MouseMoveTo { pattern: &pattern, dir: Direction::Up };
    assert!(state.needs_frame());

    let plan = state.on_tick(None);
    assert!(!plan.finished);
    assert!(plan.actions.is_empty());

    let black = gray_frame(80, 60, &vec![0u8; 80 * 60]);
    let plan = state.on_tick(Some(&black));
    assert!(!plan.finished);
    assert!(plan.actions.is_empty());

    let shot = frame_with_patch(&patch, 30, 20);
    let plan = state.on_tick(Some(&shot));
    assert!(plan.finished);
    // ((15 + 6 / 2) * 2, (10 + 6 / 2) * 2)
    assert_eq!(plan.actions, vec![Action::MoveTo { x: 36, y: 26 }]);
}

#[test]
fn click_at_moves_then_clicks() {
    let patch = tiles(12, 12);
    let pattern = Pattern::from_gray_image(GrayImage::from_raw(12, 12, patch.clone()).unwrap());
    let state = PresetState::MouseClickAt {
        pattern: &pattern,
        dir: Direction::Right,
        btn: MouseButton::Middle,
    };
    assert!(state.needs_frame());
    let plan = state.on_tick(None);
    assert!(!plan.finished);
    assert!(plan.actions.is_empty());
    let shot = frame_with_patch(&patch, 60, 40);
    let plan = state.on_tick(Some(&shot));
    assert!(plan.finished);
    assert_eq!(
        plan.actions,
        vec![
            Action::MoveTo { x: 66, y: 46 },
            Action::Click { btn: MouseButton::Middle }
        ]
    );
    let black = gray_frame(80, 60, &vec![0u8; 80 * 60]);
    let plan = state.on_tick(Some(&black));
    assert!(!plan.finished);
    assert!(plan.actions.is_empty());
}

#[test]
fn direct_transition_is_always_satisfied() {
    assert!(!PresetTransition::Direct.needs_frame());
    assert!(PresetTransition::Direct.satisfied_on(None));
    let shot = gray_frame(4, 4, &[0; 16]);
    assert!(PresetTransition::Direct.satisfied_on(Some(&shot)));
}

#[test]
fn pattern_found_follows_the_finder() {
    let patch = tiles(12, 12);
    let pattern = Pattern::from_gray_image(GrayImage::from_raw(12, 12, patch.clone()).unwrap());
    let transition = PresetTransition::PatternFound { pattern: &pattern, dir: Direction::Down };
    assert!(transition.needs_frame());
    assert!(!transition.satisfied_on(None));
    let black = gray_frame(80, 60, &vec![0u8; 80 * 60]);
    assert!(!transition.satisfied_on(Some(&black)));
    let shot = frame_with_patch(&patch, 8, 4);
    assert!(transition.satisfied_on(Some(&shot)));
}
