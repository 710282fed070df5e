use humio::{
    click_area_flexible_plan, enter_recovery, failures_enabled, key_combination_flexible_plan, leave_recovery,
    scroll_steps, should_bypass_failures, text_humanized_plan, Button, ClickFailure, Direction,
    HumioError, InputEvent, Key, KeyAction, KeyCombinationFailure, Keyboard, MockDevice, Mouse,
    MouseAction, Point, ScrollAxis, TargetArea, TypingRoll,
};

/// Carries out a keyboard plan on the mock device, as a driver does; pauses
/// take no time here and `Recover` runs the given recovery.
fn run_key_plan(
    dev: &mut MockDevice,
    plan: &[KeyAction],
    recover: &mut dyn FnMut(&mut MockDevice) -> Result<(), HumioError>,
) -> Result<(), HumioError> {
    for action in plan {
        match *action {
            KeyAction::Key(k, d) => dev.key(k, d)?,
            KeyAction::GuardedPress(k) => dev.key(k, Direction::Press)?,
            KeyAction::GuardedRelease(k) => dev.key(k, Direction::Release)?,
            KeyAction::Type(c) => dev.text(&c.to_string())?,
            KeyAction::Pause { .. } => {}
            KeyAction::Recover => recover(dev)?,
        }
    }
    Ok(())
}

/// Carries out a mouse plan on the mock device: moves go to the area's
/// anchor point (a rectangle's or circle's target, or the point itself).
fn run_mouse_plan(
    dev: &mut MockDevice,
    plan: &[MouseAction],
    recover: &mut dyn FnMut(&mut MockDevice) -> Result<(), HumioError>,
) -> Result<(), HumioError> {
    for action in plan {
        match action {
            MouseAction::MoveToArea { area, .. } | MouseAction::MoveNearArea(area) => {
                let p = match area {
                    TargetArea::Point(p) => *p,
                    _ => Point::new(0, 0),
                };
                dev.location()?;
                dev.move_mouse(p)?;
            }
            MouseAction::Click(b) => dev.click(*b)?,
            MouseAction::ClickPause | MouseAction::Pause { .. } => {}
            MouseAction::Recover => recover(dev)?,
        }
    }
    Ok(())
}

#[test]
fn test_mock_device_captures_events() {
    let mut mock = MockDevice::new(Point::new(100, 100));
    assert_eq!(mock.location().unwrap(), Point::new(100, 100));

    mock.move_mouse(Point::new(150, 200)).unwrap();
    mock.click(Button::Left).unwrap();
    mock.key(Key::Unicode('a'), Direction::Press).unwrap();

    let events = mock.get_events();
    assert!(events.contains(&InputEvent::MouseLocationQuery(Point::new(100, 100))));
    assert!(events.contains(&InputEvent::MouseMoved(Point::new(150, 200))));
    assert!(events.contains(&InputEvent::MouseClicked(Button::Left)));
    assert!(events.contains(&InputEvent::KeyAction { key: Key::Unicode('a'), action: Direction::Press }));
}

#[test]
fn test_flexible_click_failure_recovery() {
    let mut mock = MockDevice::new(Point::new(0, 0));
    let target_area = TargetArea::Point(Point::new(50, 50));
    let mut recovery_called = false;

    // A failure that always triggers (probability 1.0) is drawn.
    let failure = ClickFailure::Misclick;
    let plan = click_area_flexible_plan(&target_area, Button::Left, Some(&failure));
    run_mouse_plan(&mut mock, &plan, &mut |_d| {
        recovery_called = true;
        Ok(())
    })
    .unwrap();

    assert!(recovery_called);
    let events = mock.get_events();
    let clicks: Vec<_> = events.iter().filter(|e| matches!(e, InputEvent::MouseClicked(_))).collect();
    // The misclick, then the corrected click after recovery.
    assert_eq!(clicks.len(), 2);
}

#[test]
fn test_flexible_key_combination_failure_recovery() {
    let mut mock = MockDevice::new(Point::new(0, 0));
    let mut recovery_called = false;

    let failure = KeyCombinationFailure::WrongKeyTap(Key::Unicode('a'));
    let plan = key_combination_flexible_plan(&[Key::Control], Key::Unicode('c'), Some(&failure));
    run_key_plan(&mut mock, &plan, &mut |_d| {
        recovery_called = true;
        Ok(())
    })
    .unwrap();

    assert!(recovery_called);
    let events = mock.get_events();
    assert!(events.iter().any(|e| matches!(e, InputEvent::KeyAction { key: Key::Unicode('a'), action: Direction::Press })));
}

#[test]
fn test_text_humanized_failures_transpositions_and_doubletap() {
    let mut mock = MockDevice::new(Point::new(0, 0));

    // 1. Transposition forced (probability 1.0), nothing else.
    let rolls = vec![TypingRoll { transpose: true, double_tap: false, typo: None }; 2];
    let plan = text_humanized_plan("ab", &rolls);
    run_key_plan(&mut mock, &plan, &mut |_d| Ok(())).unwrap();

    let events = mock.get_events();
    let backspaces = events
        .iter()
        .filter(|e| matches!(e, InputEvent::KeyAction { key: Key::Backspace, action: Direction::Press }))
        .count();
    assert_eq!(backspaces, 2);

    // 2. Double tap forced (probability 1.0), nothing else.
    mock.clear_events();
    let rolls = vec![TypingRoll { transpose: false, double_tap: true, typo: None }; 1];
    let plan = text_humanized_plan("a", &rolls);
    run_key_plan(&mut mock, &plan, &mut |_d| Ok(())).unwrap();

    let events2 = mock.get_events();
    let backspaces2 = events2
        .iter()
        .filter(|e| matches!(e, InputEvent::KeyAction { key: Key::Backspace, action: Direction::Press }))
        .count();
    assert_eq!(backspaces2, 1);
}

#[test]
fn test_scroll_inertia() {
    let mut mock = MockDevice::new(Point::new(0, 0));
    for step in scroll_steps(10) {
        mock.scroll(step, ScrollAxis::Vertical).unwrap();
    }

    let events = mock.get_events();
    let scrolls: Vec<_> = events.iter().filter(|e| matches!(e, InputEvent::MouseScrolled { .. })).collect();
    assert!(!scrolls.is_empty());
    let mut sum = 0;
    for s in scrolls {
        if let InputEvent::MouseScrolled { length, .. } = s {
            sum += length;
        }
    }
    assert_eq!(sum, 10);
}

#[test]
fn test_flexible_key_combination_modifier_jitters() {
    let mut mock = MockDevice::new(Point::new(0, 0));
    let mut early_recovery_called = false;
    let mut stuck_recovery_called = false;

    // 1. Early modifier release.
    let early = KeyCombinationFailure::ReleasedModifierEarly(Key::Control);
    let plan = key_combination_flexible_plan(&[Key::Control], Key::Unicode('c'), Some(&early));
    run_key_plan(&mut mock, &plan, &mut |_d| {
        early_recovery_called = true;
        Ok(())
    })
    .unwrap();
    assert!(early_recovery_called);

    let events_early = mock.get_events();
    let control_release = events_early
        .iter()
        .position(|e| matches!(e, InputEvent::KeyAction { key: Key::Control, action: Direction::Release }))
        .unwrap();
    let c_press = events_early
        .iter()
        .position(|e| matches!(e, InputEvent::KeyAction { key: Key::Unicode('c'), action: Direction::Press }))
        .unwrap();
    assert!(control_release < c_press);

    // 2. Stuck modifier; the recovery releases it.
    mock.clear_events();
    let stuck = KeyCombinationFailure::ModifierStuck(Key::Control);
    let plan = key_combination_flexible_plan(&[Key::Control], Key::Unicode('c'), Some(&stuck));
    run_key_plan(&mut mock, &plan, &mut |d| {
        stuck_recovery_called = true;
        d.key(Key::Control, Direction::Release)?;
        Ok(())
    })
    .unwrap();
    assert!(stuck_recovery_called);

    let events_stuck = mock.get_events();
    let release_indices: Vec<_> = events_stuck
        .iter()
        .enumerate()
        .filter(|(_, e)| matches!(e, InputEvent::KeyAction { key: Key::Control, action: Direction::Release }))
        .map(|(idx, _)| idx)
        .collect();
    // Once in the recovery, once in the corrected combination.
    assert!(release_indices.len() >= 2);
}

#[test]
fn test_recursive_failure_recovery_guard() {
    let mut mock = MockDevice::new(Point::new(0, 0));
    let mut recovery_runs = 0;
    let max_recovery_depth = 1;
    let mut depth = 0;

    let target_area = TargetArea::Point(Point::new(50, 50));
    let failure = ClickFailure::Misclick;

    // The outer click draws its (always-triggering) failure: not bypassed at depth 0.
    assert!(!should_bypass_failures(depth, max_recovery_depth));
    let plan = click_area_flexible_plan(&target_area, Button::Left, Some(&failure));
    for action in &plan {
        if let MouseAction::Recover = action {
            depth = enter_recovery(depth);
            recovery_runs += 1;
            // Inside the recovery, a second click with the same failure enabled:
            // failures are bypassed at this depth, so nothing is drawn.
            let nested_failure =
                if failures_enabled(true, depth, max_recovery_depth) { Some(&failure) } else { None };
            if nested_failure.is_some() {
                panic!("Nested recovery triggered! Recursion guard failed.");
            }
            let nested = click_area_flexible_plan(&target_area, Button::Left, nested_failure);
            run_mouse_plan(&mut mock, &nested, &mut |_d| {
                panic!("Nested recovery triggered! Recursion guard failed.");
            })
            .unwrap();
            depth = leave_recovery(depth);
        }
    }
    assert_eq!(recovery_runs, 1);
    assert_eq!(depth, 0);
}

#[test]
fn mock_move_by_tracks_cursor_and_refuses_overflow() {
    let mut mock = MockDevice::new(Point::new(10, 20));
    mock.move_mouse_by(Point::new(5, -30)).unwrap();
    assert_eq!(mock.location().unwrap(), Point::new(15, -10));
    mock.set_location(Point::new(i32::MAX, 0));
    assert!(mock.move_mouse_by(Point::new(1, 0)).is_err());
    assert_eq!(mock.location().unwrap(), Point::new(i32::MAX, 0));
    let events = mock.get_events();
    assert_eq!(
        events,
        vec![
            InputEvent::MouseMovedBy(Point::new(5, -30)),
            InputEvent::MouseLocationQuery(Point::new(15, -10)),
            InputEvent::MouseLocationQuery(Point::new(i32::MAX, 0)),
        ]
    );
}

#[test]
fn mock_records_every_kind_of_event_in_order() {
    let mut mock = MockDevice::new(Point::new(0, 0));
    mock.hold(Button::Right).unwrap();
    mock.release(Button::Right).unwrap();
    mock.scroll(-3, ScrollAxis::Horizontal).unwrap();
    mock.text("hi").unwrap();
    let copy = mock.clone();
    mock.clear_events();
    assert!(mock.get_events().is_empty());
    assert_eq!(
        copy.get_events(),
        vec![
            InputEvent::MouseHeld(Button::Right),
            InputEvent::MouseReleased(Button::Right),
            InputEvent::MouseScrolled { length: -3, axis: ScrollAxis::Horizontal },
            InputEvent::TextTyped("hi".to_string()),
        ]
    );
}

#[test]
fn default_key_combination_presses_clicks_and_releases_in_reverse() {
    let mut mock = MockDevice::new(Point::new(0, 0));
    mock.key_combination(&[Key::Control, Key::Shift], Key::Unicode('t')).unwrap();
    assert_eq!(
        mock.get_events(),
        vec![
            InputEvent::KeyAction { key: Key::Control, action: Direction::Press },
            InputEvent::KeyAction { key: Key::Shift, action: Direction::Press },
            InputEvent::KeyAction { key: Key::Unicode('t'), action: Direction::Click },
            InputEvent::KeyAction { key: Key::Shift, action: Direction::Release },
            InputEvent::KeyAction { key: Key::Control, action: Direction::Release },
        ]
    );
}

#[test]
fn recovery_depth_round_trip() {
    assert!(should_bypass_failures(1, 1));
    assert!(!should_bypass_failures(0, 1));
    assert!(should_bypass_failures(3, 2));
    assert_eq!(enter_recovery(0), 1);
    assert_eq!(leave_recovery(enter_recovery(4)), 4);
}

#[test]
fn failures_are_enabled_only_when_allowed_and_not_bypassed() {
    assert!(failures_enabled(true, 0, 1));
    assert!(!failures_enabled(false, 0, 1));
    assert!(!failures_enabled(true, 1, 1));
    assert!(!failures_enabled(true, 3, 2));
    assert!(failures_enabled(true, 1, 2));
}

#[test]
fn errors_carry_their_messages() {
    assert_eq!(HumioError::Backend("boom".to_string()).message(), "Input backend error: boom");
    assert_eq!(
        HumioError::LocationQuery("no display".to_string()).message(),
        "Mouse location query failed: no display"
    );
}
