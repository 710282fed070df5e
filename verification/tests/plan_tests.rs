use humio::{
    click_area_flexible_plan, key_combination_flexible_plan, move_to_area_plan, MoveStep,
    text_humanized_plan_for,
    click_area_plan, guard_cleanup, key_combination_humanized_plan, key_combination_normal_plan,
    random_pause_ms, random_typo_char, scroll_steps, scroll_steps_from_draws, text_humanized_plan, Button, ClickFailure,
    Direction, Key, KeyAction, KeyCombinationFailure, MouseAction, Point, TargetArea, TypingRoll,
};
use std::collections::HashSet;

fn pause(min_ms: u64, max_ms: u64) -> KeyAction {
    KeyAction::Pause { min_ms, max_ms }
}

/// The text on screen after the keystrokes.
fn render(plan: &[KeyAction]) -> String {
    let mut s = String::new();
    for a in plan {
        match a {
            KeyAction::Type(c) => s.push(*c),
            KeyAction::Key(Key::Backspace, Direction::Press) => {
                s.pop();
            }
            _ => {}
        }
    }
    s
}

/// The keys held after the actions.
fn held(plan: &[KeyAction]) -> HashSet<Key> {
    let mut h = HashSet::new();
    for a in plan {
        match *a {
            KeyAction::Key(k, Direction::Press) | KeyAction::GuardedPress(k) => {
                h.insert(k);
            }
            KeyAction::Key(k, Direction::Release) | KeyAction::GuardedRelease(k) => {
                h.remove(&k);
            }
            _ => {}
        }
    }
    h
}

fn no_roll() -> TypingRoll {
    TypingRoll { transpose: false, double_tap: false, typo: None }
}

#[test]
fn normal_combination_exact_plan() {
    let plan = key_combination_normal_plan(&[Key::Control, Key::Shift], Key::Unicode('s'));
    assert_eq!(
        plan,
        vec![
            KeyAction::GuardedPress(Key::Control),
            pause(15, 45),
            KeyAction::GuardedPress(Key::Shift),
            pause(15, 45),
            KeyAction::Key(Key::Unicode('s'), Direction::Press),
            pause(20, 60),
            KeyAction::Key(Key::Unicode('s'), Direction::Release),
            pause(15, 45),
            KeyAction::GuardedRelease(Key::Shift),
            pause(15, 45),
            KeyAction::GuardedRelease(Key::Control),
        ]
    );
    assert!(held(&plan).is_empty());
}

#[test]
fn missed_modifier_is_never_pressed() {
    let f = KeyCombinationFailure::MissedModifier(Key::Shift);
    let plan = key_combination_humanized_plan(&[Key::Control, Key::Shift], Key::Unicode('z'), Some(&f));
    let mistake_len = 2 + 3 + 2;
    assert_eq!(
        &plan[..mistake_len],
        &[
            KeyAction::Key(Key::Control, Direction::Press),
            pause(15, 44),
            KeyAction::Key(Key::Unicode('z'), Direction::Press),
            pause(20, 59),
            KeyAction::Key(Key::Unicode('z'), Direction::Release),
            pause(15, 44),
            KeyAction::Key(Key::Control, Direction::Release),
        ]
    );
    assert_eq!(plan[mistake_len], pause(200, 350));
    assert_eq!(&plan[mistake_len + 1..], &key_combination_normal_plan(&[Key::Control, Key::Shift], Key::Unicode('z'))[..]);
    assert!(held(&plan).is_empty());
}

#[test]
fn wrong_key_tap_recovery_erases_and_retries() {
    let f = KeyCombinationFailure::WrongKeyTap(Key::Unicode('x'));
    let plan = key_combination_humanized_plan(&[Key::Control], Key::Unicode('c'), Some(&f));
    let normal = key_combination_normal_plan(&[Key::Control], Key::Unicode('c'));
    let tail = &plan[plan.len() - normal.len()..];
    assert_eq!(tail, &normal[..]);
    let repair = &plan[plan.len() - normal.len() - 5..plan.len() - normal.len()];
    assert_eq!(
        repair,
        &[
            pause(200, 350),
            KeyAction::Key(Key::Backspace, Direction::Press),
            pause(20, 49),
            KeyAction::Key(Key::Backspace, Direction::Release),
            pause(100, 199),
        ]
    );
    assert!(plan.contains(&KeyAction::Key(Key::Unicode('x'), Direction::Press)));
    assert!(held(&plan).is_empty());
}

#[test]
fn modifier_stuck_leaves_it_held_until_recovery() {
    let f = KeyCombinationFailure::ModifierStuck(Key::Alt);
    let plan = key_combination_humanized_plan(&[Key::Control, Key::Alt], Key::Tab, Some(&f));
    // The mistaken part ends where the 200-350 ms realisation begins.
    let cut = plan.iter().position(|a| *a == pause(200, 350)).unwrap();
    let after_mistake = held(&plan[..cut]);
    assert_eq!(after_mistake, [Key::Alt].into_iter().collect());
    assert_eq!(plan[cut + 1], KeyAction::Key(Key::Alt, Direction::Release));
    assert!(held(&plan).is_empty());
}

#[test]
fn released_early_modifier_goes_up_before_the_key() {
    let f = KeyCombinationFailure::ReleasedModifierEarly(Key::Shift);
    let plan = key_combination_humanized_plan(&[Key::Shift], Key::Unicode('a'), Some(&f));
    let up = plan.iter().position(|a| *a == KeyAction::Key(Key::Shift, Direction::Release)).unwrap();
    let down = plan.iter().position(|a| *a == KeyAction::Key(Key::Unicode('a'), Direction::Press)).unwrap();
    assert!(up < down);
    assert_eq!(plan[up + 1], pause(10, 29));
    assert!(held(&plan).is_empty());
}

#[test]
fn compound_combination_failure_runs_each_part_then_recovers() {
    let f = KeyCombinationFailure::Compound(vec![
        KeyCombinationFailure::ModifierStuck(Key::Control),
        KeyCombinationFailure::WrongKeyTap(Key::Unicode('q')),
    ]);
    let plan = key_combination_humanized_plan(&[Key::Control], Key::Unicode('w'), Some(&f));
    assert_eq!(plan.iter().filter(|a| **a == pause(50, 50)).count(), 2);
    assert!(plan.contains(&KeyAction::Key(Key::Unicode('q'), Direction::Press)));
    assert!(held(&plan).is_empty());
}

#[test]
fn no_failure_gives_the_clean_combination() {
    let plan = key_combination_humanized_plan(&[Key::Meta], Key::Space, None);
    assert_eq!(plan, key_combination_normal_plan(&[Key::Meta], Key::Space));
}

#[test]
fn guard_cleanup_releases_what_is_still_pressed() {
    let plan = key_combination_normal_plan(&[Key::Control, Key::Shift, Key::Alt], Key::Unicode('k'));
    // Failing on the key press: every modifier is still down, newest first.
    let key_press = plan.iter().position(|a| *a == KeyAction::Key(Key::Unicode('k'), Direction::Press)).unwrap();
    assert_eq!(guard_cleanup(&plan, key_press), vec![Key::Alt, Key::Shift, Key::Control]);
    // Failing on the second modifier press: only the first one is down.
    assert_eq!(guard_cleanup(&plan, 2), vec![Key::Control]);
    // Failing on the first guarded release: it already left the guard.
    let first_release = plan.iter().position(|a| matches!(a, KeyAction::GuardedRelease(_))).unwrap();
    assert_eq!(guard_cleanup(&plan, first_release), vec![Key::Shift, Key::Control]);
    assert_eq!(guard_cleanup(&plan, 0), Vec::<Key>::new());
}

#[test]
fn plain_typing_types_each_character_once() {
    let plan = text_humanized_plan("hey", &vec![no_roll(); 3]);
    assert_eq!(
        plan,
        vec![
            KeyAction::Type('h'),
            pause(50, 140),
            KeyAction::Type('e'),
            pause(50, 140),
            KeyAction::Type('y'),
            pause(50, 140),
        ]
    );
    assert!(text_humanized_plan("", &vec![]).is_empty());
}

#[test]
fn transposition_exact_plan() {
    let rolls = vec![TypingRoll { transpose: true, double_tap: false, typo: None }, no_roll()];
    let plan = text_humanized_plan("te", &rolls);
    let erase = |lo: u64, hi: u64| {
        vec![
            KeyAction::Key(Key::Backspace, Direction::Press),
            pause(20, 49),
            KeyAction::Key(Key::Backspace, Direction::Release),
            pause(lo, hi),
        ]
    };
    let mut expected = vec![KeyAction::Type('e'), pause(50, 140), KeyAction::Type('t'), pause(200, 399)];
    expected.extend(erase(30, 79));
    expected.extend(erase(30, 79));
    expected.extend(vec![
        pause(150, 299),
        KeyAction::Type('t'),
        pause(50, 140),
        KeyAction::Type('e'),
        pause(50, 140),
    ]);
    assert_eq!(plan, expected);
    assert_eq!(render(&plan), "te");
}

#[test]
fn transposition_needs_a_next_character() {
    // On the last character a transposition roll has no effect.
    let plan = text_humanized_plan("x", &vec![TypingRoll { transpose: true, double_tap: false, typo: None }]);
    assert_eq!(plan, vec![KeyAction::Type('x'), pause(50, 140)]);
}

#[test]
fn typo_is_erased_before_the_right_character() {
    let rolls = vec![TypingRoll { transpose: false, double_tap: false, typo: Some('q') }];
    let plan = text_humanized_plan("w", &rolls);
    assert_eq!(
        plan,
        vec![
            KeyAction::Type('q'),
            pause(150, 299),
            KeyAction::Key(Key::Backspace, Direction::Press),
            pause(20, 49),
            KeyAction::Key(Key::Backspace, Direction::Release),
            pause(100, 199),
            KeyAction::Type('w'),
            pause(50, 140),
        ]
    );
}

#[test]
fn any_mistakes_render_the_intended_text() {
    let text = "Hello, wörld!";
    let n = text.chars().count();
    for pattern in 0u32..64 {
        let rolls: Vec<TypingRoll> = (0..n)
            .map(|i| {
                let bits = pattern.rotate_left(i as u32);
                TypingRoll {
                    transpose: bits & 1 == 1,
                    double_tap: bits & 2 == 2,
                    typo: if bits & 4 == 4 { Some('Z') } else { None },
                }
            })
            .collect();
        let plan = text_humanized_plan(text, &rolls);
        assert_eq!(render(&plan), text);
    }
}

#[test]
fn typo_characters_follow_the_case_of_the_intended_one() {
    for _ in 0..200 {
        let lower = random_typo_char('m');
        assert!(lower.is_ascii_lowercase());
        let upper = random_typo_char('M');
        assert!(upper.is_ascii_uppercase());
        let other = random_typo_char('7');
        assert!(other.is_ascii_uppercase());
    }
}

#[test]
fn pauses_are_drawn_within_their_range() {
    for _ in 0..200 {
        let ms = random_pause_ms(15, 45);
        assert!((15..=45).contains(&ms));
    }
    assert_eq!(random_pause_ms(50, 50), 50);
}

#[test]
fn scroll_steps_cover_the_length_in_small_steps() {
    for length in [-17, -1, 0, 1, 2, 3, 4, 25, 100] {
        let steps = scroll_steps(length);
        assert_eq!(steps.iter().sum::<i32>(), length);
        assert_eq!(steps.is_empty(), length == 0);
        for s in steps {
            assert!(s != 0 && s.abs() <= 3 && s.signum() == length.signum());
        }
    }
}

fn clicks(plan: &[MouseAction]) -> Vec<Button> {
    plan.iter().filter_map(|a| if let MouseAction::Click(b) = a { Some(*b) } else { None }).collect()
}

#[test]
fn click_without_failure_moves_then_clicks() {
    let area = TargetArea::Point(Point::new(3, 4));
    let plan = click_area_plan(&area, Button::Left, true, None);
    assert_eq!(plan.len(), 4);
    assert!(matches!(&plan[0], MouseAction::MoveToArea { area: TargetArea::Point(p), allow_error: true } if *p == Point::new(3, 4)));
    assert!(matches!(plan[1], MouseAction::ClickPause));
    assert!(matches!(plan[2], MouseAction::Click(Button::Left)));
    assert!(matches!(plan[3], MouseAction::ClickPause));
}

#[test]
fn click_failures_are_repaired_by_the_default_recovery() {
    let area = TargetArea::Point(Point::new(10, 10));
    let decoy = TargetArea::Point(Point::new(90, 90));
    let failures = vec![
        ClickFailure::Misclick,
        ClickFailure::MisclickTo(decoy.clone()),
        ClickFailure::WrongButton(Button::Right),
        ClickFailure::DoubleClick,
        ClickFailure::Compound(vec![ClickFailure::DoubleClick, ClickFailure::WrongButton(Button::Middle)]),
    ];
    for f in &failures {
        let plan = click_area_plan(&area, Button::Left, true, Some(f));
        assert_eq!(*clicks(&plan).last().unwrap(), Button::Left);
        let last_click = plan.iter().rposition(|a| matches!(a, MouseAction::Click(_))).unwrap();
        let last_move = plan
            .iter()
            .rposition(|a| matches!(a, MouseAction::MoveToArea { .. } | MouseAction::MoveNearArea(_)))
            .unwrap();
        assert!(last_move < last_click);
        assert!(matches!(&plan[last_move], MouseAction::MoveToArea { area: a, .. } if *a == area));
    }
    let wrong = click_area_plan(&area, Button::Left, true, Some(&failures[2]));
    assert_eq!(clicks(&wrong), vec![Button::Right, Button::Left]);
    let double = click_area_plan(&area, Button::Left, true, Some(&failures[3]));
    assert_eq!(clicks(&double), vec![Button::Left, Button::Left]);
    assert!(matches!(double.last().unwrap(), MouseAction::Pause { min_ms: 250, max_ms: 450 }));
    let to_decoy = click_area_plan(&area, Button::Left, true, Some(&failures[1]));
    assert!(matches!(&to_decoy[0], MouseAction::MoveToArea { area: a, .. } if *a == decoy));
}

#[test]
fn failures_compare_and_copy_by_content() {
    let f = ClickFailure::Compound(vec![
        ClickFailure::MisclickTo(TargetArea::Polygon {
            vertices: vec![Point::new(0, 0), Point::new(5, 0), Point::new(0, 5)],
            target: None,
            std_dev_x: Some(2),
            std_dev_y: None,
        }),
        ClickFailure::Misclick,
    ]);
    assert_eq!(f.clone(), f);
    assert_ne!(f.clone(), ClickFailure::Misclick);
}

#[test]
fn scroll_steps_follow_the_draws() {
    assert_eq!(scroll_steps_from_draws(10, &[3, 3, 3, 3, 3]), vec![3, 3, 3, 1]);
    assert_eq!(scroll_steps_from_draws(-5, &[2, 2, 2]), vec![-2, -2, -1]);
    assert_eq!(scroll_steps_from_draws(4, &[1, 2]), vec![1, 2]);
    assert_eq!(scroll_steps_from_draws(0, &[2]), Vec::<i32>::new());
}

#[test]
fn failed_modifier_press_releases_pressed_ones_newest_first() {
    let mods = [Key::Control, Key::Shift, Key::Alt, Key::Meta];
    let plan = key_combination_normal_plan(&mods, Key::Unicode('q'));
    // The press of modifier 3 (Meta) fails: Alt, Shift, Control are released.
    assert_eq!(plan[6], KeyAction::GuardedPress(Key::Meta));
    assert_eq!(guard_cleanup(&plan, 6), vec![Key::Alt, Key::Shift, Key::Control]);
    assert!(!plan[..6].contains(&KeyAction::Key(Key::Unicode('q'), Direction::Press)));
}

#[test]
fn typing_plans_hold_only_keystrokes() {
    let rolls = vec![
        TypingRoll { transpose: true, double_tap: false, typo: None },
        no_roll(),
        TypingRoll { transpose: false, double_tap: true, typo: None },
        TypingRoll { transpose: false, double_tap: false, typo: Some('z') },
    ];
    let plan = text_humanized_plan("abcd", &rolls);
    for a in &plan {
        assert!(matches!(
            a,
            KeyAction::Type(_)
                | KeyAction::Key(Key::Backspace, Direction::Press)
                | KeyAction::Key(Key::Backspace, Direction::Release)
                | KeyAction::Pause { .. }
        ));
    }
    assert_eq!(render(&plan), "abcd");
}

/// How many times the actions press and release `k`.
fn press_release_counts(plan: &[KeyAction], k: Key) -> (usize, usize) {
    let mut p = 0;
    let mut r = 0;
    for a in plan {
        match *a {
            KeyAction::Key(x, Direction::Press) | KeyAction::GuardedPress(x) if x == k => p += 1,
            KeyAction::Key(x, Direction::Release) | KeyAction::GuardedRelease(x) if x == k => r += 1,
            _ => {}
        }
    }
    (p, r)
}

#[test]
fn humanized_combinations_press_and_release_each_key_equally() {
    let mods = [Key::Control, Key::Shift];
    let key = Key::Unicode('z');
    let failures = vec![
        KeyCombinationFailure::MissedModifier(Key::Shift),
        KeyCombinationFailure::WrongKeyTap(Key::Unicode('x')),
        KeyCombinationFailure::ReleasedModifierEarly(Key::Control),
        KeyCombinationFailure::ModifierStuck(Key::Shift),
        KeyCombinationFailure::Compound(vec![
            KeyCombinationFailure::ModifierStuck(Key::Control),
            KeyCombinationFailure::ModifierStuck(Key::Control),
            KeyCombinationFailure::ReleasedModifierEarly(Key::Shift),
        ]),
    ];
    for f in &failures {
        let plan = key_combination_humanized_plan(&mods, key, Some(f));
        for k in [Key::Control, Key::Shift, key, Key::Unicode('x'), Key::Backspace] {
            let (p, r) = press_release_counts(&plan, k);
            assert_eq!(p, r, "{f:?} {k:?}");
        }
    }
    let plan = key_combination_humanized_plan(&mods, key, None);
    assert_eq!(press_release_counts(&plan, Key::Control), (1, 1));
}

#[test]
fn move_plans_end_with_a_glide_onto_the_target() {
    let s = Point::new(0, 0);
    let t = Point::new(40, 30);
    let o = Point::new(52, 38);
    assert_eq!(move_to_area_plan(s, t, None), vec![MoveStep::Glide { from: s, to: t }]);
    assert_eq!(
        move_to_area_plan(s, t, Some(o)),
        vec![
            MoveStep::Glide { from: s, to: o },
            MoveStep::Pause { min_ms: 120, max_ms: 219 },
            MoveStep::Glide { from: o, to: t },
        ]
    );
}

#[test]
fn flexible_plans_recover_at_most_once() {
    let mods = [Key::Control];
    let key = Key::Unicode('v');
    let none = key_combination_flexible_plan(&mods, key, None);
    assert!(!none.contains(&KeyAction::Recover));
    let f = KeyCombinationFailure::ModifierStuck(Key::Control);
    let some = key_combination_flexible_plan(&mods, key, Some(&f));
    assert_eq!(some.iter().filter(|a| **a == KeyAction::Recover).count(), 1);
    let area = TargetArea::Point(Point::new(5, 5));
    let clicks = click_area_flexible_plan(&area, Button::Left, None);
    assert!(!clicks.iter().any(|a| matches!(a, MouseAction::Recover)));
    let clicks = click_area_flexible_plan(&area, Button::Left, Some(&ClickFailure::DoubleClick));
    assert_eq!(clicks.iter().filter(|a| matches!(a, MouseAction::Recover)).count(), 1);
}

#[test]
fn typing_with_mistakes_disabled_is_plain_whatever_the_rolls() {
    let rolls = vec![
        TypingRoll { transpose: true, double_tap: true, typo: Some('q') },
        TypingRoll { transpose: false, double_tap: true, typo: None },
    ];
    let plain = text_humanized_plan("ok", &vec![no_roll(); 2]);
    assert_eq!(text_humanized_plan_for("ok", false, 0, 1, &rolls), plain);
    assert_eq!(text_humanized_plan_for("ok", true, 1, 1, &rolls), plain);
    assert_eq!(text_humanized_plan_for("ok", true, 0, 1, &rolls), text_humanized_plan("ok", &rolls));
    assert_eq!(render(&text_humanized_plan_for("ok", true, 0, 1, &rolls)), "ok");
}
