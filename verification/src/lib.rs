//! Humanized input simulation: the decisions, geometry and event plans behind
//! human-like mouse movement, clicking, scrolling and typing, with an
//! in-memory recording device for tests.
//!
//! Plans (`KeyAction`, `MouseAction`) are sequences of device actions and
//! pauses; a driver performs them on a device, draws the pauses, and runs the
//! caller's recovery where a plan says so.

pub mod analysis;
pub mod delay;
pub mod device;
pub mod error;
pub mod failures;
pub mod keyboard;
pub mod mock;
pub mod mouse;
pub mod random;
pub mod recovery;
pub mod target_area;
pub mod types;
pub mod typing;
pub mod wind_mouse;

pub use analysis::{filter_active_movement, points_in_window};
pub use delay::{gaussian_delay_ms, sample_gaussian_clamped};
pub use device::{InputDevice, Keyboard, Mouse};
pub use error::HumioError;
pub use failures::{ClickFailure, FailureType, KeyCombinationFailure, KeyboardFailure};
pub use keyboard::{
    guard_cleanup, key_combination_flexible_plan, key_combination_humanized_plan,
    key_combination_normal_plan, KeyAction,
};
pub use mock::{InputEvent, MockDevice};
pub use mouse::{
    click_area_flexible_plan, click_area_plan, move_to_area_plan, scroll_steps,
    scroll_steps_from_draws, MouseAction, MoveStep,
};
pub use random::{random_pause_ms, random_typo_char};
pub use recovery::{enter_recovery, failures_enabled, leave_recovery, should_bypass_failures};
pub use target_area::TargetArea;
pub use types::{Button, DelayMs, Direction, GlidePoint, Key, PathStep, Point, ScrollAxis};
pub use typing::{text_humanized_plan, text_humanized_plan_for, TypingRoll};
pub use wind_mouse::{generate_wind_mouse_path, step_wait_ms};
