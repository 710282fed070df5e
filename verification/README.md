# humio

Humanized input simulation: human-like mouse paths, clicks with Gaussian
timing, scrolling with inertia, typing and key combinations with simulated
mistakes and their corrections.

The library (`src/`) is written in Verus. It decides what happens and proves
it: every humanized operation is a *plan* (`KeyAction`, `MouseAction`), a
sequence of device actions and pauses built by a verified function whose
contract gives the plan exactly. Proof functions state what the plans
guarantee, for instance that every simulated typing mistake is corrected
(the text on screen is the text asked for), that a key combination leaves
no key held, that a combination cut short by an error releases the
modifiers it pressed, and that a click with a simulated mistake still ends
with the intended button clicked on the intended area.

Also verified: point sampling in rectangles, discs and polygons, each
point tied to the normal draws it came from (a disc's point always lies in
the disc; a polygon's lies inside it or is a fallback), the ray-casting
inside test and the vertex average, the WindMouse path frame and its step
waits, the hover-overshoot move plan, the recursion guard,
Gaussian delay clamping, scroll step splitting, the recording `MockDevice`,
and the active-movement filter for recorded cursor trajectories.

`app/` is ordinary Rust around the library: the enigo-backed
`PhysicalDevice`, the floating-point sampling (Box–Muller draws, the
WindMouse physics walk, failure probabilities, path metrics), sleeping, and
`HumanizedDevice`, which draws the random outcomes, asks the library for a
plan and carries it out on a device.

Layout:

- `src/types.rs`, `src/error.rs`, `src/device.rs`: points, keys, buttons, the
  device traits and the error type.
- `src/keyboard.rs`, `src/typing.rs`: key combination and typing plans, the
  modifier guard, and their laws.
- `src/mouse.rs`: click and scroll plans and their laws.
- `src/target_area.rs`, `src/delay.rs`, `src/wind_mouse.rs`: sampling.
- `src/failures.rs`, `src/recovery.rs`, `src/random.rs`: failure kinds, the
  recursion guard, uniform draws.
- `src/mock.rs`, `src/analysis.rs`: the recording device and trajectory
  filtering.
- `tests/`: plans on concrete values, plan runners over `MockDevice`, and
  sampling checks with real random draws.
