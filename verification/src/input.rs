//! The pointer state machine: pen and mouse events become one stream of
//! down / move / up / hold events. Positions and pressures are carried
//! through as opaque values; the caller measures distances and supplies the
//! clock as milliseconds.
use vstd::prelude::*;

verus! {

/// Which device a pointer event came from.
#[derive(Debug, Clone, Copy, PartialEq, Eq, Structural)]
pub enum PointerSource {
    Mouse,
    Pen,
}

/// The side buttons of a mouse.
#[derive(Debug, Clone, Copy, PartialEq, Eq, Structural)]
pub enum SideButton {
    X1,
    X2,
}

/// How long, in milliseconds, a pressed pointer must stay still before a
/// hold is reported.
pub const HOLD_DURATION_MS: u64 = 1000;

/// One pointer sample: where, how hard, and from which device.
#[derive(Debug, Clone, Copy)]
pub struct InputSample<P, F> {
    pub pos: P,
    pub pressure: F,
    pub source: PointerSource,
}

/// A pointer event of the unified stream.
#[derive(Debug, Clone, Copy)]
pub enum PointerEvent<S> {
    Down(S),
    Move(S),
    Up(S),
    Hold(S),
}

impl<S: Copy> PointerEvent<S> {
    /// The sample an event carries.
    pub open spec fn spec_sample(self) -> S {
        match self {
            PointerEvent::Down(s) => s,
            PointerEvent::Move(s) => s,
            PointerEvent::Up(s) => s,
            PointerEvent::Hold(s) => s,
        }
    }

    /// The sample an event carries.
    pub fn sample(&self) -> (s: S)
        ensures
            s == self.spec_sample(),
    {
        match self {
            PointerEvent::Down(s) => *s,
            PointerEvent::Move(s) => *s,
            PointerEvent::Up(s) => *s,
            PointerEvent::Hold(s) => *s,
        }
    }
}

/// What the tools receive: pointer events and side-button presses.
#[derive(Debug, Clone, Copy)]
pub enum InputEvent<S> {
    Pointer(PointerEvent<S>),
    MouseSideButton { button: SideButton, pressed: bool },
}

/// A device event as the window system reports it, reduced to what the
/// state machine needs. `synthesized` marks a mouse event the system made
/// up from pen input; `significant` says whether the pointer moved further
/// than the jitter threshold from the last significant position.
#[derive(Debug, Clone, Copy)]
pub enum RawInput<P, F> {
    PenPressure(F),
    PenDown(P),
    PenMotion { pos: P, significant: bool },
    PenUp(P),
    PenProximityOut,
    MouseLeftDown { pos: P, synthesized: bool },
    MouseMotion { pos: P, synthesized: bool, significant: bool },
    MouseLeftUp { pos: P, synthesized: bool },
    MouseSideDown(SideButton),
    MouseSideUp(SideButton),
}

/// The mathematical state of an [`InputState`].
pub struct InputView<P, F> {
    pub last_pressure: F,
    pub full_pressure: F,
    pub pointer_down: bool,
    pub active_source: PointerSource,
    pub last_significant_pos: P,
    pub last_move_at: u64,
    pub hold_fired: bool,
    pub last_mouse_pos: P,
    pub last_pen_pos: P,
}

/// The sample a step produces.
pub open spec fn sample_of<P, F>(pos: P, pressure: F, source: PointerSource) -> InputSample<P, F> {
    InputSample { pos, pressure, source }
}

impl<P, F> InputView<P, F> {
    /// The pen is pressed.
    pub open spec fn pen_down(self) -> bool {
        self.pointer_down && self.active_source == PointerSource::Pen
    }

    /// A press begins at `pos`.
    pub open spec fn begun(self, pos: P, source: PointerSource, now: u64) -> InputView<P, F> {
        InputView {
            pointer_down: true,
            active_source: source,
            hold_fired: false,
            last_significant_pos: pos,
            last_move_at: now,
            ..self
        }
    }

    /// The pointer moved to `pos`; a significant move restarts the stillness
    /// period.
    pub open spec fn moved(self, pos: P, significant: bool, now: u64) -> InputView<P, F> {
        if significant {
            InputView { last_significant_pos: pos, last_move_at: now, hold_fired: false, ..self }
        } else {
            self
        }
    }

    /// The press ends.
    pub open spec fn ended(self) -> InputView<P, F> {
        InputView { pointer_down: false, ..self }
    }

    /// The state after `ev` at time `now`, and the event it yields.
    pub open spec fn step(self, ev: RawInput<P, F>, now: u64) -> (InputView<P, F>, Option<
        InputEvent<InputSample<P, F>>,
    >) {
        match ev {
            RawInput::PenPressure(v) => (InputView { last_pressure: v, ..self }, None),
            RawInput::PenDown(pos) => {
                let s = InputView { last_pen_pos: pos, ..self };
                (
                    s.begun(pos, PointerSource::Pen, now),
                    Some(
                        InputEvent::Pointer(
                            PointerEvent::Down(sample_of(pos, self.last_pressure, PointerSource::Pen)),
                        ),
                    ),
                )
            },
            RawInput::PenMotion { pos, significant } => {
                let s = InputView { last_pen_pos: pos, ..self };
                if self.pen_down() {
                    (
                        s.moved(pos, significant, now),
                        Some(
                            InputEvent::Pointer(
                                PointerEvent::Move(sample_of(pos, self.last_pressure, PointerSource::Pen)),
                            ),
                        ),
                    )
                } else {
                    (s, None)
                }
            },
            RawInput::PenUp(pos) => {
                let s = InputView { last_pen_pos: pos, ..self };
                (
                    s.ended(),
                    Some(
                        InputEvent::Pointer(
                            PointerEvent::Up(sample_of(pos, self.last_pressure, PointerSource::Pen)),
                        ),
                    ),
                )
            },
            RawInput::PenProximityOut => {
                if self.pen_down() {
                    (
                        self.ended(),
                        Some(
                            InputEvent::Pointer(
                                PointerEvent::Up(
                                    sample_of(self.last_pen_pos, self.last_pressure, PointerSource::Pen),
                                ),
                            ),
                        ),
                    )
                } else {
                    (self, None)
                }
            },
            RawInput::MouseLeftDown { pos, synthesized } => {
                if synthesized {
                    (self, None)
                } else {
                    let s = InputView { last_mouse_pos: pos, ..self };
                    (
                        s.begun(pos, PointerSource::Mouse, now),
                        Some(
                            InputEvent::Pointer(
                                PointerEvent::Down(
                                    sample_of(pos, self.full_pressure, PointerSource::Mouse),
                                ),
                            ),
                        ),
                    )
                }
            },
            RawInput::MouseMotion { pos, synthesized, significant } => {
                if synthesized {
                    (self, None)
                } else {
                    let s = InputView { last_mouse_pos: pos, ..self };
                    if self.pointer_down && self.active_source == PointerSource::Mouse {
                        (
                            s.moved(pos, significant, now),
                            Some(
                                InputEvent::Pointer(
                                    PointerEvent::Move(
                                        sample_of(pos, self.full_pressure, PointerSource::Mouse),
                                    ),
                                ),
                            ),
                        )
                    } else {
                        (s, None)
                    }
                }
            },
            RawInput::MouseLeftUp { pos, synthesized } => {
                if synthesized {
                    (self, None)
                } else {
                    let s = InputView { last_mouse_pos: pos, ..self };
                    (
                        s.ended(),
                        Some(
                            InputEvent::Pointer(
                                PointerEvent::Up(sample_of(pos, self.full_pressure, PointerSource::Mouse)),
                            ),
                        ),
                    )
                }
            },
            RawInput::MouseSideDown(b) => (
                self,
                Some(InputEvent::MouseSideButton { button: b, pressed: true }),
            ),
            RawInput::MouseSideUp(b) => (
                self,
                Some(InputEvent::MouseSideButton { button: b, pressed: false }),
            ),
        }
    }

    /// A hold is due: the pointer is pressed, no hold was reported since the
    /// last significant move, and it has been still long enough.
    pub open spec fn hold_due(self, now: u64) -> bool {
        self.pointer_down && !self.hold_fired && now >= self.last_move_at && now - self.last_move_at
            >= HOLD_DURATION_MS
    }

    /// The state after polling at time `now`, and the hold it reports, if
    /// one is due.
    pub open spec fn polled(self, now: u64) -> (InputView<P, F>, Option<InputEvent<InputSample<P, F>>>) {
        if self.hold_due(now) {
            (
                InputView { hold_fired: true, ..self },
                Some(
                    InputEvent::Pointer(
                        PointerEvent::Hold(
                            sample_of(self.last_significant_pos, self.last_pressure, self.active_source),
                        ),
                    ),
                ),
            )
        } else {
            (self, None)
        }
    }
}

/// Tracks the pointer: whether it is pressed and by which device, the last
/// pressure the pen reported, and when it last moved significantly.
pub struct InputState<P, F> {
    last_pressure: F,
    full_pressure: F,
    pointer_down: bool,
    active_source: PointerSource,
    last_significant_pos: P,
    last_move_at: u64,
    hold_fired: bool,
    last_mouse_pos: P,
    last_pen_pos: P,
}

impl<P, F> View for InputState<P, F> {
    type V = InputView<P, F>;

    closed spec fn view(&self) -> InputView<P, F> {
        InputView {
            last_pressure: self.last_pressure,
            full_pressure: self.full_pressure,
            pointer_down: self.pointer_down,
            active_source: self.active_source,
            last_significant_pos: self.last_significant_pos,
            last_move_at: self.last_move_at,
            hold_fired: self.hold_fired,
            last_mouse_pos: self.last_mouse_pos,
            last_pen_pos: self.last_pen_pos,
        }
    }
}

impl<P: Copy, F: Copy> InputState<P, F> {
    /// A released pointer at `origin`, with `full_pressure` as the pressure of
    /// mouse input and of the pen until it reports one.
    pub fn new(origin: P, full_pressure: F, now: u64) -> (s: Self)
        ensures
            s@ == (InputView {
                last_pressure: full_pressure,
                full_pressure,
                pointer_down: false,
                active_source: PointerSource::Mouse,
                last_significant_pos: origin,
                last_move_at: now,
                hold_fired: false,
                last_mouse_pos: origin,
                last_pen_pos: origin,
            }),
    {
        InputState {
            last_pressure: full_pressure,
            full_pressure,
            pointer_down: false,
            active_source: PointerSource::Mouse,
            last_significant_pos: origin,
            last_move_at: now,
            hold_fired: false,
            last_mouse_pos: origin,
            last_pen_pos: origin,
        }
    }

    /// Where the mouse was last seen.
    pub fn last_mouse_pos(&self) -> (p: P)
        ensures
            p == self@.last_mouse_pos,
    {
        self.last_mouse_pos
    }

    /// Where the pen was last seen, hovering or pressed.
    pub fn last_pen_pos(&self) -> (p: P)
        ensures
            p == self@.last_pen_pos,
    {
        self.last_pen_pos
    }

    /// Where the pointer last moved significantly; a motion is significant
    /// when it goes further than the jitter threshold from here.
    pub fn last_significant_pos(&self) -> (p: P)
        ensures
            p == self@.last_significant_pos,
    {
        self.last_significant_pos
    }

    /// The pen is pressed.
    pub fn is_pen_down(&self) -> (b: bool)
        ensures
            b == self@.pen_down(),
    {
        self.pointer_down && self.active_source == PointerSource::Pen
    }

    fn begin(&mut self, pos: P, source: PointerSource, now: u64)
        ensures
            final(self)@ == old(self)@.begun(pos, source, now),
    {
        self.pointer_down = true;
        self.active_source = source;
        self.hold_fired = false;
        self.last_significant_pos = pos;
        self.last_move_at = now;
    }

    fn moved(&mut self, pos: P, significant: bool, now: u64)
        ensures
            final(self)@ == old(self)@.moved(pos, significant, now),
    {
        if significant {
            self.last_significant_pos = pos;
            self.last_move_at = now;
            self.hold_fired = false;
        }
    }

    /// Feeds one device event at time `now` (milliseconds) and returns the
    /// event it yields for the tools, if any.
    pub fn process_event(&mut self, ev: RawInput<P, F>, now: u64) -> (r: Option<
        InputEvent<InputSample<P, F>>,
    >)
        ensures
            (final(self)@, r) == old(self)@.step(ev, now),
    {
        match ev {
            RawInput::PenPressure(v) => {
                self.last_pressure = v;
                None
            },
            RawInput::PenDown(pos) => {
                self.last_pen_pos = pos;
                let pressure = self.last_pressure;
                self.begin(pos, PointerSource::Pen, now);
                Some(
                    InputEvent::Pointer(
                        PointerEvent::Down(InputSample { pos, pressure, source: PointerSource::Pen }),
                    ),
                )
            },
            RawInput::PenMotion { pos, significant } => {
                let down = self.pointer_down && self.active_source == PointerSource::Pen;
                self.last_pen_pos = pos;
                if down {
                    self.moved(pos, significant, now);
                    Some(
                        InputEvent::Pointer(
                            PointerEvent::Move(
                                InputSample { pos, pressure: self.last_pressure, source: PointerSource::Pen },
                            ),
                        ),
                    )
                } else {
                    None
                }
            },
            RawInput::PenUp(pos) => {
                self.last_pen_pos = pos;
                self.pointer_down = false;
                Some(
                    InputEvent::Pointer(
                        PointerEvent::Up(
                            InputSample { pos, pressure: self.last_pressure, source: PointerSource::Pen },
                        ),
                    ),
                )
            },
            RawInput::PenProximityOut => {
                if self.pointer_down && self.active_source == PointerSource::Pen {
                    self.pointer_down = false;
                    Some(
                        InputEvent::Pointer(
                            PointerEvent::Up(
                                InputSample {
                                    pos: self.last_pen_pos,
                                    pressure: self.last_pressure,
                                    source: PointerSource::Pen,
                                },
                            ),
                        ),
                    )
                } else {
                    None
                }
            },
            RawInput::MouseLeftDown { pos, synthesized } => {
                if synthesized {
                    return None;
                }
                self.last_mouse_pos = pos;
                self.begin(pos, PointerSource::Mouse, now);
                Some(
                    InputEvent::Pointer(
                        PointerEvent::Down(
                            InputSample { pos, pressure: self.full_pressure, source: PointerSource::Mouse },
                        ),
                    ),
                )
            },
            RawInput::MouseMotion { pos, synthesized, significant } => {
                if synthesized {
                    return None;
                }
                let down = self.pointer_down && self.active_source == PointerSource::Mouse;
                self.last_mouse_pos = pos;
                if down {
                    self.moved(pos, significant, now);
                    Some(
                        InputEvent::Pointer(
                            PointerEvent::Move(
                                InputSample {
                                    pos,
                                    pressure: self.full_pressure,
                                    source: PointerSource::Mouse,
                                },
                            ),
                        ),
                    )
                } else {
                    None
                }
            },
            RawInput::MouseLeftUp { pos, synthesized } => {
                if synthesized {
                    return None;
                }
                self.last_mouse_pos = pos;
                self.pointer_down = false;
                Some(
                    InputEvent::Pointer(
                        PointerEvent::Up(
                            InputSample { pos, pressure: self.full_pressure, source: PointerSource::Mouse },
                        ),
                    ),
                )
            },
            RawInput::MouseSideDown(b) => Some(InputEvent::MouseSideButton { button: b, pressed: true }),
            RawInput::MouseSideUp(b) => Some(InputEvent::MouseSideButton { button: b, pressed: false }),
        }
    }

    /// Polls for a hold at time `now` (milliseconds): reports one when the
    /// pointer has been pressed and still for [`HOLD_DURATION_MS`], once per
    /// stillness period.
    pub fn update(&mut self, now: u64) -> (r: Option<InputEvent<InputSample<P, F>>>)
        ensures
            (final(self)@, r) == old(self)@.polled(now),
    {
        if self.pointer_down && !self.hold_fired && now >= self.last_move_at && now - self.last_move_at
            >= HOLD_DURATION_MS {
            self.hold_fired = true;
            return Some(
                InputEvent::Pointer(
                    PointerEvent::Hold(
                        InputSample {
                            pos: self.last_significant_pos,
                            pressure: self.last_pressure,
                            source: self.active_source,
                        },
                    ),
                ),
            );
        }
        None
    }
}

/// A hold is reported at most once per stillness period: right after one
/// was reported, polling again reports nothing, at any later time.
pub proof fn lemma_hold_fires_once<P, F>(s: InputView<P, F>, now: u64, later: u64)
    requires
        s.polled(now).1 is Some,
    ensures
        s.polled(now).0.polled(later).1 is None,
{
}

/// A released pointer never reports a hold.
pub proof fn lemma_no_hold_when_released<P, F>(s: InputView<P, F>, now: u64)
    requires
        !s.pointer_down,
    ensures
        s.polled(now) == (s, None::<InputEvent<InputSample<P, F>>>),
{
}

/// A press that stays still (no event in between) reports a hold once the
/// hold duration has passed since it began.
pub proof fn lemma_still_press_holds<P, F>(s: InputView<P, F>, pos: P, down_at: u64, now: u64)
    requires
        down_at <= now,
        now - down_at >= HOLD_DURATION_MS,
    ensures
        s.step(RawInput::PenDown(pos), down_at).0.polled(now).1 is Some,
{
}

/// Ending a press, by either device, releases the pointer.
pub proof fn lemma_up_releases<P, F>(s: InputView<P, F>, pos: P, now: u64)
    ensures
        !s.step(RawInput::PenUp(pos), now).0.pointer_down,
        !s.step(RawInput::MouseLeftUp { pos, synthesized: false }, now).0.pointer_down,
{
}

/// Mouse events that the system made up from pen input change nothing and
/// yield nothing.
pub proof fn lemma_synthesized_ignored<P, F>(s: InputView<P, F>, pos: P, significant: bool, now: u64)
    ensures
        s.step(RawInput::MouseLeftDown { pos, synthesized: true }, now) == (s, None::<
            InputEvent<InputSample<P, F>>,
        >),
        s.step(RawInput::MouseMotion { pos, synthesized: true, significant }, now) == (s, None::<
            InputEvent<InputSample<P, F>>,
        >),
        s.step(RawInput::MouseLeftUp { pos, synthesized: true }, now) == (s, None::<
            InputEvent<InputSample<P, F>>,
        >),
{
}


/// A press begins a stroke: a pen down reports a Down at the pen's place
/// with the last reported pressure, a (real) left mouse down a Down at the
/// mouse's place with full pressure; either way the pointer is then pressed
/// by that device.
pub proof fn lemma_down_reports_down<P, F>(s: InputView<P, F>, p: P, now: u64)
    ensures
        s.step(RawInput::PenDown(p), now).1 == Some(
            InputEvent::Pointer(
                PointerEvent::Down(InputSample { pos: p, pressure: s.last_pressure, source: PointerSource::Pen }),
            ),
        ),
        s.step(RawInput::PenDown(p), now).0.pointer_down,
        s.step(RawInput::PenDown(p), now).0.active_source == PointerSource::Pen,
        s.step(RawInput::MouseLeftDown { pos: p, synthesized: false }, now).1 == Some(
            InputEvent::Pointer(
                PointerEvent::Down(InputSample { pos: p, pressure: s.full_pressure, source: PointerSource::Mouse }),
            ),
        ),
        s.step(RawInput::MouseLeftDown { pos: p, synthesized: false }, now).0.pointer_down,
        s.step(RawInput::MouseLeftDown { pos: p, synthesized: false }, now).0.active_source
            == PointerSource::Mouse,
{
}

/// Dragging the mouse with the left button held reports a Move to each new
/// place, with full pressure, whether or not the move is large enough to
/// count as significant.
pub proof fn lemma_mouse_drag_moves<P, F>(s: InputView<P, F>, p: P, q: P, significant: bool, t: u64, t2: u64)
    ensures
        s.step(RawInput::MouseLeftDown { pos: p, synthesized: false }, t).0.step(
            RawInput::MouseMotion { pos: q, synthesized: false, significant },
            t2,
        ).1 == Some(
            InputEvent::Pointer(
                PointerEvent::Move(InputSample { pos: q, pressure: s.full_pressure, source: PointerSource::Mouse }),
            ),
        ),
{
}

/// Dragging the pen while it touches reports a Move to each new place, with
/// the last reported pressure.
pub proof fn lemma_pen_drag_moves<P, F>(s: InputView<P, F>, p: P, q: P, significant: bool, t: u64, t2: u64)
    ensures
        s.step(RawInput::PenDown(p), t).0.step(RawInput::PenMotion { pos: q, significant }, t2).1 == Some(
            InputEvent::Pointer(
                PointerEvent::Move(InputSample { pos: q, pressure: s.last_pressure, source: PointerSource::Pen }),
            ),
        ),
{
}

/// Motion with nothing pressed reports nothing: a hovering pen or a mouse
/// moved with the button up only updates the last known position.
pub proof fn lemma_hover_reports_nothing<P, F>(s: InputView<P, F>, q: P, significant: bool, now: u64)
    requires
        !s.pointer_down,
    ensures
        s.step(RawInput::PenMotion { pos: q, significant }, now).1 is None,
        s.step(RawInput::PenMotion { pos: q, significant }, now).0.last_pen_pos == q,
        s.step(RawInput::MouseMotion { pos: q, synthesized: false, significant }, now).1 is None,
        s.step(RawInput::MouseMotion { pos: q, synthesized: false, significant }, now).0.last_mouse_pos == q,
{
}

/// While one device presses, motion of the other reports nothing: a pen
/// stroke is not broken by the mouse, nor a mouse drag by a hovering pen.
pub proof fn lemma_other_device_motion_ignored<P, F>(s: InputView<P, F>, p: P, q: P, significant: bool, t: u64, t2: u64)
    ensures
        s.step(RawInput::PenDown(p), t).0.step(
            RawInput::MouseMotion { pos: q, synthesized: false, significant },
            t2,
        ).1 is None,
        s.step(RawInput::MouseLeftDown { pos: p, synthesized: false }, t).0.step(
            RawInput::PenMotion { pos: q, significant },
            t2,
        ).1 is None,
{
}

/// Releasing reports an Up at the release place, from the device that
/// released, with its pressure (full for the mouse).
pub proof fn lemma_up_reports_up<P, F>(s: InputView<P, F>, q: P, now: u64)
    ensures
        s.step(RawInput::PenUp(q), now).1 == Some(
            InputEvent::Pointer(
                PointerEvent::Up(InputSample { pos: q, pressure: s.last_pressure, source: PointerSource::Pen }),
            ),
        ),
        s.step(RawInput::MouseLeftUp { pos: q, synthesized: false }, now).1 == Some(
            InputEvent::Pointer(
                PointerEvent::Up(InputSample { pos: q, pressure: s.full_pressure, source: PointerSource::Mouse }),
            ),
        ),
{
}

} // verus!
