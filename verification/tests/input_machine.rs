use hwboard::input::{
    InputEvent, InputSample, InputState, PointerEvent, PointerSource, RawInput, SideButton,
    HOLD_DURATION_MS,
};

type Pos = [f32; 2];
type State = InputState<Pos, f32>;

fn pointer(ev: Option<InputEvent<InputSample<Pos, f32>>>) -> PointerEvent<InputSample<Pos, f32>> {
    match ev {
        Some(InputEvent::Pointer(p)) => p,
        other => panic!("expected a pointer event, got {:?}", other),
    }
}

#[test]
fn pen_stroke_reports_down_move_up_with_pressure() {
    let mut st: State = InputState::new([0.0, 0.0], 1.0, 0);
    assert!(st.process_event(RawInput::PenPressure(0.5), 0).is_none());
    match pointer(st.process_event(RawInput::PenDown([1.0, 2.0]), 10)) {
        PointerEvent::Down(s) => {
            assert_eq!(s.pos, [1.0, 2.0]);
            assert_eq!(s.pressure, 0.5);
            assert_eq!(s.source, PointerSource::Pen);
        }
        e => panic!("{:?}", e),
    }
    assert!(st.is_pen_down());
    match pointer(st.process_event(RawInput::PenMotion { pos: [5.0, 2.0], significant: true }, 20)) {
        PointerEvent::Move(s) => assert_eq!(s.pos, [5.0, 2.0]),
        e => panic!("{:?}", e),
    }
    match pointer(st.process_event(RawInput::PenUp([5.0, 3.0]), 30)) {
        PointerEvent::Up(s) => assert_eq!(s.pos, [5.0, 3.0]),
        e => panic!("{:?}", e),
    }
    assert!(!st.is_pen_down());
    assert_eq!(st.last_pen_pos(), [5.0, 3.0]);
}

#[test]
fn hovering_pen_moves_nothing() {
    let mut st: State = InputState::new([0.0, 0.0], 1.0, 0);
    assert!(st.process_event(RawInput::PenMotion { pos: [3.0, 3.0], significant: true }, 5).is_none());
    assert_eq!(st.last_pen_pos(), [3.0, 3.0]);
}

#[test]
fn hold_fires_once_after_stillness() {
    let mut st: State = InputState::new([0.0, 0.0], 1.0, 0);
    st.process_event(RawInput::PenDown([1.0, 1.0]), 100);
    assert!(st.update(100 + HOLD_DURATION_MS - 1).is_none());
    match pointer(st.update(100 + HOLD_DURATION_MS)) {
        PointerEvent::Hold(s) => assert_eq!(s.pos, [1.0, 1.0]),
        e => panic!("{:?}", e),
    }
    assert!(st.update(100 + 5 * HOLD_DURATION_MS).is_none());
    // A jittery move does not restart the stillness period.
    st.process_event(RawInput::PenMotion { pos: [1.5, 1.0], significant: false }, 3000);
    assert!(st.update(9000).is_none());
    // A significant move does.
    st.process_event(RawInput::PenMotion { pos: [9.0, 1.0], significant: true }, 10_000);
    assert!(st.update(10_500).is_none());
    match pointer(st.update(11_000)) {
        PointerEvent::Hold(s) => assert_eq!(s.pos, [9.0, 1.0]),
        e => panic!("{:?}", e),
    }
}

#[test]
fn no_hold_when_released_or_clock_behind() {
    let mut st: State = InputState::new([0.0, 0.0], 1.0, 500);
    assert!(st.update(10_000).is_none());
    st.process_event(RawInput::MouseLeftDown { pos: [0.0, 0.0], synthesized: false }, 5000);
    assert!(st.update(4000).is_none());
}

#[test]
fn synthesized_mouse_is_ignored() {
    let mut st: State = InputState::new([0.0, 0.0], 1.0, 0);
    assert!(st.process_event(RawInput::MouseLeftDown { pos: [4.0, 4.0], synthesized: true }, 1).is_none());
    assert_eq!(st.last_mouse_pos(), [0.0, 0.0]);
    match pointer(st.process_event(RawInput::MouseLeftDown { pos: [4.0, 4.0], synthesized: false }, 1)) {
        PointerEvent::Down(s) => {
            assert_eq!(s.source, PointerSource::Mouse);
            assert_eq!(s.pressure, 1.0);
        }
        e => panic!("{:?}", e),
    }
    assert!(!st.is_pen_down());
}

#[test]
fn proximity_out_ends_a_pen_press() {
    let mut st: State = InputState::new([0.0, 0.0], 1.0, 0);
    assert!(st.process_event(RawInput::PenProximityOut, 1).is_none());
    st.process_event(RawInput::PenDown([2.0, 2.0]), 2);
    match pointer(st.process_event(RawInput::PenProximityOut, 3)) {
        PointerEvent::Up(s) => assert_eq!(s.pos, [2.0, 2.0]),
        e => panic!("{:?}", e),
    }
    assert!(!st.is_pen_down());
}

#[test]
fn side_buttons_pass_through() {
    let mut st: State = InputState::new([0.0, 0.0], 1.0, 0);
    match st.process_event(RawInput::MouseSideDown(SideButton::X1), 0) {
        Some(InputEvent::MouseSideButton { button, pressed }) => {
            assert_eq!(button, SideButton::X1);
            assert!(pressed);
        }
        e => panic!("{:?}", e),
    }
    match st.process_event(RawInput::MouseSideUp(SideButton::X2), 0) {
        Some(InputEvent::MouseSideButton { button, pressed }) => {
            assert_eq!(button, SideButton::X2);
            assert!(!pressed);
        }
        e => panic!("{:?}", e),
    }
}

#[test]
fn sample_reads_any_event() {
    let s = InputSample { pos: [1.0f32, 2.0], pressure: 0.3f32, source: PointerSource::Pen };
    assert_eq!(PointerEvent::Hold(s).sample().pressure, 0.3);
    assert_eq!(PointerEvent::Up(s).sample().pos, [1.0, 2.0]);
}
