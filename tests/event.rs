use orbclient::event::{EVENT_KEY, EVENT_NONE, MOD_ALT_GR, MOD_LSHIFT};
use orbclient::{
    ButtonEvent, Event, EventOption, FocusEvent, KeyEvent, ModKeys, MouseEvent, MoveEvent, QuitEvent,
    ResizeEvent, ScreenEvent, ScrollEvent,
};

#[test]
fn null_event_decodes_to_empty() {
    let e = Event::new();
    assert_eq!(e.code, EVENT_NONE);
    assert!(matches!(e.to_option(), EventOption::Empty));
}

#[test]
fn key_event_round_trip() {
    let k = KeyEvent {
        character: 'q',
        keycode: 0x10,
        pressed: true,
        modifiers: ModKeys::from_bits_truncate(MOD_LSHIFT | MOD_ALT_GR),
    };
    let e = k.to_event();
    assert_eq!(e.code, EVENT_KEY);
    assert_eq!(e.a, 'q' as i64);
    assert_eq!(e.b, 0x10 | 0x100 | (9 << 16));
    match e.to_option() {
        EventOption::Key(d) => {
            assert_eq!(d.character, 'q');
            assert_eq!(d.keycode, 0x10);
            assert!(d.pressed);
            assert_eq!(d.modifiers.bits(), 9);
        }
        _ => panic!("not a key event"),
    }
}

#[test]
fn key_event_bad_character_is_nul() {
    let e = Event { code: EVENT_KEY, a: 0xD800, b: 0xFF_0000 | 0x2A };
    let k = KeyEvent::from_event(e);
    assert_eq!(k.character, '\0');
    assert_eq!(k.keycode, 0x2A);
    assert!(!k.pressed);
    assert_eq!(k.modifiers.bits(), 0x1F);
    let e = Event { code: EVENT_KEY, a: 0x1F600, b: 0 };
    assert_eq!(KeyEvent::from_event(e).character, '\u{1F600}');
}

#[test]
fn other_events_round_trip() {
    let m = MouseEvent::from_event(MouseEvent { x: -5, y: 7 }.to_event());
    assert_eq!((m.x, m.y), (-5, 7));
    let b = ButtonEvent { left: true, middle: false, right: true }.to_event();
    assert_eq!(b.a, 5);
    let b = ButtonEvent::from_event(b);
    assert!(b.left && !b.middle && b.right);
    let s = ScrollEvent::from_event(ScrollEvent { x: 1, y: -1 }.to_event());
    assert_eq!((s.x, s.y), (1, -1));
    assert!(matches!(QuitEvent.to_event().to_option(), EventOption::Quit(_)));
    let f = FocusEvent::from_event(FocusEvent { focused: true }.to_event());
    assert!(f.focused);
    let mv = MoveEvent::from_event(MoveEvent { x: 3, y: 4 }.to_event());
    assert_eq!((mv.x, mv.y), (3, 4));
    let r = ResizeEvent::from_event(ResizeEvent { width: 640, height: 480 }.to_event());
    assert_eq!((r.width, r.height), (640, 480));
    let sc = ScreenEvent::from_event(ScreenEvent { width: 800, height: 600 }.to_event());
    assert_eq!((sc.width, sc.height), (800, 600));
}

#[test]
fn unknown_code_is_kept() {
    let e = Event { code: 42, a: 1, b: 2 };
    match e.to_option() {
        EventOption::Unknown(u) => assert_eq!((u.code, u.a, u.b), (42, 1, 2)),
        _ => panic!("expected an unknown event"),
    }
}

#[test]
fn modifiers_hold_only_modifier_bits() {
    let m = ModKeys::from_bits_truncate(32 | MOD_LSHIFT);
    assert_eq!(m.bits(), MOD_LSHIFT);
    let k = KeyEvent { character: 'a', keycode: 3, pressed: false, modifiers: m };
    let d = KeyEvent::from_event(k.to_event());
    assert_eq!((d.character, d.keycode, d.pressed, d.modifiers), (k.character, k.keycode, k.pressed, k.modifiers));
}
