use vstd::prelude::*;

verus! {

pub const EVENT_NONE: i64 = 0;
pub const EVENT_KEY: i64 = 1;
pub const EVENT_MOUSE: i64 = 2;
pub const EVENT_BUTTON: i64 = 3;
pub const EVENT_SCROLL: i64 = 4;
pub const EVENT_QUIT: i64 = 5;
pub const EVENT_FOCUS: i64 = 6;
pub const EVENT_MOVE: i64 = 7;
pub const EVENT_RESIZE: i64 = 8;
pub const EVENT_SCREEN: i64 = 9;

pub const MOD_LSHIFT: u32 = 1;
pub const MOD_RSHIFT: u32 = 2;
pub const MOD_ALT: u32 = 4;
pub const MOD_ALT_GR: u32 = 8;
pub const MOD_SUPER: u32 = 16;

/// All modifier bits.
pub const MOD_ALL: u32 = 31;

/// A set of modifier keys, one bit each (`MOD_LSHIFT` and the others); no
/// other bit can be set.
#[derive(Copy, Clone, Debug, PartialEq, Eq)]
pub struct ModKeys {
    bits: u32,
}

impl ModKeys {
    /// Only modifier bits are set.
    #[verifier::type_invariant]
    spec fn only_modifiers(&self) -> bool {
        self.bits <= MOD_ALL
    }

    /// The bits of the set.
    pub closed spec fn spec_bits(&self) -> u32 {
        self.bits
    }

    /// The modifier keys among `bits`; other bits are dropped.
    pub fn from_bits_truncate(bits: u32) -> (m: ModKeys)
        ensures
            m.spec_bits() == bits & MOD_ALL,
    {
        assert(bits & 31u32 <= 31u32) by (bit_vector);
        ModKeys { bits: bits & MOD_ALL }
    }

    /// The raw bits.
    pub fn bits(&self) -> (r: u32)
        ensures
            r == self.spec_bits(),
            r <= MOD_ALL,
    {
        proof {
            use_type_invariant(self);
        }
        self.bits
    }

    /// Every key of `other` is held.
    pub fn contains(&self, other: u32) -> (r: bool)
        ensures
            r == (self.spec_bits() & other == other),
    {
        self.bits & other == other
    }

    /// Some key of `other` is held.
    pub fn intersects(&self, other: u32) -> (r: bool)
        ensures
            r == (self.spec_bits() & other != 0),
    {
        self.bits & other != 0
    }
}

/// A raw event: a code that says what kind it is, and two values.
#[derive(Copy, Clone, Debug)]
pub struct Event {
    pub code: i64,
    pub a: i64,
    pub b: i64,
}

/// A decoded event.
#[derive(Copy, Clone, Debug)]
pub enum EventOption {
    /// A key event
    Key(KeyEvent),
    /// A mouse event
    Mouse(MouseEvent),
    /// A mouse button event
    Button(ButtonEvent),
    /// A mouse scroll event
    Scroll(ScrollEvent),
    /// A quit request event
    Quit(QuitEvent),
    /// A focus event
    Focus(FocusEvent),
    /// A move event
    Move(MoveEvent),
    /// A resize event
    Resize(ResizeEvent),
    /// A screen report event
    Screen(ScreenEvent),
    /// An unknown event
    Unknown(Event),
    /// No event
    Empty,
}

impl Event {
    /// The null event.
    pub fn new() -> (e: Event)
        ensures
            e.code == EVENT_NONE,
            e.a == 0,
            e.b == 0,
    {
        Event { code: 0, a: 0, b: 0 }
    }

    /// Decodes the event by its code.
    pub fn to_option(self) -> (r: EventOption)
        ensures
            self.code == EVENT_NONE ==> r is Empty,
            self.code == EVENT_KEY ==> (r matches EventOption::Key(k) && KeyEvent::decodes(k, self)),
            self.code == EVENT_MOUSE ==> r == EventOption::Mouse(MouseEvent::spec_from_event(self)),
            self.code == EVENT_BUTTON ==> r == EventOption::Button(ButtonEvent::spec_from_event(self)),
            self.code == EVENT_SCROLL ==> r == EventOption::Scroll(ScrollEvent::spec_from_event(self)),
            self.code == EVENT_QUIT ==> r == EventOption::Quit(QuitEvent),
            self.code == EVENT_FOCUS ==> r == EventOption::Focus(FocusEvent::spec_from_event(self)),
            self.code == EVENT_MOVE ==> r == EventOption::Move(MoveEvent::spec_from_event(self)),
            self.code == EVENT_RESIZE ==> r == EventOption::Resize(ResizeEvent::spec_from_event(self)),
            self.code == EVENT_SCREEN ==> r == EventOption::Screen(ScreenEvent::spec_from_event(self)),
            !(0 <= self.code <= 9) ==> r == EventOption::Unknown(self),
    {
        match self.code {
            EVENT_NONE => EventOption::Empty,
            EVENT_KEY => EventOption::Key(KeyEvent::from_event(self)),
            EVENT_MOUSE => EventOption::Mouse(MouseEvent::from_event(self)),
            EVENT_BUTTON => EventOption::Button(ButtonEvent::from_event(self)),
            EVENT_SCROLL => EventOption::Scroll(ScrollEvent::from_event(self)),
            EVENT_QUIT => EventOption::Quit(QuitEvent::from_event(self)),
            EVENT_FOCUS => EventOption::Focus(FocusEvent::from_event(self)),
            EVENT_MOVE => EventOption::Move(MoveEvent::from_event(self)),
            EVENT_RESIZE => EventOption::Resize(ResizeEvent::from_event(self)),
            EVENT_SCREEN => EventOption::Screen(ScreenEvent::from_event(self)),
            _ => EventOption::Unknown(self),
        }
    }
}

/// `u` is a Unicode scalar value.
pub open spec fn is_scalar(u: u32) -> bool {
    u < 0xD800 || (0xE000 <= u && u <= 0x10FFFF)
}

/// Relies on `char::from_u32`: a character exactly for a Unicode scalar value,
/// and then the one with that code.
#[verifier::external_body]
fn char_from_u32(u: u32) -> (r: Option<char>)
    ensures
        r is Some <==> is_scalar(u),
        r matches Some(c) ==> c as u32 == u,
{
    char::from_u32(u)
}

/// A key event (such as a pressed key).
#[derive(Copy, Clone, Debug)]
pub struct KeyEvent {
    /// The character of the key
    pub character: char,
    /// The keycode of the key.
    pub keycode: u8,
    /// Was it pressed?
    pub pressed: bool,
    /// Modifier keys at the time it was pressed
    pub modifiers: ModKeys,
}

/// The character with code `u`, or NUL where `u` is no Unicode scalar value.
pub open spec fn char_or_nul(u: u32) -> int {
    if is_scalar(u) { u as int } else { 0 }
}

impl KeyEvent {
    /// `k` is what `from_event` decodes from `event`: the character from
    /// `a`, keycode, pressed flag and modifier bits from `b` at bits 0, 8
    /// and 16.
    pub open spec fn decodes(k: KeyEvent, event: Event) -> bool {
        &&& k.character as u32 == char_or_nul(event.a as u32)
        &&& k.keycode == event.b as u8
        &&& k.pressed == (event.b & 0x100 == 0x100)
        &&& k.modifiers.spec_bits() == ((event.b as u32) >> 16u32) & MOD_ALL
    }

    /// Encodes the event: the character in `a`; keycode, pressed flag and
    /// modifier bits in `b` at bits 0, 8 and 16. The event decodes back to
    /// this one.
    pub fn to_event(&self) -> (e: Event)
        ensures
            e.code == EVENT_KEY,
            e.a == self.character as i64,
            e.b == self.keycode + (if self.pressed { 0x100int } else { 0 }) + self.modifiers.spec_bits() * 0x10000,
            Self::decodes(*self, e),
    {
        let m = self.modifiers.bits();
        let k = self.keycode as i64;
        let p = self.pressed as i64;
        let mm = m as i64;
        let b = k | p << 8 | mm << 16;
        assert(b == k + p * 0x100 + mm * 0x10000 && b as u8 == k && (b & 0x100 == 0x100) == (p == 1) && ((b as u32) >> 16u32) & 31u32 == mm) by (bit_vector)
            requires
                0 <= k < 256,
                0 <= p < 2,
                0 <= mm <= 31,
                b == k | p << 8 | mm << 16,
        ;
        assert(is_scalar(self.character as u32));
        Event { code: EVENT_KEY, a: self.character as i64, b }
    }

    /// Decodes a key event.
    pub fn from_event(event: Event) -> (k: KeyEvent)
        ensures
            Self::decodes(k, event),
    {
        let c = match char_from_u32(event.a as u32) {
            Some(c) => c,
            None => '\0',
        };
        KeyEvent {
            character: c,
            keycode: event.b as u8,
            pressed: event.b & 0x100 == 0x100,
            modifiers: ModKeys::from_bits_truncate((event.b as u32) >> 16),
        }
    }
}

/// An event decodes to at most one key event, so `from_event` gives back
/// every key event from its `to_event` encoding.
pub proof fn lemma_key_event_round_trip(k: KeyEvent, d: KeyEvent, e: Event)
    requires
        KeyEvent::decodes(k, e),
        KeyEvent::decodes(d, e),
    ensures
        d == k,
{
    assert(d.modifiers == k.modifiers);
    assert(d.character as u32 == k.character as u32);
}

/// A event related to the mouse.
#[derive(Copy, Clone, Debug)]
pub struct MouseEvent {
    /// The x coordinate of the mouse
    pub x: i32,
    /// The y coordinate of the mouse
    pub y: i32,
}

impl MouseEvent {
    pub open spec fn spec_from_event(event: Event) -> MouseEvent {
        MouseEvent { x: event.a as i32, y: event.b as i32 }
    }

    /// Encodes the event.
    pub fn to_event(&self) -> (e: Event)
        ensures
            e.code == EVENT_MOUSE,
            e.a == self.x,
            e.b == self.y,
    {
        Event { code: EVENT_MOUSE, a: self.x as i64, b: self.y as i64 }
    }

    /// Decodes a mouse event; the values are cut to 32 bits.
    pub fn from_event(event: Event) -> (m: MouseEvent)
        ensures
            m == Self::spec_from_event(event),
    {
        MouseEvent { x: event.a as i32, y: event.b as i32 }
    }
}

/// A event for clicking the mouse.
#[derive(Copy, Clone, Debug)]
pub struct ButtonEvent {
    /// Was the left button pressed?
    pub left: bool,
    /// Was the middle button pressed?
    pub middle: bool,
    /// Was the right button pressed?
    pub right: bool,
}

impl ButtonEvent {
    pub open spec fn spec_from_event(event: Event) -> ButtonEvent {
        ButtonEvent { left: event.a & 1 == 1, middle: event.a & 2 == 2, right: event.a & 4 == 4 }
    }

    /// Encodes the buttons as bits 0, 1 and 2 of `a`.
    pub fn to_event(&self) -> (e: Event)
        ensures
            e.code == EVENT_BUTTON,
            e.a == (if self.left { 1int } else { 0 }) + (if self.middle { 2int } else { 0 }) + (if self.right { 4int } else { 0 }),
            e.b == 0,
    {
        let l = self.left as i64;
        let m = self.middle as i64;
        let r = self.right as i64;
        assert(l | m << 1 | r << 2 == l + 2 * m + 4 * r) by (bit_vector)
            requires
                0 <= l < 2,
                0 <= m < 2,
                0 <= r < 2,
        ;
        Event { code: EVENT_BUTTON, a: l | m << 1 | r << 2, b: 0 }
    }

    /// Decodes a button event.
    pub fn from_event(event: Event) -> (r: ButtonEvent)
        ensures
            r == Self::spec_from_event(event),
    {
        ButtonEvent { left: event.a & 1 == 1, middle: event.a & 2 == 2, right: event.a & 4 == 4 }
    }
}

/// A event for scrolling the mouse.
#[derive(Copy, Clone, Debug)]
pub struct ScrollEvent {
    /// The x distance of the scroll
    pub x: i32,
    /// The y distance of the scroll
    pub y: i32,
}

impl ScrollEvent {
    pub open spec fn spec_from_event(event: Event) -> ScrollEvent {
        ScrollEvent { x: event.a as i32, y: event.b as i32 }
    }

    /// Encodes the event.
    pub fn to_event(&self) -> (e: Event)
        ensures
            e.code == EVENT_SCROLL,
            e.a == self.x,
            e.b == self.y,
    {
        Event { code: EVENT_SCROLL, a: self.x as i64, b: self.y as i64 }
    }

    /// Decodes a scroll event; the values are cut to 32 bits.
    pub fn from_event(event: Event) -> (s: ScrollEvent)
        ensures
            s == Self::spec_from_event(event),
    {
        ScrollEvent { x: event.a as i32, y: event.b as i32 }
    }
}

/// A quit request.
#[derive(Copy, Clone, Debug)]
pub struct QuitEvent;

impl QuitEvent {
    /// Encodes the event.
    pub fn to_event(&self) -> (e: Event)
        ensures
            e.code == EVENT_QUIT,
            e.a == 0,
            e.b == 0,
    {
        Event { code: EVENT_QUIT, a: 0, b: 0 }
    }

    /// Decodes a quit event.
    pub fn from_event(event: Event) -> (q: QuitEvent)
        ensures
            q == QuitEvent,
    {
        QuitEvent
    }
}

/// A focus event.
#[derive(Copy, Clone, Debug)]
pub struct FocusEvent {
    /// True if window has been focused, false if not
    pub focused: bool,
}

impl FocusEvent {
    pub open spec fn spec_from_event(event: Event) -> FocusEvent {
        FocusEvent { focused: event.a > 0 }
    }

    /// Encodes the event.
    pub fn to_event(&self) -> (e: Event)
        ensures
            e.code == EVENT_FOCUS,
            e.a == (if self.focused { 1int } else { 0 }),
            e.b == 0,
    {
        Event { code: EVENT_FOCUS, a: self.focused as i64, b: 0 }
    }

    /// Decodes a focus event.
    pub fn from_event(event: Event) -> (f: FocusEvent)
        ensures
            f == Self::spec_from_event(event),
    {
        FocusEvent { focused: event.a > 0 }
    }
}

/// A move event.
#[derive(Copy, Clone, Debug)]
pub struct MoveEvent {
    pub x: i32,
    pub y: i32,
}

impl MoveEvent {
    pub open spec fn spec_from_event(event: Event) -> MoveEvent {
        MoveEvent { x: event.a as i32, y: event.b as i32 }
    }

    /// Encodes the event.
    pub fn to_event(&self) -> (e: Event)
        ensures
            e.code == EVENT_MOVE,
            e.a == self.x,
            e.b == self.y,
    {
        Event { code: EVENT_MOVE, a: self.x as i64, b: self.y as i64 }
    }

    /// Decodes a move event; the values are cut to 32 bits.
    pub fn from_event(event: Event) -> (m: MoveEvent)
        ensures
            m == Self::spec_from_event(event),
    {
        MoveEvent { x: event.a as i32, y: event.b as i32 }
    }
}

/// A resize event.
#[derive(Copy, Clone, Debug)]
pub struct ResizeEvent {
    pub width: u32,
    pub height: u32,
}

impl ResizeEvent {
    pub open spec fn spec_from_event(event: Event) -> ResizeEvent {
        ResizeEvent { width: event.a as u32, height: event.b as u32 }
    }

    /// Encodes the event.
    pub fn to_event(&self) -> (e: Event)
        ensures
            e.code == EVENT_RESIZE,
            e.a == self.width,
            e.b == self.height,
    {
        Event { code: EVENT_RESIZE, a: self.width as i64, b: self.height as i64 }
    }

    /// Decodes a resize event; the values are cut to 32 bits.
    pub fn from_event(event: Event) -> (r: ResizeEvent)
        ensures
            r == Self::spec_from_event(event),
    {
        ResizeEvent { width: event.a as u32, height: event.b as u32 }
    }
}

/// A screen report event.
#[derive(Copy, Clone, Debug)]
pub struct ScreenEvent {
    pub width: u32,
    pub height: u32,
}

impl ScreenEvent {
    pub open spec fn spec_from_event(event: Event) -> ScreenEvent {
        ScreenEvent { width: event.a as u32, height: event.b as u32 }
    }

    /// Encodes the event.
    pub fn to_event(&self) -> (e: Event)
        ensures
            e.code == EVENT_SCREEN,
            e.a == self.width,
            e.b == self.height,
    {
        Event { code: EVENT_SCREEN, a: self.width as i64, b: self.height as i64 }
    }

    /// Decodes a screen event; the values are cut to 32 bits.
    pub fn from_event(event: Event) -> (s: ScreenEvent)
        ensures
            s == Self::spec_from_event(event),
    {
        ScreenEvent { width: event.a as u32, height: event.b as u32 }
    }
}

} // verus!
