use orbclient::event::{MOD_ALT_GR, MOD_RSHIFT};
use orbclient::{to_char, Keymap, ModKeys};

#[test]
fn entry_forms() {
    assert_eq!(to_char(b"a"), 'a');
    assert_eq!(to_char(b"\\n"), '\n');
    assert_eq!(to_char(b"\\t"), '\t');
    assert_eq!(to_char(b"\\A"), '\x0A');
    assert_eq!(to_char(b"\\'"), '\'');
    assert_eq!(to_char(b"\\7F"), '\x7F');
    assert_eq!(to_char(b"\\zz"), '\0');
    assert_eq!(to_char(b""), '\0');
    assert_eq!(to_char(b"abcd"), '\0');
}

#[test]
fn default_layout() {
    let k = Keymap::default();
    assert_eq!(k.get_char(0x10, ModKeys::from_bits_truncate(0)), 'q');
    assert_eq!(k.get_char(0x10, ModKeys::from_bits_truncate(MOD_RSHIFT)), 'Q');
    assert_eq!(k.get_char(0x10, ModKeys::from_bits_truncate(MOD_ALT_GR)), '\0');
}

#[test]
fn parse_text() {
    let text = "x\tX\r\ny\tY\tz\tZ\textra\n\n\\41\t\\t";
    let k = Keymap::from_text(text);
    assert_eq!(k.map.len(), 58);
    assert_eq!(k.map[0], ['x', 'X', '\0', '\0']);
    assert_eq!(k.map[1], ['y', 'Y', 'z', 'Z']);
    assert_eq!(k.map[2], ['\0', '\0', '\0', '\0']);
    assert_eq!(k.map[3], ['A', '\t', '\0', '\0']);
    assert_eq!(k.map[4], ['\0', '\0', '\0', '\0']);
}

#[test]
fn default_layout_rows() {
    let k = Keymap::default();
    assert_eq!(k.map.len(), 58);
    assert_eq!(k.map[1], ['\x1B', '\x1B', '\0', '\0']);
    assert_eq!(k.map[30], ['a', 'A', '\0', '\0']);
    assert_eq!(k.map[57], [' ', ' ', '\0', '\0']);
}
