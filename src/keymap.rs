use vstd::prelude::*;
use vstd::string::StringSliceAdditionalSpecFns;

use crate::color::hex_value;
use crate::event::{ModKeys, MOD_ALT_GR, MOD_LSHIFT, MOD_RSHIFT};

verus! {

pub const NUM_MOD_COMBOS: usize = 4;

pub const NUM_SCANCODES: usize = 58;

/// The code of the character that a keymap entry `t` stands for: one byte
/// stands for itself; a backslash form `\n`, `\t`, `\X` (one hexadecimal
/// digit, upper case) or `\c`; three bytes are a backslash and two
/// hexadecimal digits (a `+` may stand for the first); anything else is NUL.
pub open spec fn entry_code(t: Seq<u8>) -> int {
    if t.len() == 1 {
        t[0] as int
    } else if t.len() == 2 {
        if (48 <= t[1] <= 57) || (65 <= t[1] <= 70) {
            hex_value(t[1])
        } else if t[1] == 110 {
            10
        } else if t[1] == 116 {
            9
        } else {
            t[1] as int
        }
    } else if t.len() == 3 {
        if t[1] == 43 && hex_value(t[2]) >= 0 {
            hex_value(t[2])
        } else if hex_value(t[1]) >= 0 && hex_value(t[2]) >= 0 {
            hex_value(t[1]) * 16 + hex_value(t[2])
        } else {
            0
        }
    } else {
        0
    }
}

fn entry_char(s: &[u8], start: usize, end: usize) -> (c: char)
    requires
        start <= end <= s@.len(),
    ensures
        c as int == entry_code(s@.subrange(start as int, end as int)),
{
    let ghost t = s@.subrange(start as int, end as int);
    let n = end - start;
    if n == 1 {
        s[start] as char
    } else if n == 2 {
        let b = s[start + 1];
        if (b >= 48 && b <= 57) || (b >= 65 && b <= 70) {
            match crate::color::hex_digit(b) {
                Some(v) => v as char,
                None => '\0',
            }
        } else if b == 110 {
            '\n'
        } else if b == 116 {
            '\t'
        } else {
            b as char
        }
    } else if n == 3 {
        let hi = s[start + 1];
        let lo = s[start + 2];
        match (crate::color::hex_digit(hi), crate::color::hex_digit(lo)) {
            (_, Some(l)) if hi == 43 => l as char,
            (Some(h), Some(l)) => (h * 16 + l) as char,
            _ => '\0',
        }
    } else {
        '\0'
    }
}

/// Parses a single keymap entry.
pub fn to_char(text: &[u8]) -> (c: char)
    ensures
        c as int == entry_code(text@),
{
    assert(text@.subrange(0, text@.len() as int) =~= text@);
    entry_char(text, 0, text.len())
}

/// The characters of each key under each combination of modifiers.
pub struct Keymap {
    pub map: Vec<[char; 4]>,
}

/// The cells of a keymap: row by scancode, column by modifier combination.
pub open spec fn cells(map: Seq<[char; 4]>) -> Seq<Seq<char>> {
    Seq::new(map.len(), |i: int| map[i]@)
}

/// The cells after the entry `field` for line `i`, column `j`; an entry out
/// of the table is dropped.
pub open spec fn store(m: Seq<Seq<char>>, i: int, j: int, field: Seq<u8>) -> Seq<Seq<char>> {
    if 0 <= i < NUM_SCANCODES && 0 <= j < NUM_MOD_COMBOS {
        m.update(i, m[i].update(j, entry_code(field) as char))
    } else {
        m
    }
}

/// A line's last entry without the carriage return of a `\r\n` ending.
pub open spec fn strip_cr(field: Seq<u8>) -> Seq<u8> {
    if field.len() > 0 && field.last() == 13 {
        field.drop_last()
    } else {
        field
    }
}

/// The empty table.
pub open spec fn blank() -> Seq<Seq<char>> {
    Seq::new(NUM_SCANCODES as nat, |i: int| seq!['\0', '\0', '\0', '\0'])
}

/// The state of reading a keymap text after the bytes `s`: the cells so far,
/// the line, the column, and the bytes of the entry being read.
pub open spec fn read_state(s: Seq<u8>) -> (Seq<Seq<char>>, int, int, Seq<u8>)
    decreases s.len(),
{
    if s.len() == 0 {
        (blank(), 0, 0, Seq::empty())
    } else {
        let (m, i, j, f) = read_state(s.drop_last());
        let b = s.last();
        if b == 10 {
            (store(m, i, j, strip_cr(f)), i + 1, 0, Seq::empty())
        } else if b == 9 {
            (store(m, i, j, f), i, j + 1, Seq::empty())
        } else {
            (m, i, j, f.push(b))
        }
    }
}

/// The table that a keymap text gives: one line per scancode, entries
/// separated by tabs.
pub open spec fn read_keymap(s: Seq<u8>) -> Seq<Seq<char>> {
    let (m, i, j, f) = read_state(s);
    store(m, i, j, f)
}

impl Keymap {
    /// One row for each scancode.
    pub open spec fn wf(&self) -> bool {
        self.map@.len() == NUM_SCANCODES
    }

    /// Writes `c` at row `i`, column `j`.
    fn put(&mut self, i: usize, j: usize, c: char)
        requires
            old(self).wf(),
            i < NUM_SCANCODES,
            j < NUM_MOD_COMBOS,
        ensures
            final(self).wf(),
            cells(final(self).map@) == cells(old(self).map@).update(i as int, cells(old(self).map@)[i as int].update(j as int, c)),
    {
        let row = self.map[i];
        let new_row: [char; 4] = if j == 0 {
            [c, row[1], row[2], row[3]]
        } else if j == 1 {
            [row[0], c, row[2], row[3]]
        } else if j == 2 {
            [row[0], row[1], c, row[3]]
        } else {
            [row[0], row[1], row[2], c]
        };
        assert(new_row@ =~= row@.update(j as int, c));
        self.map[i] = new_row;
        assert(cells(self.map@) =~= cells(old(self).map@).update(i as int, cells(old(self).map@)[i as int].update(j as int, c)));
    }

    /// Reads a keymap text: a line for each scancode, and in it the entries
    /// for each combination of modifiers, separated by tabs.
    pub fn from_text(text: &str) -> (k: Keymap)
        ensures
            k.wf(),
            cells(k.map@) == read_keymap(text.spec_bytes()),
    {
        let s = text.as_bytes();
        let mut k = Keymap { map: Vec::new() };
        let mut r: usize = 0;
        while r < NUM_SCANCODES
            invariant
                r <= NUM_SCANCODES,
                k.map@.len() == r,
                forall|q: int| 0 <= q < r ==> (#[trigger] k.map@[q])@ == seq!['\0', '\0', '\0', '\0'],
            decreases NUM_SCANCODES - r,
        {
            k.map.push(['\0', '\0', '\0', '\0']);
            r = r + 1;
        }
        assert(cells(k.map@) =~= blank()) by {
            assert forall|q: int| 0 <= q < NUM_SCANCODES implies #[trigger] cells(k.map@)[q] =~= blank()[q] by {}
        }
        let mut i: usize = 0;
        let mut j: usize = 0;
        let mut start: usize = 0;
        let mut pos: usize = 0;
        assert(s@.subrange(0, 0) =~= Seq::<u8>::empty());
        while pos < s.len()
            invariant
                k.wf(),
                s@ == text.spec_bytes(),
                start <= pos <= s@.len(),
                i <= pos,
                j <= pos,
                read_state(s@.subrange(0, pos as int)) == (cells(k.map@), i as int, j as int, s@.subrange(start as int, pos as int)),
            decreases s@.len() - pos,
        {
            let b = s[pos];
            let ghost prefix = s@.subrange(0, pos as int + 1);
            proof {
                assert(prefix.drop_last() =~= s@.subrange(0, pos as int));
                assert(prefix.last() == b);
            }
            if b == 10 {
                let end = if pos > start && s[pos - 1] == 13 { pos - 1 } else { pos };
                proof {
                    let f = s@.subrange(start as int, pos as int);
                    if pos > start && s@[pos - 1] == 13 {
                        assert(strip_cr(f) =~= s@.subrange(start as int, end as int));
                    } else {
                        assert(strip_cr(f) =~= s@.subrange(start as int, end as int));
                    }
                }
                if i < NUM_SCANCODES && j < NUM_MOD_COMBOS {
                    let c = entry_char(s, start, end);
                    k.put(i, j, c);
                }
                i = i + 1;
                j = 0;
                start = pos + 1;
            } else if b == 9 {
                if i < NUM_SCANCODES && j < NUM_MOD_COMBOS {
                    let c = entry_char(s, start, pos);
                    k.put(i, j, c);
                }
                j = j + 1;
                start = pos + 1;
            } else {
                proof {
                    assert(s@.subrange(start as int, pos as int).push(b) =~= s@.subrange(start as int, pos as int + 1));
                }
            }
            pos = pos + 1;
            proof {
                assert(s@.subrange(start as int, pos as int) =~= s@.subrange(start as int, pos as int));
                if b == 10 || b == 9 {
                    assert(s@.subrange(start as int, pos as int) =~= Seq::<u8>::empty());
                }
            }
        }
        assert(s@.subrange(0, pos as int) =~= s@);
        if i < NUM_SCANCODES && j < NUM_MOD_COMBOS {
            let c = entry_char(s, start, pos);
            k.put(i, j, c);
        }
        k
    }

    /// The character of key `keycode` under `modifiers`.
    pub fn get_char(&self, keycode: u8, modifiers: ModKeys) -> (c: char)
        requires
            self.wf(),
            keycode < NUM_SCANCODES,
        ensures
            c == self.map@[keycode as int]@[Self::spec_mods_to_index(modifiers)],
    {
        let row = self.map[keycode as usize];
        row[Keymap::mods_to_index(modifiers)]
    }

    /// Column 0 plain, 1 with shift, 2 with AltGr, 3 with both.
    pub open spec fn spec_mods_to_index(m: ModKeys) -> int {
        (if m.spec_bits() & MOD_ALT_GR == MOD_ALT_GR { 2int } else { 0 }) + (if m.spec_bits() & (MOD_LSHIFT | MOD_RSHIFT) != 0 { 1int } else { 0 })
    }

    fn mods_to_index(m: ModKeys) -> (r: usize)
        ensures
            r == Self::spec_mods_to_index(m),
            r < 4,
    {
        let alt_gr: usize = if m.contains(MOD_ALT_GR) { 2 } else { 0 };
        let shift: usize = if m.intersects(MOD_LSHIFT | MOD_RSHIFT) { 1 } else { 0 };
        alt_gr + shift
    }
}

/// The English layout: plain and shifted characters, nothing under AltGr.
pub open spec fn english_layout() -> Seq<[char; 4]> {
    seq![
        ['\0', '\0', '\0', '\0'],
        ['\x1B', '\x1B', '\0', '\0'],
        ['1', '!', '\0', '\0'],
        ['2', '@', '\0', '\0'],
        ['3', '#', '\0', '\0'],
        ['4', '$', '\0', '\0'],
        ['5', '%', '\0', '\0'],
        ['6', '^', '\0', '\0'],
        ['7', '&', '\0', '\0'],
        ['8', '*', '\0', '\0'],
        ['9', '(', '\0', '\0'],
        ['0', ')', '\0', '\0'],
        ['-', '_', '\0', '\0'],
        ['=', '+', '\0', '\0'],
        ['\x7F', '\x7F', '\0', '\0'],
        ['\t', '\t', '\0', '\0'],
        ['q', 'Q', '\0', '\0'],
        ['w', 'W', '\0', '\0'],
        ['e', 'E', '\0', '\0'],
        ['r', 'R', '\0', '\0'],
        ['t', 'T', '\0', '\0'],
        ['y', 'Y', '\0', '\0'],
        ['u', 'U', '\0', '\0'],
        ['i', 'I', '\0', '\0'],
        ['o', 'O', '\0', '\0'],
        ['p', 'P', '\0', '\0'],
        ['[', '{', '\0', '\0'],
        [']', '}', '\0', '\0'],
        ['\n', '\n', '\0', '\0'],
        ['\0', '\0', '\0', '\0'],
        ['a', 'A', '\0', '\0'],
        ['s', 'S', '\0', '\0'],
        ['d', 'D', '\0', '\0'],
        ['f', 'F', '\0', '\0'],
        ['g', 'G', '\0', '\0'],
        ['h', 'H', '\0', '\0'],
        ['j', 'J', '\0', '\0'],
        ['k', 'K', '\0', '\0'],
        ['l', 'L', '\0', '\0'],
        [';', ':', '\0', '\0'],
        ['\'', '"', '\0', '\0'],
        ['`', '~', '\0', '\0'],
        ['\0', '\0', '\0', '\0'],
        ['\\', '|', '\0', '\0'],
        ['z', 'Z', '\0', '\0'],
        ['x', 'X', '\0', '\0'],
        ['c', 'C', '\0', '\0'],
        ['v', 'V', '\0', '\0'],
        ['b', 'B', '\0', '\0'],
        ['n', 'N', '\0', '\0'],
        ['m', 'M', '\0', '\0'],
        [',', '<', '\0', '\0'],
        ['.', '>', '\0', '\0'],
        ['/', '?', '\0', '\0'],
        ['\0', '\0', '\0', '\0'],
        ['\0', '\0', '\0', '\0'],
        ['\0', '\0', '\0', '\0'],
        [' ', ' ', '\0', '\0'],
    ]
}

impl Default for Keymap {
    /// The English layout.
    fn default() -> (k: Keymap)
        ensures
            k.wf(),
            k.map@ == english_layout(),
    {
        let map: Vec<[char; 4]> = vec![
            ['\0', '\0', '\0', '\0'],
            ['\x1B', '\x1B', '\0', '\0'],
            ['1', '!', '\0', '\0'],
            ['2', '@', '\0', '\0'],
            ['3', '#', '\0', '\0'],
            ['4', '$', '\0', '\0'],
            ['5', '%', '\0', '\0'],
            ['6', '^', '\0', '\0'],
            ['7', '&', '\0', '\0'],
            ['8', '*', '\0', '\0'],
            ['9', '(', '\0', '\0'],
            ['0', ')', '\0', '\0'],
            ['-', '_', '\0', '\0'],
            ['=', '+', '\0', '\0'],
            ['\x7F', '\x7F', '\0', '\0'],
            ['\t', '\t', '\0', '\0'],
            ['q', 'Q', '\0', '\0'],
            ['w', 'W', '\0', '\0'],
            ['e', 'E', '\0', '\0'],
            ['r', 'R', '\0', '\0'],
            ['t', 'T', '\0', '\0'],
            ['y', 'Y', '\0', '\0'],
            ['u', 'U', '\0', '\0'],
            ['i', 'I', '\0', '\0'],
            ['o', 'O', '\0', '\0'],
            ['p', 'P', '\0', '\0'],
            ['[', '{', '\0', '\0'],
            [']', '}', '\0', '\0'],
            ['\n', '\n', '\0', '\0'],
            ['\0', '\0', '\0', '\0'],
            ['a', 'A', '\0', '\0'],
            ['s', 'S', '\0', '\0'],
            ['d', 'D', '\0', '\0'],
            ['f', 'F', '\0', '\0'],
            ['g', 'G', '\0', '\0'],
            ['h', 'H', '\0', '\0'],
            ['j', 'J', '\0', '\0'],
            ['k', 'K', '\0', '\0'],
            ['l', 'L', '\0', '\0'],
            [';', ':', '\0', '\0'],
            ['\'', '"', '\0', '\0'],
            ['`', '~', '\0', '\0'],
            ['\0', '\0', '\0', '\0'],
            ['\\', '|', '\0', '\0'],
            ['z', 'Z', '\0', '\0'],
            ['x', 'X', '\0', '\0'],
            ['c', 'C', '\0', '\0'],
            ['v', 'V', '\0', '\0'],
            ['b', 'B', '\0', '\0'],
            ['n', 'N', '\0', '\0'],
            ['m', 'M', '\0', '\0'],
            [',', '<', '\0', '\0'],
            ['.', '>', '\0', '\0'],
            ['/', '?', '\0', '\0'],
            ['\0', '\0', '\0', '\0'],
            ['\0', '\0', '\0', '\0'],
            ['\0', '\0', '\0', '\0'],
            [' ', ' ', '\0', '\0'],
        ];
        assert(map@ =~= english_layout());
        Keymap { map }
    }
}

} // verus!
