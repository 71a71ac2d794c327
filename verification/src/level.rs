use vstd::prelude::*;

use crate::object::{Kind, Object};

verus! {

/// Rejection of malformed level text: a glyph outside the fixed table, a
/// cell beyond the legal extent, or a cell whose declared ends match no
/// neighbor.
#[derive(Clone, Copy, Debug, PartialEq, Eq, Structural)]
pub struct ParseLevelError;

/// The fixed table from level glyph to (connector mask, kind).  Space never
/// reaches this table; any glyph it does not list makes the level malformed.
pub open spec fn glyph_segment(c: char) -> Option<(i32, Kind)> {
    match c {
        '█' => Some((0, Kind::Plain)),
        '◊' => Some((0, Kind::Volatile)),
        '╵' => Some((0b00001000, Kind::Plain)),
        '╹' => Some((0b10000000, Kind::Wide)),
        '╶' => Some((0b00000100, Kind::Plain)),
        '╺' => Some((0b01000000, Kind::Wide)),
        '╷' => Some((0b00000010, Kind::Plain)),
        '╻' => Some((0b00100000, Kind::Wide)),
        '╴' => Some((0b00000001, Kind::Plain)),
        '╸' => Some((0b00010000, Kind::Wide)),
        '└' => Some((0b00001100, Kind::Plain)),
        '┖' => Some((0b10000100, Kind::Wide)),
        '┕' => Some((0b01001000, Kind::Wide)),
        '┗' => Some((0b11000000, Kind::Wide)),
        '╙' => Some((0b10000100, Kind::Door)),
        '╘' => Some((0b01001000, Kind::Door)),
        '╚' => Some((0b11000000, Kind::Door)),
        '┌' => Some((0b00000110, Kind::Plain)),
        '┍' => Some((0b01000010, Kind::Wide)),
        '┎' => Some((0b00100100, Kind::Wide)),
        '┏' => Some((0b01100000, Kind::Wide)),
        '╒' => Some((0b01000010, Kind::Door)),
        '╓' => Some((0b00100100, Kind::Door)),
        '╔' => Some((0b01100000, Kind::Door)),
        '┐' => Some((0b00000011, Kind::Plain)),
        '┒' => Some((0b00100001, Kind::Wide)),
        '┑' => Some((0b00010010, Kind::Wide)),
        '┓' => Some((0b00110000, Kind::Wide)),
        '╖' => Some((0b00100001, Kind::Door)),
        '╕' => Some((0b00010010, Kind::Door)),
        '╗' => Some((0b00110000, Kind::Door)),
        '┘' => Some((0b00001001, Kind::Plain)),
        '┚' => Some((0b10000001, Kind::Wide)),
        '┙' => Some((0b00011000, Kind::Wide)),
        '┛' => Some((0b10010000, Kind::Wide)),
        '╜' => Some((0b10000001, Kind::Door)),
        '╛' => Some((0b00011000, Kind::Door)),
        '╝' => Some((0b10010000, Kind::Door)),
        '│' => Some((0b00001010, Kind::Plain)),
        '╿' => Some((0b10000010, Kind::Wide)),
        '╽' => Some((0b00101000, Kind::Wide)),
        '┃' => Some((0b10100000, Kind::Wide)),
        '║' => Some((0b10100000, Kind::Door)),
        '─' => Some((0b00000101, Kind::Plain)),
        '╼' => Some((0b01000001, Kind::Wide)),
        '╾' => Some((0b00010100, Kind::Wide)),
        '━' => Some((0b01010000, Kind::Wide)),
        '═' => Some((0b01010000, Kind::Door)),
        '├' => Some((0b00001110, Kind::Plain)),
        '┞' => Some((0b10000110, Kind::Wide)),
        '┝' => Some((0b01001010, Kind::Wide)),
        '┟' => Some((0b00101100, Kind::Wide)),
        '┡' => Some((0b11000010, Kind::Wide)),
        '┢' => Some((0b01101000, Kind::Wide)),
        '┠' => Some((0b10100100, Kind::Wide)),
        '┣' => Some((0b11100000, Kind::Wide)),
        '╞' => Some((0b01001010, Kind::Door)),
        '╟' => Some((0b10100100, Kind::Door)),
        '╠' => Some((0b11100000, Kind::Door)),
        '┬' => Some((0b00000111, Kind::Plain)),
        '┮' => Some((0b01000011, Kind::Wide)),
        '┰' => Some((0b00100101, Kind::Wide)),
        '┭' => Some((0b00010110, Kind::Wide)),
        '┲' => Some((0b01100001, Kind::Wide)),
        '┱' => Some((0b00110100, Kind::Wide)),
        '┯' => Some((0b01010010, Kind::Wide)),
        '┳' => Some((0b01110000, Kind::Wide)),
        '╥' => Some((0b00100101, Kind::Door)),
        '╤' => Some((0b01010010, Kind::Door)),
        '╦' => Some((0b01110000, Kind::Door)),
        '┤' => Some((0b00001011, Kind::Plain)),
        '┦' => Some((0b10000011, Kind::Wide)),
        '┧' => Some((0b00101001, Kind::Wide)),
        '┥' => Some((0b00011010, Kind::Wide)),
        '┩' => Some((0b10010010, Kind::Wide)),
        '┨' => Some((0b10100001, Kind::Wide)),
        '┪' => Some((0b00111000, Kind::Wide)),
        '┫' => Some((0b10110000, Kind::Wide)),
        '╢' => Some((0b10100001, Kind::Door)),
        '╡' => Some((0b00011010, Kind::Door)),
        '╣' => Some((0b10110000, Kind::Door)),
        '┴' => Some((0b00001101, Kind::Plain)),
        '┸' => Some((0b10000101, Kind::Wide)),
        '┶' => Some((0b01001001, Kind::Wide)),
        '┵' => Some((0b00011100, Kind::Wide)),
        '┺' => Some((0b11000001, Kind::Wide)),
        '┷' => Some((0b01011000, Kind::Wide)),
        '┹' => Some((0b10010100, Kind::Wide)),
        '┻' => Some((0b11010000, Kind::Wide)),
        '╨' => Some((0b10000101, Kind::Door)),
        '╧' => Some((0b01011000, Kind::Door)),
        '╩' => Some((0b11010000, Kind::Door)),
        '┼' => Some((0b00001111, Kind::Plain)),
        '╀' => Some((0b10000111, Kind::Wide)),
        '┾' => Some((0b01001011, Kind::Wide)),
        '╁' => Some((0b00101101, Kind::Wide)),
        '┽' => Some((0b00011110, Kind::Wide)),
        '╄' => Some((0b11000011, Kind::Wide)),
        '╂' => Some((0b10100101, Kind::Wide)),
        '╃' => Some((0b10010110, Kind::Wide)),
        '╆' => Some((0b01101001, Kind::Wide)),
        '┿' => Some((0b01011010, Kind::Wide)),
        '╅' => Some((0b00111100, Kind::Wide)),
        '╊' => Some((0b11100001, Kind::Wide)),
        '╇' => Some((0b11010010, Kind::Wide)),
        '╉' => Some((0b10110100, Kind::Wide)),
        '╈' => Some((0b01111000, Kind::Wide)),
        '╋' => Some((0b11110000, Kind::Wide)),
        '╫' => Some((0b10100101, Kind::Door)),
        '╪' => Some((0b01011010, Kind::Door)),
        '╬' => Some((0b11110000, Kind::Door)),
        _ => Option::<(i32, Kind)>::None,
    }
}

/// Decides [`glyph_segment`].
pub fn glyph_to_segment(c: char) -> (r: Option<(i32, Kind)>)
    ensures
        r == glyph_segment(c),
{
    match c {
        '█' => Some((0, Kind::Plain)),
        '◊' => Some((0, Kind::Volatile)),
        '╵' => Some((0b00001000, Kind::Plain)),
        '╹' => Some((0b10000000, Kind::Wide)),
        '╶' => Some((0b00000100, Kind::Plain)),
        '╺' => Some((0b01000000, Kind::Wide)),
        '╷' => Some((0b00000010, Kind::Plain)),
        '╻' => Some((0b00100000, Kind::Wide)),
        '╴' => Some((0b00000001, Kind::Plain)),
        '╸' => Some((0b00010000, Kind::Wide)),
        '└' => Some((0b00001100, Kind::Plain)),
        '┖' => Some((0b10000100, Kind::Wide)),
        '┕' => Some((0b01001000, Kind::Wide)),
        '┗' => Some((0b11000000, Kind::Wide)),
        '╙' => Some((0b10000100, Kind::Door)),
        '╘' => Some((0b01001000, Kind::Door)),
        '╚' => Some((0b11000000, Kind::Door)),
        '┌' => Some((0b00000110, Kind::Plain)),
        '┍' => Some((0b01000010, Kind::Wide)),
        '┎' => Some((0b00100100, Kind::Wide)),
        '┏' => Some((0b01100000, Kind::Wide)),
        '╒' => Some((0b01000010, Kind::Door)),
        '╓' => Some((0b00100100, Kind::Door)),
        '╔' => Some((0b01100000, Kind::Door)),
        '┐' => Some((0b00000011, Kind::Plain)),
        '┒' => Some((0b00100001, Kind::Wide)),
        '┑' => Some((0b00010010, Kind::Wide)),
        '┓' => Some((0b00110000, Kind::Wide)),
        '╖' => Some((0b00100001, Kind::Door)),
        '╕' => Some((0b00010010, Kind::Door)),
        '╗' => Some((0b00110000, Kind::Door)),
        '┘' => Some((0b00001001, Kind::Plain)),
        '┚' => Some((0b10000001, Kind::Wide)),
        '┙' => Some((0b00011000, Kind::Wide)),
        '┛' => Some((0b10010000, Kind::Wide)),
        '╜' => Some((0b10000001, Kind::Door)),
        '╛' => Some((0b00011000, Kind::Door)),
        '╝' => Some((0b10010000, Kind::Door)),
        '│' => Some((0b00001010, Kind::Plain)),
        '╿' => Some((0b10000010, Kind::Wide)),
        '╽' => Some((0b00101000, Kind::Wide)),
        '┃' => Some((0b10100000, Kind::Wide)),
        '║' => Some((0b10100000, Kind::Door)),
        '─' => Some((0b00000101, Kind::Plain)),
        '╼' => Some((0b01000001, Kind::Wide)),
        '╾' => Some((0b00010100, Kind::Wide)),
        '━' => Some((0b01010000, Kind::Wide)),
        '═' => Some((0b01010000, Kind::Door)),
        '├' => Some((0b00001110, Kind::Plain)),
        '┞' => Some((0b10000110, Kind::Wide)),
        '┝' => Some((0b01001010, Kind::Wide)),
        '┟' => Some((0b00101100, Kind::Wide)),
        '┡' => Some((0b11000010, Kind::Wide)),
        '┢' => Some((0b01101000, Kind::Wide)),
        '┠' => Some((0b10100100, Kind::Wide)),
        '┣' => Some((0b11100000, Kind::Wide)),
        '╞' => Some((0b01001010, Kind::Door)),
        '╟' => Some((0b10100100, Kind::Door)),
        '╠' => Some((0b11100000, Kind::Door)),
        '┬' => Some((0b00000111, Kind::Plain)),
        '┮' => Some((0b01000011, Kind::Wide)),
        '┰' => Some((0b00100101, Kind::Wide)),
        '┭' => Some((0b00010110, Kind::Wide)),
        '┲' => Some((0b01100001, Kind::Wide)),
        '┱' => Some((0b00110100, Kind::Wide)),
        '┯' => Some((0b01010010, Kind::Wide)),
        '┳' => Some((0b01110000, Kind::Wide)),
        '╥' => Some((0b00100101, Kind::Door)),
        '╤' => Some((0b01010010, Kind::Door)),
        '╦' => Some((0b01110000, Kind::Door)),
        '┤' => Some((0b00001011, Kind::Plain)),
        '┦' => Some((0b10000011, Kind::Wide)),
        '┧' => Some((0b00101001, Kind::Wide)),
        '┥' => Some((0b00011010, Kind::Wide)),
        '┩' => Some((0b10010010, Kind::Wide)),
        '┨' => Some((0b10100001, Kind::Wide)),
        '┪' => Some((0b00111000, Kind::Wide)),
        '┫' => Some((0b10110000, Kind::Wide)),
        '╢' => Some((0b10100001, Kind::Door)),
        '╡' => Some((0b00011010, Kind::Door)),
        '╣' => Some((0b10110000, Kind::Door)),
        '┴' => Some((0b00001101, Kind::Plain)),
        '┸' => Some((0b10000101, Kind::Wide)),
        '┶' => Some((0b01001001, Kind::Wide)),
        '┵' => Some((0b00011100, Kind::Wide)),
        '┺' => Some((0b11000001, Kind::Wide)),
        '┷' => Some((0b01011000, Kind::Wide)),
        '┹' => Some((0b10010100, Kind::Wide)),
        '┻' => Some((0b11010000, Kind::Wide)),
        '╨' => Some((0b10000101, Kind::Door)),
        '╧' => Some((0b01011000, Kind::Door)),
        '╩' => Some((0b11010000, Kind::Door)),
        '┼' => Some((0b00001111, Kind::Plain)),
        '╀' => Some((0b10000111, Kind::Wide)),
        '┾' => Some((0b01001011, Kind::Wide)),
        '╁' => Some((0b00101101, Kind::Wide)),
        '┽' => Some((0b00011110, Kind::Wide)),
        '╄' => Some((0b11000011, Kind::Wide)),
        '╂' => Some((0b10100101, Kind::Wide)),
        '╃' => Some((0b10010110, Kind::Wide)),
        '╆' => Some((0b01101001, Kind::Wide)),
        '┿' => Some((0b01011010, Kind::Wide)),
        '╅' => Some((0b00111100, Kind::Wide)),
        '╊' => Some((0b11100001, Kind::Wide)),
        '╇' => Some((0b11010010, Kind::Wide)),
        '╉' => Some((0b10110100, Kind::Wide)),
        '╈' => Some((0b01111000, Kind::Wide)),
        '╋' => Some((0b11110000, Kind::Wide)),
        '╫' => Some((0b10100101, Kind::Door)),
        '╪' => Some((0b01011010, Kind::Door)),
        '╬' => Some((0b11110000, Kind::Door)),
        _ => Option::<(i32, Kind)>::None,
    }
}

/// The raw cells of the level text from index `i` on, with 1-based column
/// counter `x` and row counter `y`: every character that is not a space and
/// not part of a line break yields one `(glyph, column, row)` entry.  Line
/// breaks are `\r\n`, `\r` or `\n`.
pub open spec fn raw_items(s: Seq<char>, i: int, x: int, y: int) -> Seq<(char, int, int)>
    decreases s.len() - i when 0 <= i <= s.len()
{
    if i >= s.len() {
        Seq::empty()
    } else if s[i] == '\r' {
        if i + 1 < s.len() && s[i + 1] == '\n' {
            raw_items(s, i + 2, 1, y + 1)
        } else {
            raw_items(s, i + 1, 1, y + 1)
        }
    } else if s[i] == '\n' {
        raw_items(s, i + 1, 1, y + 1)
    } else if s[i] == ' ' {
        raw_items(s, i + 1, x + 1, y)
    } else {
        seq![(s[i], x, y)] + raw_items(s, i + 1, x + 1, y)
    }
}

/// The raw cells of a whole level text.
pub open spec fn spec_raw_cells(s: Seq<char>) -> Seq<(char, int, int)> {
    raw_items(s, 0, 1, 1)
}

/// Some raw cell's glyph is outside the fixed table.
pub open spec fn has_bad_glyph(items: Seq<(char, int, int)>) -> bool {
    exists|k: int| 0 <= k < items.len() && glyph_segment(#[trigger] items[k].0) is None
}

/// Some raw cell lies beyond the legal coordinate extent.
pub open spec fn has_oob_cell(items: Seq<(char, int, int)>) -> bool {
    exists|k: int|
        0 <= k < items.len() && ((#[trigger] items[k]).1 > crate::object::MAX_COORD as int
            || items[k].2 > crate::object::MAX_COORD as int)
}

/// The segment a raw cell stands for, before any shape is assigned: id and
/// shape are placeholders for the engine to fill in.
pub open spec fn cell_object(item: (char, int, int)) -> Object {
    Object {
        id: 0,
        shape: 0,
        color: Option::None,
        connectors: (glyph_segment(item.0)->Some_0).0,
        kind: (glyph_segment(item.0)->Some_0).1,
        pos: (item.1 as u16, item.2 as u16),
    }
}

/// The segments of a well-formed raw cell list, in text order.
pub open spec fn cell_objects(items: Seq<(char, int, int)>) -> Seq<Object>
    decreases items.len(),
{
    if items.len() == 0 {
        Seq::empty()
    } else {
        cell_objects(items.drop_last()).push(cell_object(items.last()))
    }
}

/// Turn level text into the list of its segments, or reject it.  `Err` comes
/// exactly when some glyph is outside the fixed table or some cell lies
/// beyond the legal extent; the grouping of the result into shapes is the
/// engine's task.
pub fn parse_cells(text: &str) -> (r: Result<Vec<Object>, ParseLevelError>)
    ensures
        match r {
            Ok(cells) => !has_bad_glyph(spec_raw_cells(text@)) && !has_oob_cell(
                spec_raw_cells(text@),
            ) && cells@ == cell_objects(spec_raw_cells(text@)),
            Err(_) => has_bad_glyph(spec_raw_cells(text@)) || has_oob_cell(spec_raw_cells(text@)),
        },
{
    let n = text.unicode_len();
    let mut i: usize = 0;
    let mut x: u32 = 1;
    let mut y: u32 = 1;
    let ghost mut sx: int = 1;
    let ghost mut sy: int = 1;
    let ghost mut done: Seq<(char, int, int)> = Seq::empty();
    let mut cells: Vec<Object> = Vec::new();
    while i < n
        invariant
            n == text@.len(),
            i <= n,
            x == if sx <= 65536 { sx as u32 } else { 65536u32 },
            y == if sy <= 65536 { sy as u32 } else { 65536u32 },
            1 <= sx,
            1 <= sy,
            x <= 65536,
            y <= 65536,
            1 <= x,
            1 <= y,
            spec_raw_cells(text@) == done + raw_items(text@, i as int, sx, sy),
            !has_bad_glyph(done),
            !has_oob_cell(done),
            cells@ == cell_objects(done),
        decreases n - i,
    {
        let c = text.get_char(i);
        if c == '\r' {
            if i + 1 < n && text.get_char(i + 1) == '\n' {
                i += 2;
            } else {
                i += 1;
            }
            x = 1;
            y = if y < 65536 { y + 1 } else { y };
            proof {
                sx = 1;
                sy = sy + 1;
            }
        } else if c == '\n' {
            i += 1;
            x = 1;
            y = if y < 65536 { y + 1 } else { y };
            proof {
                sx = 1;
                sy = sy + 1;
            }
        } else if c == ' ' {
            i += 1;
            x = if x < 65536 { x + 1 } else { x };
            proof {
                sx = sx + 1;
            }
        } else {
            let ghost item = (c, sx, sy);
            let ghost rest = raw_items(text@, i as int + 1, sx + 1, sy);
            proof {
                assert(raw_items(text@, i as int, sx, sy) =~= seq![item] + rest);
                assert(done + (seq![item] + rest) =~= done.push(item) + rest);
                assert(spec_raw_cells(text@)[done.len() as int] == item);
            }
            if x > 65534 || y > 65534 {
                proof {
                    let k = done.len() as int;
                    assert(0 <= k < spec_raw_cells(text@).len());
                    assert(spec_raw_cells(text@)[k].1 > crate::object::MAX_COORD as int
                        || spec_raw_cells(text@)[k].2 > crate::object::MAX_COORD as int);
                    assert(has_oob_cell(spec_raw_cells(text@)));
                }
                return Err(ParseLevelError);
            }
            let seg = glyph_to_segment(c);
            match seg {
                Option::None => {
                    proof {
                        let k = done.len() as int;
                        assert(0 <= k < spec_raw_cells(text@).len());
                        assert(glyph_segment(spec_raw_cells(text@)[k].0) is None);
                        assert(has_bad_glyph(spec_raw_cells(text@)));
                    }
                    return Err(ParseLevelError);
                },
                Option::Some((mask, kind)) => {
                    cells.push(Object {
                        id: 0,
                        shape: 0,
                        color: Option::None,
                        connectors: mask,
                        kind,
                        pos: (x as u16, y as u16),
                    });
                },
            }
            proof {
                let prev = done;
                done = done.push(item);
                assert(cell_objects(done).drop_last() =~= cell_objects(prev)) by {
                    assert(done.drop_last() =~= prev);
                }
                assert(cells@ =~= cell_objects(done));
                assert forall|k: int| 0 <= k < done.len() implies !(glyph_segment(
                    #[trigger] done[k].0,
                ) is None) by {
                    if k < prev.len() {
                        assert(prev[k] == done[k]);
                    }
                }
                assert forall|k: int|
                    0 <= k < done.len() implies !((#[trigger] done[k]).1
                        > crate::object::MAX_COORD as int || done[k].2
                        > crate::object::MAX_COORD as int) by {
                    if k < prev.len() {
                        assert(prev[k] == done[k]);
                    }
                }
            }
            i += 1;
            x = if x < 65536 { x + 1 } else { x };
            proof {
                sx = sx + 1;
            }
        }
    }
    proof {
        assert(raw_items(text@, i as int, sx, sy) =~= Seq::<(char, int, int)>::empty());
        assert(spec_raw_cells(text@) =~= done);
    }
    Ok(cells)
}


/// Every parsed cell is uncolored and carries placeholder ids.
pub proof fn lemma_cell_objects_fields(items: Seq<(char, int, int)>)
    ensures
        forall|k: int|
            0 <= k < cell_objects(items).len() ==> (#[trigger] cell_objects(items)[k]).color
                is None,
        cell_objects(items).len() == items.len(),
    decreases items.len(),
{
    if items.len() > 0 {
        lemma_cell_objects_fields(items.drop_last());
        assert forall|k: int|
            0 <= k < cell_objects(items).len() implies (#[trigger] cell_objects(items)[k]).color
            is None by {
            if k < items.len() - 1 {
                assert(cell_objects(items)[k] == cell_objects(items.drop_last())[k]);
            } else {
                assert(cell_objects(items)[k] == cell_object(items.last()));
            }
        }
    }
}
} // verus!
