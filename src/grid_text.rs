//! The text form of a grid: one line per row, `#` for a live cell and `_` for
//! a dead one. Whitespace around the whole text and around each line is
//! ignored.
use crate::game_of_life::{CellValue, ParseError};
use vstd::prelude::*;

verus! {

/// Whitespace as Unicode's White_Space property has it, the set that
/// `char::is_whitespace` tests for.
pub open spec fn is_whitespace(c: char) -> bool {
    ||| c == '\t'
    ||| c == '\n'
    ||| c == '\u{0B}'
    ||| c == '\u{0C}'
    ||| c == '\r'
    ||| c == ' '
    ||| c == '\u{85}'
    ||| c == '\u{A0}'
    ||| c == '\u{1680}'
    ||| (0x2000 <= (c as u32) && (c as u32) <= 0x200A)
    ||| c == '\u{2028}'
    ||| c == '\u{2029}'
    ||| c == '\u{202F}'
    ||| c == '\u{205F}'
    ||| c == '\u{3000}'
}

/// `s` without its leading whitespace.
pub open spec fn trim_start(s: Seq<char>) -> Seq<char>
    decreases s.len(),
{
    if s.len() > 0 && is_whitespace(s[0]) {
        trim_start(s.drop_first())
    } else {
        s
    }
}

/// `s` without its trailing whitespace.
pub open spec fn trim_end(s: Seq<char>) -> Seq<char>
    decreases s.len(),
{
    if s.len() > 0 && is_whitespace(s.last()) {
        trim_end(s.drop_last())
    } else {
        s
    }
}

/// `s` without whitespace at either end.
pub open spec fn trim(s: Seq<char>) -> Seq<char> {
    trim_end(trim_start(s))
}

/// The pieces of `s` between line breaks, in order; a text without a line
/// break is one line.
pub open spec fn split_lines(s: Seq<char>) -> Seq<Seq<char>>
    decreases s.len(),
{
    if s.len() == 0 {
        seq![Seq::empty()]
    } else {
        let init = split_lines(s.drop_last());
        if s.last() == '\n' {
            init.push(Seq::empty())
        } else {
            init.update(init.len() - 1, init.last().push(s.last()))
        }
    }
}

/// Every character of `line` stands for a cell.
pub open spec fn is_cell_text(line: Seq<char>) -> bool {
    forall|i: int| 0 <= i < line.len() ==> line[i] == '#' || line[i] == '_'
}

/// The character that stands for a cell.
pub open spec fn encode_cell(v: CellValue) -> char {
    if v == CellValue::Alive {
        '#'
    } else {
        '_'
    }
}

/// The cells of one line of cell characters.
pub open spec fn decode_row(line: Seq<char>) -> Seq<CellValue> {
    line.map_values(|c: char|
        if c == '#' {
            CellValue::Alive
        } else {
            CellValue::Dead
        })
}

/// The cells of `lines`, each trimmed and `width` characters long, read
/// first to last; the error of the first line that breaks the format.
pub open spec fn decode_lines(lines: Seq<Seq<char>>, width: nat) -> Result<Seq<CellValue>, ParseError>
    decreases lines.len(),
{
    if lines.len() == 0 {
        Ok(Seq::empty())
    } else {
        match decode_lines(lines.drop_last(), width) {
            Err(e) => Err(e),
            Ok(cells) => {
                let line = trim(lines.last());
                if !is_cell_text(line) {
                    Err(ParseError::InvalidCharacter)
                } else if line.len() != width {
                    Err(ParseError::InconsistentRowWidth)
                } else {
                    Ok(cells + decode_row(line))
                }
            },
        }
    }
}

/// What a text describes: its width, its height and its cells row by row, or
/// why it describes no grid. The first line fixes the width.
pub open spec fn parse_text(text: Seq<char>) -> Result<(nat, nat, Seq<CellValue>), ParseError> {
    let t = trim(text);
    if t.len() == 0 {
        Err(ParseError::EmptyInput)
    } else {
        let lines = split_lines(t);
        let width = trim(lines[0]).len();
        match decode_lines(lines, width) {
            Ok(cells) => Ok((width, lines.len(), cells)),
            Err(e) => Err(e),
        }
    }
}

/// The first `rows` rows of a `width`-wide grid, each row followed by a
/// line break.
pub open spec fn serialize_rows(cells: Seq<CellValue>, width: nat, rows: nat) -> Seq<char>
    decreases rows,
{
    if rows == 0 {
        Seq::empty()
    } else {
        serialize_rows(cells, width, (rows - 1) as nat) + cells.subrange(
            (rows - 1) * width as int,
            (rows * width) as int,
        ).map_values(|v: CellValue| encode_cell(v)) + seq!['\n']
    }
}

/// The lines, each trimmed and followed by one line break.
pub open spec fn normalized_lines(lines: Seq<Seq<char>>) -> Seq<char>
    decreases lines.len(),
{
    if lines.len() == 0 {
        Seq::empty()
    } else {
        normalized_lines(lines.drop_last()) + trim(lines.last()) + seq!['\n']
    }
}

/// What is left after trimming the start begins with a non-whitespace
/// character.
proof fn lemma_trim_start_first(s: Seq<char>)
    ensures
        trim_start(s).len() > 0 ==> !is_whitespace(trim_start(s)[0]),
    decreases s.len(),
{
    if s.len() > 0 && is_whitespace(s[0]) {
        lemma_trim_start_first(s.drop_first());
    }
}


/// Trimming the end keeps a prefix, a non-empty one where the first
/// character is no whitespace.
proof fn lemma_trim_end_prefix(s: Seq<char>)
    ensures
        trim_end(s).len() <= s.len(),
        trim_end(s) == s.take(trim_end(s).len() as int),
        s.len() > 0 && !is_whitespace(s[0]) ==> trim_end(s).len() > 0,
    decreases s.len(),
{
    if s.len() > 0 && is_whitespace(s.last()) {
        lemma_trim_end_prefix(s.drop_last());
        let n = trim_end(s).len() as int;
        assert(s.drop_last().take(n) =~= s.take(n));
    } else {
        assert(s.take(s.len() as int) =~= s);
    }
}

/// A trimmed text that is not empty starts with a non-whitespace character.
pub proof fn lemma_trim_first(s: Seq<char>)
    ensures
        trim(s).len() > 0 ==> !is_whitespace(trim(s)[0]),
{
    lemma_trim_start_first(s);
    lemma_trim_end_prefix(trim_start(s));
}

/// A line that starts with a non-whitespace character is not empty once
/// trimmed.
pub proof fn lemma_trim_nonempty(s: Seq<char>)
    requires
        s.len() > 0,
        !is_whitespace(s[0]),
    ensures
        trim(s).len() > 0,
{
    lemma_trim_end_prefix(s);
}

/// A text has at least one line, and at most one more than it has
/// characters.
pub proof fn lemma_split_len(s: Seq<char>)
    ensures
        1 <= split_lines(s).len() <= s.len() + 1,
    decreases s.len(),
{
    if s.len() > 0 {
        lemma_split_len(s.drop_last());
    }
}

/// The lines of a prefix of a text that end before the prefix does are lines
/// of the whole text.
pub proof fn lemma_split_prefix(s: Seq<char>, i: int)
    requires
        0 <= i <= s.len(),
    ensures
        split_lines(s.take(i)).len() <= split_lines(s).len(),
        forall|k: int|
            0 <= k < split_lines(s.take(i)).len() - 1 ==> split_lines(s)[k] == split_lines(s.take(i))[k],
    decreases s.len(),
{
    if i == s.len() {
        assert(s.take(i) =~= s);
    } else {
        lemma_split_prefix(s.drop_last(), i);
        assert(s.drop_last().take(i) =~= s.take(i));
        lemma_split_len(s.drop_last());
    }
}

/// An error in the first `k` lines is the error of all of them.
pub proof fn lemma_decode_error_prefix(lines: Seq<Seq<char>>, k: int, width: nat)
    requires
        0 <= k <= lines.len(),
        decode_lines(lines.take(k), width) is Err,
    ensures
        decode_lines(lines, width) == decode_lines(lines.take(k), width),
    decreases lines.len(),
{
    if k < lines.len() {
        assert(lines.drop_last().take(k) =~= lines.take(k));
        lemma_decode_error_prefix(lines.drop_last(), k, width);
    } else {
        assert(lines.take(k) =~= lines);
    }
}

/// Decoded lines give `width` cells each.
pub proof fn lemma_decode_len(lines: Seq<Seq<char>>, width: nat)
    requires
        decode_lines(lines, width) is Ok,
    ensures
        decode_lines(lines, width)->Ok_0.len() == lines.len() * width,
    decreases lines.len(),
{
    if lines.len() > 0 {
        lemma_decode_len(lines.drop_last(), width);
        let n = lines.len() as int;
        assert((n - 1) * width + width == n * width) by (nonlinear_arith);
    }
}

/// Rows written out depend only on the cells that those rows hold.
proof fn lemma_serialize_prefix(a: Seq<CellValue>, b: Seq<CellValue>, width: nat, rows: nat)
    requires
        rows * width <= a.len(),
        rows * width <= b.len(),
        a.take(rows * width as int) == b.take(rows * width as int),
    ensures
        serialize_rows(a, width, rows) == serialize_rows(b, width, rows),
    decreases rows,
{
    if rows > 0 {
        let r = (rows - 1) as nat;
        assert(r * width + width == rows * width) by (nonlinear_arith)
            requires
                r == rows - 1,
        ;
        assert(a.take(r * width as int) =~= a.take(rows * width as int).take(r * width as int));
        assert(b.take(r * width as int) =~= b.take(rows * width as int).take(r * width as int));
        lemma_serialize_prefix(a, b, width, r);
        assert(a.subrange(r * width as int, rows * width as int) =~= a.take(rows * width as int).subrange(
            r * width as int,
            rows * width as int,
        ));
        assert(b.subrange(r * width as int, rows * width as int) =~= b.take(rows * width as int).subrange(
            r * width as int,
            rows * width as int,
        ));
    }
}

/// Decoded lines, written back, are the lines trimmed and each ended by a
/// line break.
proof fn lemma_decode_serialize(lines: Seq<Seq<char>>, width: nat)
    requires
        decode_lines(lines, width) is Ok,
    ensures
        serialize_rows(decode_lines(lines, width)->Ok_0, width, lines.len()) == normalized_lines(lines),
    decreases lines.len(),
{
    if lines.len() > 0 {
        let init = lines.drop_last();
        let n = lines.len();
        lemma_decode_serialize(init, width);
        lemma_decode_len(init, width);
        lemma_decode_len(lines, width);
        let before = decode_lines(init, width)->Ok_0;
        let cells = decode_lines(lines, width)->Ok_0;
        let line = trim(lines.last());
        assert(cells == before + decode_row(line));
        let r = (n - 1) as nat;
        assert(r * width + width == n * width) by (nonlinear_arith)
            requires
                r == n - 1,
        ;
        assert(cells.take(r * width as int) =~= before.take(r * width as int));
        lemma_serialize_prefix(cells, before, width, r);
        assert(cells.subrange(r * width as int, n * width as int) =~= decode_row(line));
        assert(decode_row(line).map_values(|v: CellValue| encode_cell(v)) =~= line);
    }
}

/// Reading a text that describes a grid and writing the grid back gives the
/// text with its surrounding whitespace dropped, each line trimmed and ended
/// by a single line break.
pub proof fn lemma_round_trip(text: Seq<char>)
    requires
        parse_text(text) is Ok,
    ensures
        serialize_rows(parse_text(text)->Ok_0.2, parse_text(text)->Ok_0.0, parse_text(text)->Ok_0.1)
            == normalized_lines(split_lines(trim(text))),
{
    let lines = split_lines(trim(text));
    lemma_decode_serialize(lines, trim(lines[0]).len());
}

/// When lines decode, and which error they get otherwise.
proof fn lemma_decode_outcome(lines: Seq<Seq<char>>, width: nat)
    ensures
        decode_lines(lines, width) is Ok <==> forall|k: int|
            0 <= k < lines.len() ==> is_cell_text(trim(#[trigger] lines[k])) && trim(lines[k]).len()
                == width,
        (forall|k: int| 0 <= k < lines.len() ==> is_cell_text(trim(#[trigger] lines[k])))
            ==> decode_lines(lines, width) is Ok || decode_lines(lines, width) == Err::<
            Seq<CellValue>,
            ParseError,
        >(ParseError::InconsistentRowWidth),
        (forall|k: int| 0 <= k < lines.len() ==> trim(#[trigger] lines[k]).len() == width)
            ==> decode_lines(lines, width) is Ok || decode_lines(lines, width) == Err::<
            Seq<CellValue>,
            ParseError,
        >(ParseError::InvalidCharacter),
        decode_lines(lines, width) != Err::<Seq<CellValue>, ParseError>(ParseError::EmptyInput),
    decreases lines.len(),
{
    if lines.len() > 0 {
        let init = lines.drop_last();
        lemma_decode_outcome(init, width);
        assert(forall|k: int| 0 <= k < init.len() ==> init[k] == lines[k]);
        assert(lines.last() == lines[lines.len() - 1]);
    }
}

/// Which texts describe a grid, and which error each other text gets: a
/// blank text is empty input; otherwise a text whose lines hold only `#` and
/// `_` fails only on a line of another length than the first, and a text
/// whose lines all have the first line's length fails only on a character
/// other than `#` and `_`.
pub proof fn lemma_parse_errors(text: Seq<char>)
    ensures
        parse_text(text) == Err::<(nat, nat, Seq<CellValue>), ParseError>(ParseError::EmptyInput)
            <==> trim(text).len() == 0,
        trim(text).len() > 0 ==> {
            let lines = split_lines(trim(text));
            let width = trim(lines[0]).len();
            &&& parse_text(text) is Ok <==> forall|k: int|
                0 <= k < lines.len() ==> is_cell_text(trim(#[trigger] lines[k])) && trim(lines[k]).len()
                    == width
            &&& (forall|k: int| 0 <= k < lines.len() ==> is_cell_text(trim(#[trigger] lines[k])))
                && (exists|k: int| 0 <= k < lines.len() && trim(#[trigger] lines[k]).len() != width)
                ==> parse_text(text) == Err::<(nat, nat, Seq<CellValue>), ParseError>(
                ParseError::InconsistentRowWidth,
            )
            &&& (forall|k: int| 0 <= k < lines.len() ==> trim(#[trigger] lines[k]).len() == width)
                && (exists|k: int| 0 <= k < lines.len() && !is_cell_text(trim(#[trigger] lines[k])))
                ==> parse_text(text) == Err::<(nat, nat, Seq<CellValue>), ParseError>(
                ParseError::InvalidCharacter,
            )
        },
{
    let lines = split_lines(trim(text));
    lemma_decode_outcome(lines, trim(lines[0]).len());
}

/// Bounds of the part of `s` that is left once whitespace is trimmed from
/// both ends.
pub fn trim_bounds(s: &[char]) -> (r: (usize, usize))
    ensures
        r.0 <= r.1 <= s@.len(),
        s@.subrange(r.0 as int, r.1 as int) == trim(s@),
{
    let len = s.len();
    let mut a: usize = 0;
    assert(s@.subrange(0, len as int) =~= s@);
    while a < len && is_whitespace_char(s[a])
        invariant
            len == s@.len(),
            a <= len,
            trim_start(s@.subrange(a as int, len as int)) == trim_start(s@),
        decreases len - a,
    {
        assert(s@.subrange(a as int, len as int).drop_first() =~= s@.subrange(a + 1, len as int));
        a = a + 1;
    }
    assert(trim_start(s@.subrange(a as int, len as int)) == s@.subrange(a as int, len as int));
    let mut b: usize = len;
    while b > a && is_whitespace_char(s[b - 1])
        invariant
            len == s@.len(),
            a <= b <= len,
            trim_end(s@.subrange(a as int, b as int)) == trim(s@),
        decreases b,
    {
        assert(s@.subrange(a as int, b as int).drop_last() =~= s@.subrange(a as int, b - 1));
        b = b - 1;
    }
    (a, b)
}

/// Whether `c` is whitespace.
pub fn is_whitespace_char(c: char) -> (r: bool)
    ensures
        r == is_whitespace(c),
{
    let code = c as u32;
    c == '\t' || c == '\n' || c == '\u{0B}' || c == '\u{0C}' || c == '\r' || c == ' ' || c
        == '\u{85}' || c == '\u{A0}' || c == '\u{1680}' || (0x2000 <= code && code <= 0x200A) || c
        == '\u{2028}' || c == '\u{2029}' || c == '\u{202F}' || c == '\u{205F}' || c == '\u{3000}'
}

/// The characters of `text`, in order.
pub fn chars_of(text: &str) -> (r: Vec<char>)
    ensures
        r@ == text@,
{
    let mut r: Vec<char> = Vec::new();
    for c in it: text.chars()
        invariant
            r@ == it.seq().take(it.index() as int),
    {
        r.push(c);
    }
    r
}

} // verus!
