use crate::formatter::chars_of;
use crate::parser::{node_at, AST};
use vstd::prelude::*;

verus! {

/// A place in a text as an editor counts it: a zero-based line, and a
/// zero-based column in UTF-16 code units.
#[derive(Debug, Clone, Copy, PartialEq, Eq, Structural)]
pub struct Position {
    pub line: u32,
    pub character: u32,
}

impl Position {
    /// The position at `line` and `character`.
    pub fn new(line: u32, character: u32) -> (r: Position)
        ensures
            r == (Position { line, character }),
    {
        Position { line, character }
    }
}

/// How many bytes UTF-8 takes for `c`.
pub open spec fn utf8_width(c: char) -> nat {
    if (c as u32) < 0x80 {
        1
    } else if (c as u32) < 0x800 {
        2
    } else if (c as u32) < 0x10000 {
        3
    } else {
        4
    }
}

/// How many code units UTF-16 takes for `c`.
pub open spec fn utf16_width(c: char) -> nat {
    if (c as u32) < 0x10000 {
        1
    } else {
        2
    }
}

/// How many bytes UTF-8 takes for `s`.
pub open spec fn byte_len(s: Seq<char>) -> nat
    decreases s.len(),
{
    if s.len() == 0 {
        0
    } else {
        byte_len(s.drop_last()) + utf8_width(s.last())
    }
}

/// The line and UTF-16 column right after the characters `s`.
pub open spec fn line_col(s: Seq<char>) -> (nat, nat)
    decreases s.len(),
{
    if s.len() == 0 {
        (0, 0)
    } else {
        let lc = line_col(s.drop_last());
        if s.last() == '\n' {
            (lc.0 + 1, 0)
        } else {
            (lc.0, lc.1 + utf16_width(s.last()))
        }
    }
}

/// How many characters, from the `k`-th on, come before byte `offset`: up to
/// the first that starts there, else to the end.
pub open spec fn chars_before_from(s: Seq<char>, k: int, offset: nat) -> int
    decreases s.len() - k,
{
    if k < 0 || k >= s.len() {
        s.len() as int
    } else if byte_len(s.take(k)) == offset {
        k
    } else {
        chars_before_from(s, k + 1, offset)
    }
}

/// The position of byte `offset` of `s`: where the character that starts
/// there begins, or the end of the text where none does.
pub open spec fn offset_position(s: Seq<char>, offset: nat) -> Position {
    let lc = line_col(s.take(chars_before_from(s, 0, offset)));
    Position { line: lc.0 as u32, character: lc.1 as u32 }
}

/// The byte offset of the first place in `s`, from the `k`-th character on,
/// that sits at the given line and column; the text's length if none does.
pub open spec fn position_offset_from(s: Seq<char>, k: int, line: nat, col: nat) -> nat
    decreases s.len() + 1 - k,
{
    if k < 0 || k > s.len() {
        byte_len(s)
    } else if line_col(s.take(k)) == (line, col) {
        byte_len(s.take(k))
    } else {
        position_offset_from(s, k + 1, line, col)
    }
}

/// The number of bytes UTF-8 takes for `c`.
fn utf8_width_of(c: char) -> (r: usize)
    ensures
        r == utf8_width(c),
{
    if (c as u32) < 0x80 {
        1
    } else if (c as u32) < 0x800 {
        2
    } else if (c as u32) < 0x10000 {
        3
    } else {
        4
    }
}

/// The number of UTF-16 code units for `c`.
fn utf16_width_of(c: char) -> (r: usize)
    ensures
        r == utf16_width(c),
{
    if (c as u32) < 0x10000 {
        1
    } else {
        2
    }
}

proof fn lemma_byte_len_grows(s: Seq<char>, k: int, j: int)
    requires
        0 <= k <= j <= s.len(),
    ensures
        byte_len(s.take(k)) <= byte_len(s.take(j)),
        k < j ==> byte_len(s.take(k)) < byte_len(s.take(j)),
    decreases j - k,
{
    if k < j {
        lemma_byte_len_grows(s, k, j - 1);
        assert(s.take(j).drop_last() =~= s.take(j - 1));
    }
}

proof fn lemma_past_offset(s: Seq<char>, k: int, offset: nat)
    requires
        0 <= k <= s.len(),
        byte_len(s.take(k)) > offset,
    ensures
        chars_before_from(s, k, offset) == s.len(),
    decreases s.len() - k,
{
    if k < s.len() {
        lemma_byte_len_grows(s, k, k + 1);
        lemma_past_offset(s, k + 1, offset);
    }
}

/// The line and UTF-16 column of byte `offset` of `text`.
pub fn byte_offset_to_position(text: &str, offset: usize) -> (r: Position)
    requires
        byte_len(text@) <= usize::MAX,
    ensures
        r == offset_position(text@, offset as nat),
{
    let cs = chars_of(text);
    let mut line: usize = 0;
    let mut col: usize = 0;
    let mut b: usize = 0;
    let mut past = false;
    let mut k: usize = 0;
    while k < cs.len() && (past || b != offset)
        invariant
            k <= cs@.len(),
            cs@ == text@,
            byte_len(cs@) <= usize::MAX,
            (line as nat, col as nat) == line_col(cs@.take(k as int)),
            line <= k,
            col <= byte_len(cs@.take(k as int)),
            !past ==> b == byte_len(cs@.take(k as int)) && b <= offset,
            past ==> byte_len(cs@.take(k as int)) > offset,
            chars_before_from(cs@, 0, offset as nat) == chars_before_from(
                cs@,
                k as int,
                offset as nat,
            ),
        decreases cs.len() - k,
    {
        let ghost pre = cs@.take(k as int);
        let ghost next = cs@.take(k + 1);
        assert(next.drop_last() =~= pre);
        let c = cs[k];
        proof {
            lemma_byte_len_grows(cs@, k + 1, cs@.len() as int);
            assert(cs@.take(cs@.len() as int) =~= cs@);
        }
        if !past {
            let w = utf8_width_of(c);
            if offset - b < w {
                past = true;
            } else {
                b = b + w;
            }
        }
        if c == '\n' {
            line = line + 1;
            col = 0;
        } else {
            col = col + utf16_width_of(c);
        }
        k = k + 1;
    }
    proof {
        if past {
            lemma_past_offset(cs@, k as int, offset as nat);
        }
        assert(chars_before_from(cs@, 0, offset as nat) == k);
    }
    Position { line: #[verifier::truncate] (line as u32), character: #[verifier::truncate] (col as u32) }
}

/// The byte offset in `text` of a line and UTF-16 column; the text's length
/// where no character boundary sits there.
pub fn position_to_byte_offset(text: &str, position: &Position) -> (r: usize)
    requires
        byte_len(text@) <= usize::MAX,
    ensures
        r == position_offset_from(text@, 0, position.line as nat, position.character as nat),
{
    let cs = chars_of(text);
    let ghost target = (position.line as nat, position.character as nat);
    let mut line: usize = 0;
    let mut col: usize = 0;
    let mut b: usize = 0;
    let mut k: usize = 0;
    while k < cs.len()
        invariant
            k <= cs@.len(),
            cs@ == text@,
            byte_len(cs@) <= usize::MAX,
            target == (position.line as nat, position.character as nat),
            (line as nat, col as nat) == line_col(cs@.take(k as int)),
            line <= k,
            col <= byte_len(cs@.take(k as int)),
            b == byte_len(cs@.take(k as int)),
            position_offset_from(cs@, 0, target.0, target.1) == position_offset_from(
                cs@,
                k as int,
                target.0,
                target.1,
            ),
        decreases cs.len() - k,
    {
        let ghost pre = cs@.take(k as int);
        let ghost next = cs@.take(k + 1);
        assert(next.drop_last() =~= pre);
        if line == position.line as usize && col == position.character as usize {
            return b;
        }
        let c = cs[k];
        proof {
            lemma_byte_len_grows(cs@, k + 1, cs@.len() as int);
            assert(cs@.take(cs@.len() as int) =~= cs@);
        }
        b = b + utf8_width_of(c);
        if c == '\n' {
            line = line + 1;
            col = 0;
        } else {
            col = col + utf16_width_of(c);
        }
        k = k + 1;
    }
    assert(cs@.take(k as int) =~= cs@);
    if line == position.line as usize && col == position.character as usize {
        return b;
    }
    assert(position_offset_from(cs@, k + 1, target.0, target.1) == byte_len(cs@));
    b
}

/// The innermost node at a line and column of `text`: see [`node_at`].
pub fn pos_to_ast<'a>(text: &str, pos: &Position, ast: &'a AST) -> (r: Option<&'a AST>)
    requires
        byte_len(text@) <= usize::MAX,
    ensures
        crate::parser::found(
            r,
            node_at(
                *ast,
                position_offset_from(text@, 0, pos.line as nat, pos.character as nat) as int,
            ),
        ),
{
    let offset = position_to_byte_offset(text, pos);
    ast.find_node_at_position(offset)
}

} // verus!
