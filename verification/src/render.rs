use vstd::prelude::*;
use crate::game::Game;
use crate::world::World;

verus! {

/// The character that stands for a live cell.
pub const LIVE_GLYPH: char = '*';

/// The character that stands for a dead cell.
pub const DEAD_GLYPH: char = ' ';

/// The decimal digit for `d` in `0..10`.
pub open spec fn digit(d: int) -> char {
    if d == 0 {
        '0'
    } else if d == 1 {
        '1'
    } else if d == 2 {
        '2'
    } else if d == 3 {
        '3'
    } else if d == 4 {
        '4'
    } else if d == 5 {
        '5'
    } else if d == 6 {
        '6'
    } else if d == 7 {
        '7'
    } else if d == 8 {
        '8'
    } else {
        '9'
    }
}

/// `n` written in decimal, without leading zeros.
pub open spec fn decimal(n: nat) -> Seq<char>
    decreases n,
{
    if n < 10 {
        seq![digit(n as int)]
    } else {
        decimal(n / 10).push(digit((n % 10) as int))
    }
}

/// The glyphs of the cells of row `r`, column by column.
pub open spec fn row_glyphs(w: World, r: int) -> Seq<char> {
    Seq::new(
        w.shape.cols as nat,
        |c: int|
            if w.live.contains((r, c)) {
                LIVE_GLYPH
            } else {
                DEAD_GLYPH
            },
    )
}

/// The line that shows row `r`: its glyphs between two bars.
pub open spec fn row_line(w: World, r: int) -> Seq<char> {
    seq!['|'] + row_glyphs(w, r) + seq!['|', '\n']
}

/// The lines of the first `r` rows.
pub open spec fn row_lines(w: World, r: int) -> Seq<char>
    decreases r,
{
    if r <= 0 {
        Seq::<char>::empty()
    } else {
        row_lines(w, r - 1) + row_line(w, r - 1)
    }
}

/// The lines above the board: a title, the generation and the number of
/// live cells.
pub open spec fn header(w: World) -> Seq<char> {
    "Rust Life:\n\tGeneration "@ + decimal(w.generation) + "\n\tAlive "@ + decimal(w.live.len())
        + "\n\n"@
}

/// The whole picture of a world: the header, followed by one line for each row.
pub open spec fn picture(w: World) -> Seq<char> {
    header(w) + row_lines(w, w.shape.rows)
}

/// The text of the digit `d`.
fn digit_text(d: usize) -> (s: &'static str)
    requires
        d < 10,
    ensures
        s@ == seq![digit(d as int)],
{
    proof {
        reveal_strlit("0");
        reveal_strlit("1");
        reveal_strlit("2");
        reveal_strlit("3");
        reveal_strlit("4");
        reveal_strlit("5");
        reveal_strlit("6");
        reveal_strlit("7");
        reveal_strlit("8");
        reveal_strlit("9");
    }
    let s = if d == 0 {
        "0"
    } else if d == 1 {
        "1"
    } else if d == 2 {
        "2"
    } else if d == 3 {
        "3"
    } else if d == 4 {
        "4"
    } else if d == 5 {
        "5"
    } else if d == 6 {
        "6"
    } else if d == 7 {
        "7"
    } else if d == 8 {
        "8"
    } else {
        "9"
    };
    assert(s@ =~= seq![digit(d as int)]);
    s
}

/// Appends `n` in decimal to `out`.
fn push_decimal(out: &mut String, n: usize)
    ensures
        final(out)@ == old(out)@ + decimal(n as nat),
    decreases n,
{
    if n >= 10 {
        push_decimal(out, n / 10);
    }
    out.append(digit_text(n % 10));
    assert(out@ =~= old(out)@ + decimal(n as nat));
}

impl Game {
    /// The board as text: a header with the generation and the number of
    /// live cells, followed by one line for each row, where a live cell shows
    /// as `*` and a dead one as a blank, between two bars.
    pub fn render(&self) -> (text: String)
        ensures
            text@ == picture(self@),
    {
        let dims = self.size();
        let rows: usize = dims.0;
        let cols: usize = dims.1;
        let mut text = String::new();
        proof {
            reveal_strlit("Rust Life:\n\tGeneration ");
            reveal_strlit("\n\tAlive ");
            reveal_strlit("\n\n");
            reveal_strlit("|");
            reveal_strlit("|\n");
            reveal_strlit("*");
            reveal_strlit(" ");
        }
        text.append("Rust Life:\n\tGeneration ");
        push_decimal(&mut text, self.generation());
        text.append("\n\tAlive ");
        push_decimal(&mut text, self.alive());
        text.append("\n\n");
        assert(text@ =~= header(self@));
        let mut r: usize = 0;
        while r < rows
            invariant
                r <= rows,
                rows == self@.shape.rows,
                cols == self@.shape.cols,
                text@ == header(self@) + row_lines(self@, r as int),
            decreases rows - r,
        {
            let ghost above = text@;
            proof {
                reveal_strlit("|");
                reveal_strlit("|\n");
            }
            text.append("|");
            assert(text@ =~= above + seq!['|'] + row_glyphs(self@, r as int).take(0));
            let mut c: usize = 0;
            while c < cols
                invariant
                    r < rows,
                    c <= cols,
                    cols == self@.shape.cols,
                    text@ == above + seq!['|'] + row_glyphs(self@, r as int).take(c as int),
                decreases cols - c,
            {
                proof {
                    reveal_strlit("*");
                    reveal_strlit(" ");
                }
                if self.cell_state((r as i128, c as i128)) {
                    text.append("*");
                } else {
                    text.append(" ");
                }
                c = c + 1;
                assert(row_glyphs(self@, r as int).take(c as int) =~= row_glyphs(
                    self@,
                    r as int,
                ).take(c - 1).push(row_glyphs(self@, r as int)[c - 1]));
                assert(text@ =~= above + seq!['|'] + row_glyphs(self@, r as int).take(c as int));
            }
            text.append("|\n");
            r = r + 1;
            assert(row_glyphs(self@, r - 1).take(cols as int) =~= row_glyphs(self@, r - 1));
            assert(text@ =~= header(self@) + row_lines(self@, r as int));
        }
        text
    }
}

} // verus!
