//! Rendering the frame buffer as text: each luminance byte maps to a glyph of
//! a ten-step grayscale ramp, each glyph is written twice to keep the image
//! roughly square, and every row ends in a newline.

use vstd::prelude::*;

use crate::draw::DisplayBuffer;

verus! {

/// The grayscale ramp index for a luminance value: the fraction `luma / 255`
/// mapped linearly onto `[0, 9]` and rounded half-up.
pub open spec fn luma_level(luma: int) -> int {
    (18 * luma + 255) / 510
}

/// The grayscale glyph for a luminance value, from a ten-character ramp
/// running from dark (a space) to bright (`@`).
pub open spec fn luma_char_spec(luma: int) -> char {
    let lvl = luma_level(luma);
    if lvl == 0 {
        ' '
    } else if lvl == 1 {
        '.'
    } else if lvl == 2 {
        ':'
    } else if lvl == 3 {
        '-'
    } else if lvl == 4 {
        '='
    } else if lvl == 5 {
        '+'
    } else if lvl == 6 {
        '*'
    } else if lvl == 7 {
        '#'
    } else if lvl == 8 {
        '%'
    } else {
        '@'
    }
}

/// The displayable glyph for a luminance value.
pub fn luma_to_char(luma: u8) -> (c: char)
    ensures
        c == luma_char_spec(luma as int),
{
    let idx: u32 = (18 * (luma as u32) + 255) / 510;
    if idx == 0 {
        ' '
    } else if idx == 1 {
        '.'
    } else if idx == 2 {
        ':'
    } else if idx == 3 {
        '-'
    } else if idx == 4 {
        '='
    } else if idx == 5 {
        '+'
    } else if idx == 6 {
        '*'
    } else if idx == 7 {
        '#'
    } else if idx == 8 {
        '%'
    } else {
        '@'
    }
}

/// The displayable glyph for a luminance value, as a one-character string.
fn glyph_str(luma: u8) -> (s: &'static str)
    ensures
        s@.len() == 1,
        s@[0] == luma_char_spec(luma as int),
{
    let idx: u32 = (18 * (luma as u32) + 255) / 510;
    if idx == 0 {
        proof {
            reveal_strlit(" ");
        }
        " "
    } else if idx == 1 {
        proof {
            reveal_strlit(".");
        }
        "."
    } else if idx == 2 {
        proof {
            reveal_strlit(":");
        }
        ":"
    } else if idx == 3 {
        proof {
            reveal_strlit("-");
        }
        "-"
    } else if idx == 4 {
        proof {
            reveal_strlit("=");
        }
        "="
    } else if idx == 5 {
        proof {
            reveal_strlit("+");
        }
        "+"
    } else if idx == 6 {
        proof {
            reveal_strlit("*");
        }
        "*"
    } else if idx == 7 {
        proof {
            reveal_strlit("#");
        }
        "#"
    } else if idx == 8 {
        proof {
            reveal_strlit("%");
        }
        "%"
    } else {
        proof {
            reveal_strlit("@");
        }
        "@"
    }
}

/// The text of one row of the frame: each luminance value's glyph, doubled.
pub open spec fn row_text(row: Seq<u8>) -> Seq<char>
    decreases row.len(),
{
    if row.len() == 0 {
        Seq::empty()
    } else {
        row_text(row.drop_last()) + seq![
            luma_char_spec(row.last() as int),
            luma_char_spec(row.last() as int),
        ]
    }
}

/// The text of the whole frame: the rows' texts in order, each closed by a
/// newline.
pub open spec fn frame_text(g: Seq<Seq<u8>>) -> Seq<char>
    decreases g.len(),
{
    if g.len() == 0 {
        Seq::empty()
    } else {
        frame_text(g.drop_last()) + row_text(g.last()) + seq!['\n']
    }
}

impl DisplayBuffer {
    /// Renders the frame as text: one line per row, each pixel's glyph written
    /// twice so the image keeps a roughly square aspect.
    pub fn to_text(&self) -> (s: String)
        requires
            self.wf(),
        ensures
            s@ == frame_text(self@),
    {
        let mut s = String::from_str("");
        proof {
            reveal_strlit("");
            assert(self@.take(0) =~= Seq::<Seq<u8>>::empty());
            assert(s@ =~= frame_text(self@.take(0)));
        }
        let mut y: usize = 0;
        while y < self.rows
            invariant
                self.wf(),
                0 <= y <= self.rows,
                s@ == frame_text(self@.take(y as int)),
            decreases self.rows - y,
        {
            proof {
                assert(self@[y as int].take(0) =~= Seq::<u8>::empty());
                assert(s@ =~= frame_text(self@.take(y as int)) + row_text(
                    self@[y as int].take(0),
                ));
            }
            let mut x: usize = 0;
            while x < self.cols
                invariant
                    self.wf(),
                    y < self.rows,
                    0 <= x <= self.cols,
                    s@ == frame_text(self@.take(y as int)) + row_text(
                        self@[y as int].take(x as int),
                    ),
                decreases self.cols - x,
            {
                let g = glyph_str(self.get(x, y));
                s.append(g);
                s.append(g);
                proof {
                    let r = self@[y as int];
                    assert(r.take(x + 1).drop_last() =~= r.take(x as int));
                    assert(r.take(x + 1).last() == r[x as int]);
                    assert(s@ =~= frame_text(self@.take(y as int)) + row_text(r.take(x + 1)));
                }
                x = x + 1;
            }
            s.append("\n");
            proof {
                reveal_strlit("\n");
                assert(self@[y as int].take(self.cols as int) =~= self@[y as int]);
                assert(self@.take(y + 1).drop_last() =~= self@.take(y as int));
                assert(self@.take(y + 1).last() == self@[y as int]);
                assert(s@ =~= frame_text(self@.take(y + 1)));
            }
            y = y + 1;
        }
        proof {
            assert(self@.take(self.rows as int) =~= self@);
        }
        s
    }
}

} // verus!
