//! Reducing a text to what a scan and a drawing carry through.
use crate::glyph::{combining_mark, is_drawing, is_glyph, is_mark};
use crate::render::{is_white_space, rows_of, trimmed};
use vstd::prelude::*;

verus! {

/// What is kept of one character. A glyph and a line break stay as they
/// are, a combining mark goes, and any other character becomes a blank.
pub open spec fn kept(c: char, mark: bool) -> Option<char> {
    if is_glyph(c) || c == '\n' {
        Some(c)
    } else if mark {
        None
    } else {
        Some(' ')
    }
}

/// A text with each character replaced by what is kept of it.
pub open spec fn sieved(text: Seq<char>) -> Seq<char>
    decreases text.len(),
{
    if text.len() == 0 {
        Seq::empty()
    } else {
        match kept(text.last(), combining_mark(text.last())) {
            Some(c) => sieved(text.drop_last()).push(c),
            None => sieved(text.drop_last()),
        }
    }
}

/// The pieces that the line breaks cut a text into: one more than there are
/// line breaks.
pub open spec fn pieces(text: Seq<char>) -> Seq<Seq<char>>
    decreases text.len(),
{
    if text.len() == 0 {
        seq![Seq::<char>::empty()]
    } else {
        let before = pieces(text.drop_last());
        if text.last() == '\n' {
            before.push(Seq::empty())
        } else {
            before.update(before.len() - 1, before.last().push(text.last()))
        }
    }
}

/// The lines of a text. A line break at the end of the text ends the last
/// line and starts no further one.
pub open spec fn lines_of(text: Seq<char>) -> Seq<Seq<char>> {
    let cut = pieces(text);
    if cut.last().len() == 0 {
        cut.drop_last()
    } else {
        cut
    }
}

/// Lines put together, a line break between each two.
pub open spec fn joined(lines: Seq<Seq<char>>) -> Seq<char>
    decreases lines.len(),
{
    if lines.len() == 0 {
        Seq::empty()
    } else if lines.len() == 1 {
        lines[0]
    } else {
        joined(lines.drop_last()).push('\n') + lines.last()
    }
}

/// The part of a text that a scan and a drawing carry through: glyphs and
/// line breaks as they are, combining marks gone, any other character a
/// blank, and no white space at the end of a line.
pub open spec fn normalized(text: Seq<char>) -> Seq<char> {
    joined(lines_of(sieved(text)).map_values(|line: Seq<char>| trimmed(line)))
}

/// What is kept of one character; `mark` says whether it is a combining
/// mark.
pub fn clean_char(c: char, mark: bool) -> (k: Option<char>)
    ensures
        k == kept(c, mark),
{
    if is_drawing(c) || c == '\n' {
        Some(c)
    } else if mark {
        None
    } else {
        Some(' ')
    }
}

/// Removes combining marks and keeps glyphs and line breaks, replaces every
/// other character by a blank, and trims the white space at the end of each
/// line.
pub fn clean_string(s: &str) -> (t: String)
    ensures
        t@ == normalized(s@),
{
    let mut cut: Vec<Vec<char>> = Vec::new();
    cut.push(Vec::new());
    proof {
        assert(rows_of(cut@) =~= pieces(sieved(s@.take(0))));
    }
    for c in it: s.chars()
        invariant
            it.seq() == s@,
            cut@.len() >= 1,
            rows_of(cut@) == pieces(sieved(s@.take(it.index() as int))),
    {
        proof {
            assert(s@.take(it.index() + 1).drop_last() =~= s@.take(it.index() as int));
        }
        let ghost before = rows_of(cut@);
        match clean_char(c, is_mark(c)) {
            Some(k) => {
                proof {
                    assert(sieved(s@.take(it.index() + 1)).drop_last() =~= sieved(s@.take(it.index() as int)));
                }
                if k == '\n' {
                    cut.push(Vec::new());
                    proof {
                        assert(rows_of(cut@) =~= before.push(Seq::empty()));
                    }
                } else {
                    let last = cut.len() - 1;
                    push_to(&mut cut[last], k);
                    proof {
                        assert(rows_of(cut@) =~= before.update(before.len() - 1, before.last().push(k)));
                    }
                }
            },
            None => {},
        }
    }
    proof {
        assert(s@.take(s@.len() as int) =~= s@);
    }
    let n = if cut[cut.len() - 1].len() == 0 {
        cut.len() - 1
    } else {
        cut.len()
    };
    let ghost lines = lines_of(sieved(s@));
    proof {
        assert(lines =~= rows_of(cut@).take(n as int));
    }
    let ghost trim = |line: Seq<char>| trimmed(line);
    let mut t = String::new();
    let mut i: usize = 0;
    while i < n
        invariant
            i <= n,
            n <= cut.len(),
            lines == rows_of(cut@).take(n as int),
            trim == |line: Seq<char>| trimmed(line),
            t@ == joined(lines.map_values(trim).take(i as int)),
        decreases n - i,
    {
        proof {
            assert(lines.map_values(trim).take(i + 1).drop_last() =~= lines.map_values(trim).take(i as int));
        }
        if i > 0 {
            t.push('\n');
        }
        let mut end: usize = cut[i].len();
        proof {
            assert(cut[i as int]@.take(end as int) =~= cut[i as int]@);
        }
        while end > 0 && is_white_space(cut[i][end - 1])
            invariant
                i < cut.len(),
                end <= cut[i as int].len(),
                trimmed(cut[i as int]@) == trimmed(cut[i as int]@.take(end as int)),
            decreases end,
        {
            proof {
                assert(cut[i as int]@.take(end as int).drop_last() =~= cut[i as int]@.take(end - 1));
            }
            end -= 1;
        }
        let ghost head = t@;
        let mut j: usize = 0;
        while j < end
            invariant
                i < cut.len(),
                j <= end,
                end <= cut[i as int].len(),
                t@ == head + cut[i as int]@.take(j as int),
            decreases end - j,
        {
            t.push(cut[i][j]);
            proof {
                assert(cut[i as int]@.take(j + 1) =~= cut[i as int]@.take(j as int).push(cut[i as int]@[j as int]));
                assert(t@ =~= head + cut[i as int]@.take(j + 1));
            }
            j += 1;
        }
        proof {
            assert(lines.map_values(trim).take(i + 1).last() == trimmed(cut[i as int]@));
            if i == 0 {
                assert(t@ =~= trimmed(cut[i as int]@));
            }
        }
        i += 1;
    }
    proof {
        assert(lines.map_values(trim).take(n as int) =~= lines.map_values(trim));
    }
    t
}

/// Puts `c` at the end of a row.
fn push_to(row: &mut Vec<char>, c: char)
    ensures
        final(row)@ == old(row)@.push(c),
{
    row.push(c);
}

} // verus!
