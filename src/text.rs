use crate::bits::{bit, get_nth_bit};
use vstd::prelude::*;
use vstd::string::{StrSliceExecFns, StringExecFns};

verus! {

/// The glyph of one contact point.
pub open spec fn glyph(filled: bool) -> char {
    if filled {
        '■'
    } else {
        '□'
    }
}

/// A tile drawn as three rows of three glyphs separated by spaces, contact
/// points clockwise from the top-left corner, the centre always open.
pub open spec fn tile_text(t: u8) -> Seq<char> {
    seq![
        glyph(bit(t, 0)), ' ', glyph(bit(t, 1)), ' ', glyph(bit(t, 2)), '\n',
        glyph(bit(t, 7)), ' ', '□', ' ', glyph(bit(t, 3)), '\n',
        glyph(bit(t, 6)), ' ', glyph(bit(t, 5)), ' ', glyph(bit(t, 4)),
    ]
}

/// Three rows of five spaces: the drawing of no tile.
pub open spec fn blank_text() -> Seq<char> {
    seq![
        ' ', ' ', ' ', ' ', ' ', '\n',
        ' ', ' ', ' ', ' ', ' ', '\n',
        ' ', ' ', ' ', ' ', ' ',
    ]
}

fn glyph_str(filled: bool) -> (r: &'static str)
    ensures
        r@ == seq![glyph(filled)],
{
    if filled {
        proof {
            reveal_strlit("■");
        }
        "■"
    } else {
        proof {
            reveal_strlit("□");
        }
        "□"
    }
}

/// Draws `tile` as three rows of glyphs.
pub fn tile_string(tile: u8) -> (r: String)
    ensures
        r@ == tile_text(tile),
{
    proof {
        reveal_strlit(" ");
        reveal_strlit("\n");
        reveal_strlit("□");
    }
    let mut s = String::new();
    s.append(glyph_str(get_nth_bit(tile, 0)));
    s.append(" ");
    s.append(glyph_str(get_nth_bit(tile, 1)));
    s.append(" ");
    s.append(glyph_str(get_nth_bit(tile, 2)));
    s.append("\n");
    s.append(glyph_str(get_nth_bit(tile, 7)));
    s.append(" ");
    s.append("□");
    s.append(" ");
    s.append(glyph_str(get_nth_bit(tile, 3)));
    s.append("\n");
    s.append(glyph_str(get_nth_bit(tile, 6)));
    s.append(" ");
    s.append(glyph_str(get_nth_bit(tile, 5)));
    s.append(" ");
    s.append(glyph_str(get_nth_bit(tile, 4)));
    assert(s@ =~= tile_text(tile));
    s
}

/// Draws `tile`, or a blank of the same size when there is none.
pub fn optional_tile_string(tile: Option<u8>) -> (r: String)
    ensures
        r@ == match tile {
            Some(t) => tile_text(t),
            None => blank_text(),
        },
{
    match tile {
        Some(tile) => tile_string(tile),
        None => {
            proof {
                reveal_strlit("     \n     \n     ");
            }
            let r = String::from_str("     \n     \n     ");
            assert(r@ =~= blank_text());
            r
        },
    }
}

/// `l` without one trailing carriage return.
pub open spec fn strip_cr(l: Seq<char>) -> Seq<char> {
    if l.len() > 0 && l.last() == '\r' {
        l.drop_last()
    } else {
        l
    }
}

/// The lines of `s` from position `i` on, the current line having started at
/// `start`: a line ends at `\n` (a `\r` just before it is dropped), and the
/// last line needs no terminator but is left out when empty.
pub open spec fn lines_from(s: Seq<char>, start: int, i: int) -> Seq<Seq<char>>
    decreases s.len() - i,
{
    if i >= s.len() {
        if start < s.len() {
            seq![s.subrange(start, s.len() as int)]
        } else {
            Seq::empty()
        }
    } else if s[i] == '\n' {
        seq![strip_cr(s.subrange(start, i))] + lines_from(s, i + 1, i + 1)
    } else {
        lines_from(s, start, i + 1)
    }
}

/// The lines of `s`, as `str::lines` splits them.
pub open spec fn lines(s: Seq<char>) -> Seq<Seq<char>> {
    lines_from(s, 0, 0)
}

/// Line `k` of `a`, then `spacing`, then line `k` of `b`, for as many lines as
/// the shorter of the two has.
pub open spec fn paired(a: Seq<Seq<char>>, b: Seq<Seq<char>>, spacing: Seq<char>) -> Seq<Seq<char>> {
    Seq::new(
        if a.len() < b.len() {
            a.len()
        } else {
            b.len()
        },
        |k: int| a[k] + spacing + b[k],
    )
}

/// The lines `ls` joined by `\n`.
pub open spec fn joined(ls: Seq<Seq<char>>) -> Seq<char>
    decreases ls.len(),
{
    if ls.len() == 0 {
        Seq::empty()
    } else if ls.len() == 1 {
        ls[0]
    } else {
        joined(ls.drop_last()) + seq!['\n'] + ls.last()
    }
}

/// A non-empty text has at least one line.
pub proof fn lemma_nonempty_has_lines(s: Seq<char>, start: int, i: int)
    requires
        0 <= start <= i <= s.len(),
        start < s.len(),
    ensures
        lines_from(s, start, i).len() > 0,
    decreases s.len() - i,
{
    if i < s.len() && s[i] != '\n' {
        lemma_nonempty_has_lines(s, start, i + 1);
    }
}

spec fn strings_view(v: Seq<String>) -> Seq<Seq<char>> {
    Seq::new(v.len(), |k: int| v[k]@)
}

/// The lines of `s`.
fn split_lines(s: &str) -> (r: Vec<String>)
    ensures
        strings_view(r@) == lines(s@),
{
    let len = s.unicode_len();
    let mut out: Vec<String> = Vec::new();
    let mut start: usize = 0;
    let mut i: usize = 0;
    assert(strings_view(out@) =~= Seq::<Seq<char>>::empty());
    while i < len
        invariant
            len == s@.len(),
            start <= i <= len,
            strings_view(out@) + lines_from(s@, start as int, i as int) == lines(s@),
        decreases len - i,
    {
        let c = s.get_char(i);
        if c == '\n' {
            let end = if i > start && s.get_char(i - 1) == '\r' {
                i - 1
            } else {
                i
            };
            let line = String::from_str(s.substring_char(start, end));
            let ghost before = strings_view(out@);
            assert(line@ == strip_cr(s@.subrange(start as int, i as int)));
            out.push(line);
            assert(strings_view(out@) =~= before.push(line@));
            assert(lines_from(s@, start as int, i as int) == seq![line@] + lines_from(
                s@,
                i + 1,
                i + 1,
            ));
            assert(strings_view(out@) + lines_from(s@, i + 1, i + 1) =~= before + lines_from(
                s@,
                start as int,
                i as int,
            ));
            start = i + 1;
        }
        i = i + 1;
    }
    if start < len {
        let line = String::from_str(s.substring_char(start, len));
        let ghost before = strings_view(out@);
        out.push(line);
        assert(strings_view(out@) =~= before + lines_from(s@, start as int, len as int));
    } else {
        assert(strings_view(out@) =~= strings_view(out@) + lines_from(s@, start as int, len as int));
    }
    out
}

/// Sets two drawings side by side: line `k` of the result is line `k` of `s0`,
/// then `spacing`, then line `k` of `s1`.
pub fn join_tile_string(s0: String, s1: String, spacing: &str) -> (r: String)
    requires
        s0@.len() > 0,
        s1@.len() > 0,
    ensures
        r@ == joined(paired(lines(s0@), lines(s1@), spacing@)),
{
    proof {
        lemma_nonempty_has_lines(s0@, 0, 0);
        lemma_nonempty_has_lines(s1@, 0, 0);
    }
    let left = split_lines(s0.as_str());
    let right = split_lines(s1.as_str());
    let count = if left.len() < right.len() {
        left.len()
    } else {
        right.len()
    };
    let ghost rows = paired(lines(s0@), lines(s1@), spacing@);
    let mut r = String::new();
    let mut k: usize = 0;
    while k < count
        invariant
            k <= count,
            count == rows.len(),
            count <= left@.len(),
            count <= right@.len(),
            strings_view(left@) == lines(s0@),
            strings_view(right@) == lines(s1@),
            rows == paired(lines(s0@), lines(s1@), spacing@),
            r@ == joined(rows.take(k as int)),
        decreases count - k,
    {
        let ghost before = r@;
        if k > 0 {
            r.append("\n");
        }
        r.append(left[k].as_str());
        r.append(spacing);
        r.append(right[k].as_str());
        proof {
            let t = rows.take(k + 1);
            assert(t.drop_last() =~= rows.take(k as int));
            assert(left@[k as int]@ == lines(s0@)[k as int]);
            assert(right@[k as int]@ == lines(s1@)[k as int]);
            assert(t.last() == rows[k as int]);
            assert(rows[k as int] == lines(s0@)[k as int] + spacing@ + lines(s1@)[k as int]);
            if k == 0 {
                assert(r@ =~= t[0]);
            } else {
                reveal_strlit("\n");
                assert("\n"@ =~= seq!['\n']);
                assert(r@ =~= before + seq!['\n'] + left@[k as int]@ + spacing@ + right@[k as int]@);
                assert(before == joined(t.drop_last()));
                assert(r@ =~= joined(t.drop_last()) + seq!['\n'] + t.last());
            }
        }
        k = k + 1;
    }
    assert(rows.take(count as int) =~= rows);
    r
}

} // verus!
