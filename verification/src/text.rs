//! The text form of a grid: reading 81 values from free-form text, in which
//! white space counts for nothing, and writing them as nine lines in three
//! bands, both as ASCII bytes.

use vstd::prelude::*;
use crate::rules::well_formed;

verus! {

/// The byte of a space.
pub const SPACE: u8 = 0x20;

/// The byte of a horizontal tab.
pub const TAB: u8 = 0x09;

/// The byte of a line feed.
pub const LINE_FEED: u8 = 0x0a;

/// The byte of a form feed.
pub const FORM_FEED: u8 = 0x0c;

/// The byte of a carriage return.
pub const CARRIAGE_RETURN: u8 = 0x0d;

/// The byte of the dot that stands for a blank cell.
pub const DOT: u8 = 0x2e;

/// The byte of the digit zero.
pub const ZERO: u8 = 0x30;

/// The byte is ASCII white space, which separates glyphs and is skipped: a
/// space, a tab, a line feed, a form feed or a carriage return.
pub open spec fn is_separator(b: u8) -> bool {
    b == SPACE || b == TAB || b == LINE_FEED || b == FORM_FEED || b == CARRIAGE_RETURN
}

/// Whether the byte is ASCII white space.
fn separates(b: u8) -> (skipped: bool)
    ensures
        skipped == is_separator(b),
{
    b == SPACE || b == TAB || b == LINE_FEED || b == FORM_FEED || b == CARRIAGE_RETURN
}

/// The bytes of the text that are not separators, in order.
pub open spec fn glyphs(text: Seq<u8>) -> Seq<u8>
    decreases text.len(),
{
    if text.len() == 0 {
        Seq::empty()
    } else if is_separator(text.last()) {
        glyphs(text.drop_last())
    } else {
        glyphs(text.drop_last()).push(text.last())
    }
}

/// The byte is a decimal digit.
pub open spec fn is_digit(b: u8) -> bool {
    ZERO <= b <= ZERO + 9
}

/// The value a glyph stands for: 0 for a dot, else the digit.
pub open spec fn glyph_value(b: u8) -> u8 {
    if b == DOT {
        0
    } else {
        (b - ZERO) as u8
    }
}

/// The text can be read: apart from separators it holds only dots and
/// digits, and no digit after its first 81 glyphs.
pub open spec fn readable(text: Seq<u8>) -> bool {
    forall|k: int|
        0 <= k < glyphs(text).len() ==> #[trigger] glyphs(text)[k] == DOT || (is_digit(
            glyphs(text)[k],
        ) && k < 81)
}

/// The 81 values that the text stands for: the values of its glyphs in
/// order, and 0 for every cell after the last glyph.
pub open spec fn parsed(text: Seq<u8>) -> Seq<u8> {
    Seq::new(
        81,
        |i: int|
            if i < glyphs(text).len() {
                glyph_value(glyphs(text)[i])
            } else {
                0
            },
    )
}

/// The glyphs of the first `n` bytes are the first glyphs of the text.
pub proof fn lemma_glyphs_prefix(text: Seq<u8>, n: int)
    requires
        0 <= n <= text.len(),
    ensures
        glyphs(text.take(n)).len() <= glyphs(text).len(),
        forall|k: int|
            0 <= k < glyphs(text.take(n)).len() ==> #[trigger] glyphs(text.take(n))[k] == glyphs(
                text,
            )[k],
    decreases text.len(),
{
    if n == text.len() {
        assert(text.take(n) =~= text);
    } else {
        assert(text.drop_last().take(n) =~= text.take(n));
        lemma_glyphs_prefix(text.drop_last(), n);
    }
}

/// Reads 81 cell values from text. White space is skipped wherever it
/// stands; of what is left, a dot or `0` is a blank cell and a digit is its
/// value.
/// Cells that the text does not reach are blank, and dots after the last
/// cell are passed over. `None` where the text holds any other byte, or a
/// digit after the last cell.
pub fn parse(text: &[u8]) -> (values: Option<Vec<u8>>)
    ensures
        match values {
            Some(v) => readable(text@) && v@ == parsed(text@),
            None => !readable(text@),
        },
{
    let mut values: Vec<u8> = Vec::new();
    while values.len() < 81
        invariant
            values@.len() <= 81,
            forall|k: int| 0 <= k < values@.len() ==> #[trigger] values@[k] == 0,
        decreases 81 - values@.len(),
    {
        values.push(0);
    }
    let mut seen: usize = 0;
    let mut i: usize = 0;
    while i < text.len()
        invariant
            i <= text@.len(),
            seen <= i,
            seen == glyphs(text@.take(i as int)).len(),
            values@.len() == 81,
            readable(text@.take(i as int)),
            forall|k: int| 0 <= k < 81 ==> #[trigger] values@[k] == parsed(text@.take(i as int))[k],
        decreases text@.len() - i,
    {
        let b = text[i];
        proof {
            assert(text@.take(i + 1).drop_last() =~= text@.take(i as int));
            lemma_glyphs_prefix(text@, i + 1);
        }
        if !separates(b) {
            if b != DOT {
                if b < ZERO || b > ZERO + 9 || seen >= 81 {
                    proof {
                        assert(glyphs(text@.take(i + 1))[seen as int] == b);
                        assert(glyphs(text@)[seen as int] == b);
                    }
                    return None;
                }
                values[seen] = b - ZERO;
            }
            seen += 1;
        }
        i += 1;
    }
    proof {
        assert(text@.take(i as int) =~= text@);
        assert(values@ =~= parsed(text@));
    }
    Some(values)
}

/// The decimal digits of a value, as bytes.
pub open spec fn decimal(v: u8) -> Seq<u8> {
    if v < 10 {
        seq![(ZERO + v) as u8]
    } else if v < 100 {
        seq![(ZERO + v / 10) as u8, (ZERO + v % 10) as u8]
    } else {
        seq![(ZERO + v / 100) as u8, (ZERO + (v / 10) % 10) as u8, (ZERO + v % 10) as u8]
    }
}

/// What is written for the cell at position `i` with value `v`: a space
/// unless the cell starts a line; a dot for a blank cell, else the value;
/// one more space after the third and the sixth cell of a line; a line feed
/// after the ninth, and one more after the third and the sixth line.
pub open spec fn cell_text(i: int, v: u8) -> Seq<u8> {
    let lead = if i % 9 != 0 { seq![SPACE] } else { Seq::empty() };
    let mark = if v == 0 { seq![DOT] } else { decimal(v) };
    let gap = if i % 9 == 2 || i % 9 == 5 { seq![SPACE] } else { Seq::empty() };
    let end = if i % 9 != 8 {
        Seq::empty()
    } else if i / 9 == 2 || i / 9 == 5 {
        seq![LINE_FEED, LINE_FEED]
    } else {
        seq![LINE_FEED]
    };
    lead + mark + gap + end
}

/// What is written for the first `n` cells.
pub open spec fn rendered(values: Seq<u8>, n: int) -> Seq<u8>
    decreases n,
{
    if n <= 0 {
        Seq::empty()
    } else {
        rendered(values, n - 1) + cell_text(n - 1, values[n - 1])
    }
}

/// Appends the decimal digits of `v` to `text`.
fn push_decimal(text: &mut Vec<u8>, v: u8)
    ensures
        final(text)@ == old(text)@ + decimal(v),
{
    if v >= 100 {
        text.push(ZERO + v / 100);
    }
    if v >= 10 {
        text.push(ZERO + (v / 10) % 10);
    }
    text.push(ZERO + v % 10);
    proof {
        assert(text@ =~= old(text)@ + decimal(v));
    }
}

/// Writes the values as text, nine to a line, with a wider gap between the
/// boxes and an empty line between the bands.
pub fn render(values: &[u8]) -> (text: Vec<u8>)
    ensures
        text@ == rendered(values@, values@.len() as int),
{
    let mut text: Vec<u8> = Vec::new();
    let mut i: usize = 0;
    while i < values.len()
        invariant
            i <= values@.len(),
            text@ == rendered(values@, i as int),
        decreases values@.len() - i,
    {
        let ghost before = text@;
        let n = values[i];
        if i % 9 != 0 {
            text.push(SPACE);
        }
        if n == 0 {
            text.push(DOT);
        } else {
            push_decimal(&mut text, n);
        }
        if i % 9 == 2 || i % 9 == 5 {
            text.push(SPACE);
        }
        if i % 9 == 8 {
            text.push(LINE_FEED);
            if i / 9 == 2 || i / 9 == 5 {
                text.push(LINE_FEED);
            }
        }
        proof {
            assert(text@ =~= before + cell_text(i as int, n));
        }
        i += 1;
    }
    text
}

/// The glyph that is written for a digit from 0 to 9.
pub open spec fn mark(v: u8) -> u8 {
    if v == 0 {
        DOT
    } else {
        (ZERO + v) as u8
    }
}

/// The glyphs of two texts put together are the glyphs of the first and
/// then those of the second.
pub proof fn lemma_glyphs_concat(a: Seq<u8>, b: Seq<u8>)
    ensures
        glyphs(a + b) == glyphs(a) + glyphs(b),
    decreases b.len(),
{
    if b.len() == 0 {
        assert(a + b =~= a);
        assert(glyphs(a) + glyphs(b) =~= glyphs(a));
    } else {
        assert((a + b).drop_last() =~= a + b.drop_last());
        lemma_glyphs_concat(a, b.drop_last());
        assert(glyphs(a + b) =~= glyphs(a) + glyphs(b));
    }
}

/// A text of one byte has that byte as its only glyph, or none if the byte
/// is a separator.
pub proof fn lemma_glyphs_single(b: u8)
    ensures
        glyphs(seq![b]) == if is_separator(b) {
            Seq::<u8>::empty()
        } else {
            seq![b]
        },
{
    let one = seq![b];
    assert(one.drop_last() =~= Seq::<u8>::empty());
    assert(glyphs(one.drop_last()) =~= Seq::<u8>::empty());
    assert(Seq::<u8>::empty().push(b) =~= one);
}

/// What is written for a cell with a digit from 0 to 9 has one glyph, the
/// mark of the digit.
pub proof fn lemma_glyphs_of_cell(i: int, v: u8)
    requires
        v <= 9,
    ensures
        glyphs(cell_text(i, v)) == seq![mark(v)],
{
    let lead = if i % 9 != 0 { seq![SPACE] } else { Seq::empty() };
    let gap = if i % 9 == 2 || i % 9 == 5 { seq![SPACE] } else { Seq::empty() };
    let end = if i % 9 != 8 {
        Seq::empty()
    } else if i / 9 == 2 || i / 9 == 5 {
        seq![LINE_FEED, LINE_FEED]
    } else {
        seq![LINE_FEED]
    };
    lemma_glyphs_single(SPACE);
    lemma_glyphs_single(LINE_FEED);
    lemma_glyphs_single(mark(v));
    assert(seq![LINE_FEED, LINE_FEED] =~= seq![LINE_FEED] + seq![LINE_FEED]);
    lemma_glyphs_concat(seq![LINE_FEED], seq![LINE_FEED]);
    assert(glyphs(lead) =~= Seq::<u8>::empty());
    assert(glyphs(gap) =~= Seq::<u8>::empty());
    assert(glyphs(end) =~= Seq::<u8>::empty());
    lemma_glyphs_concat(lead, seq![mark(v)]);
    lemma_glyphs_concat(lead + seq![mark(v)], gap);
    lemma_glyphs_concat(lead + seq![mark(v)] + gap, end);
    assert(cell_text(i, v) == lead + seq![mark(v)] + gap + end);
    assert(glyphs(cell_text(i, v)) =~= seq![mark(v)]);
}

/// What is written for the first `n` cells of a grid of digits has `n`
/// glyphs, the marks of the digits in order.
pub proof fn lemma_glyphs_of_rendered(values: Seq<u8>, n: int)
    requires
        0 <= n <= values.len(),
        forall|i: int| 0 <= i < values.len() ==> #[trigger] values[i] <= 9,
    ensures
        glyphs(rendered(values, n)) == Seq::new(n as nat, |i: int| mark(values[i])),
    decreases n,
{
    if n > 0 {
        lemma_glyphs_of_rendered(values, n - 1);
        lemma_glyphs_of_cell(n - 1, values[n - 1]);
        lemma_glyphs_concat(rendered(values, n - 1), cell_text(n - 1, values[n - 1]));
    }
    assert(glyphs(rendered(values, n)) =~= Seq::new(n as nat, |i: int| mark(values[i])));
}

/// What is written for a grid of 81 digits can be read, and reads back as
/// the same grid.
pub proof fn lemma_rendered_reads_back(values: Seq<u8>)
    requires
        well_formed(values),
    ensures
        readable(rendered(values, 81)),
        parsed(rendered(values, 81)) == values,
{
    lemma_glyphs_of_rendered(values, 81);
    assert(parsed(rendered(values, 81)) =~= values);
}

} // verus!
