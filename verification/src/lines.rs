//! Line-count estimation for wrapped text: given the pieces of a paragraph
//! and a viewport width, how many terminal rows the paragraph needs.
//!
//! Lengths are measured in bytes, and a newline is only expected at the very
//! end of a piece, as the layout code that feeds this expects.

use vstd::prelude::*;

verus! {

/// The bytes of a string, as UTF-8 encodes its characters.
pub open spec fn bytes_of(s: String) -> Seq<u8> {
    vstd::utf8::encode_utf8(s@)
}

/// Byte length of a string.
pub open spec fn byte_len(s: String) -> int {
    bytes_of(s).len() as int
}

/// Whether a string ends with a newline byte.
pub open spec fn ends_newline(s: String) -> bool {
    bytes_of(s).len() > 0 && bytes_of(s).last() == 10u8
}

/// Folding state after the first `n` pieces: the length of the line still
/// being assembled, and the rows counted so far.  A piece that ends in a
/// newline closes the current line, charging one row plus one row per
/// `width` bytes of overflow; any other piece extends the current line.
pub open spec fn wrap_state(items: Seq<String>, width: int, n: int) -> (int, int)
    decreases n,
{
    if n <= 0 {
        (0, 1)
    } else {
        let st = wrap_state(items, width, n - 1);
        let len = byte_len(items[n - 1]);
        if ends_newline(items[n - 1]) {
            (0, st.1 + 1 + (st.0 + len - 1) / width)
        } else {
            (st.0 + len, st.1)
        }
    }
}

/// Rows needed by the whole paragraph: the rows the fold counted, plus the
/// rows of the still-open last line.
pub open spec fn numlines_spec(items: Seq<String>, width: int) -> int {
    let st = wrap_state(items, width, items.len() as int);
    st.1 + st.0 / width
}

/// Total byte length of the first `n` pieces.
pub open spec fn total_bytes(items: Seq<String>, n: int) -> int
    decreases n,
{
    if n <= 0 {
        0
    } else {
        total_bytes(items, n - 1) + byte_len(items[n - 1])
    }
}

proof fn lemma_total_bytes_mono(items: Seq<String>, a: int, b: int)
    requires
        0 <= a <= b,
    ensures
        total_bytes(items, a) <= total_bytes(items, b),
    decreases b,
{
    if a < b {
        lemma_total_bytes_mono(items, a, b - 1);
    }
}

proof fn lemma_total_bytes_nonneg(items: Seq<String>, n: int)
    ensures
        total_bytes(items, n) >= 0,
    decreases n,
{
    if n > 0 {
        lemma_total_bytes_nonneg(items, n - 1);
    }
}

/// Given the pieces of some text and a width, figure out how many rows the
/// text needs once wrapped.
pub fn get_numlines(items: &Vec<String>, width: usize) -> (r: usize)
    requires
        width >= 1,
        total_bytes(items@, items@.len() as int) + items@.len() + 1 <= usize::MAX,
    ensures
        r as int == numlines_spec(items@, width as int),
{
    let mut cur_line_length: usize = 0;
    let mut num_lines: usize = 1;
    let n = items.len();
    proof {
        lemma_total_bytes_nonneg(items@, n as int);
    }
    for i in 0..n
        invariant
            n == items@.len(),
            width >= 1,
            total_bytes(items@, n as int) + n + 1 <= usize::MAX,
            (cur_line_length as int, num_lines as int) == wrap_state(
                items@,
                width as int,
                i as int,
            ),
            num_lines + cur_line_length <= 1 + i + total_bytes(items@, i as int),
    {
        let item: &String = &items[i];
        let b: &[u8] = item.as_str().as_bytes();
        let len: usize = b.len();
        proof {
            lemma_total_bytes_mono(items@, i + 1 as int, n as int);
            assert(total_bytes(items@, i + 1 as int) == total_bytes(items@, i as int)
                + byte_len(items@[i as int]));
        }
        if len > 0 && b[len - 1] == 10 {
            let cur2: usize = cur_line_length + (len - 1);
            proof {
                assert(cur2 / width <= cur2 as int) by (nonlinear_arith)
                    requires
                        width >= 1,
                        cur2 >= 0,
                ;
            }
            num_lines = num_lines + 1 + cur2 / width;
            cur_line_length = 0;
        } else {
            cur_line_length = cur_line_length + len;
        }
    }
    proof {
        assert(cur_line_length / width <= cur_line_length as int) by (nonlinear_arith)
            requires
                width >= 1,
                cur_line_length >= 0,
        ;
    }
    num_lines + cur_line_length / width
}

/// Sum of per-piece row costs: each piece of display width `w` costs one row
/// plus one row per `width` cells of overflow.
pub open spec fn widths_rows(widths: Seq<usize>, width: int, n: int) -> int
    decreases n,
{
    if n <= 0 {
        1
    } else {
        widths_rows(widths, width, n - 1) + 1 + widths[n - 1] as int / width
    }
}

/// Sum of the first `n` piece widths.
pub open spec fn total_widths(widths: Seq<usize>, n: int) -> int
    decreases n,
{
    if n <= 0 {
        0
    } else {
        total_widths(widths, n - 1) + widths[n - 1] as int
    }
}

proof fn lemma_total_widths_mono(widths: Seq<usize>, a: int, b: int)
    requires
        0 <= a <= b,
    ensures
        total_widths(widths, a) <= total_widths(widths, b),
        total_widths(widths, a) >= 0,
    decreases b,
{
    if a < b {
        lemma_total_widths_mono(widths, a, b - 1);
    } else if a > 0 {
        lemma_total_widths_mono(widths, a - 1, a - 1);
    }
}

/// Rows needed by a sequence of already-measured pieces, one wrapped
/// paragraph per piece.
pub fn get_numlines_from_widths(widths: &Vec<usize>, width: usize) -> (r: usize)
    requires
        width >= 1,
        total_widths(widths@, widths@.len() as int) + widths@.len() + 1 <= usize::MAX,
    ensures
        r as int == widths_rows(widths@, width as int, widths@.len() as int),
{
    let mut num_lines: usize = 1;
    let n = widths.len();
    for i in 0..n
        invariant
            n == widths@.len(),
            width >= 1,
            total_widths(widths@, n as int) + n + 1 <= usize::MAX,
            num_lines as int == widths_rows(widths@, width as int, i as int),
            num_lines <= 1 + i + total_widths(widths@, i as int),
    {
        let w: usize = widths[i];
        proof {
            lemma_total_widths_mono(widths@, i + 1 as int, n as int);
            assert(w / width <= w as int) by (nonlinear_arith)
                requires
                    width >= 1,
                    w >= 0,
            ;
        }
        num_lines = num_lines + 1 + w / width;
    }
    num_lines
}

} // verus!
