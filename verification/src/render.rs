//! Tree-connector derivation: turns the flattened `(depth, sibling-count)`
//! rows of a process tree into the per-column connector glyphs a renderer
//! draws in front of each line, using a per-level remaining-sibling stack —
//! so the renderer never has to re-walk the tree.

use vstd::prelude::*;

verus! {

/// One connector column of one row.
#[derive(Debug, Eq, PartialEq, Copy, Clone, Structural)]
pub enum TreeGlyph {
    /// A branch to this row's node, with more siblings below.
    Tee,
    /// A vertical continuation through this column.
    Pass,
    /// A branch to this row's node, the last of its siblings.
    Corner,
    /// Nothing: the ancestor at this column has no siblings left.
    Blank,
}

/// The glyph of one column: branch or continuation while siblings remain,
/// corner or blank after the last one.
pub open spec fn glyph_cell(remaining: u32, at_tip: bool) -> TreeGlyph {
    if remaining > 0 {
        if at_tip {
            TreeGlyph::Tee
        } else {
            TreeGlyph::Pass
        }
    } else {
        if at_tip {
            TreeGlyph::Corner
        } else {
            TreeGlyph::Blank
        }
    }
}

/// One step of the remaining-sibling stack: entering a deeper row pushes
/// that level's sibling count, returning to a shallower or equal row
/// truncates the stack to that depth, and the row's own level is then
/// decremented if any siblings remain.
pub open spec fn prints_step(prev: Seq<u32>, row: (usize, u32)) -> Seq<u32> {
    let depth = row.0 as int;
    let sized = if depth > prev.len() {
        prev.push(row.1)
    } else {
        prev.take(depth)
    };
    if depth > 0 && sized[depth - 1] > 0 {
        sized.update(depth - 1, (sized[depth - 1] - 1) as u32)
    } else {
        sized
    }
}

/// The remaining-sibling stack after the first `n` rows.
pub open spec fn prints_at(rows: Seq<(usize, u32)>, n: int) -> Seq<u32>
    decreases n,
{
    if n <= 0 {
        Seq::empty()
    } else {
        prints_step(prints_at(rows, n - 1), rows[n - 1])
    }
}

/// The connector columns of one row, read off the stack after that row's
/// step: one glyph per ancestor level, the row's own level at the tip.
pub open spec fn glyph_row(prints: Seq<u32>, depth: int) -> Seq<TreeGlyph> {
    Seq::new(prints.len(), |k: int| glyph_cell(prints[k], k == depth - 1))
}

/// What the derivation demands of its input: the rows of a pre-order walk,
/// starting at depth one and never deepening by more than one level per
/// row — exactly what flattening a tree produces.
pub open spec fn rows_wf(rows: Seq<(usize, u32)>) -> bool {
    &&& forall|i: int| 0 <= i < rows.len() ==> (#[trigger] rows[i]).0 >= 1
    &&& rows.len() > 0 ==> rows[0].0 == 1
    &&& forall|i: int| 1 <= i < rows.len() ==> (#[trigger] rows[i]).0 <= rows[i - 1].0 + 1
}

proof fn lemma_prints_len(rows: Seq<(usize, u32)>, n: int)
    requires
        rows_wf(rows),
        0 <= n <= rows.len(),
    ensures
        prints_at(rows, n).len() == if n == 0 {
            0int
        } else {
            rows[n - 1].0 as int
        },
    decreases n,
{
    if n > 0 {
        lemma_prints_len(rows, n - 1);
    }
}

/// Derive the connector glyphs for every row of a flattened tree, given
/// each row's depth and its node's sibling count.
pub fn connector_rows(rows: &Vec<(usize, u32)>) -> (r: Vec<Vec<TreeGlyph>>)
    requires
        rows_wf(rows@),
    ensures
        r@.len() == rows@.len(),
        forall|i: int|
            0 <= i < rows@.len() ==> (#[trigger] r@[i])@ == glyph_row(
                prints_at(rows@, i + 1),
                rows@[i].0 as int,
            ),
{
    let n = rows.len();
    let mut out: Vec<Vec<TreeGlyph>> = Vec::new();
    let mut prints: Vec<u32> = Vec::new();
    for i in 0..n
        invariant
            n == rows@.len(),
            rows_wf(rows@),
            out@.len() == i,
            prints@ == prints_at(rows@, i as int),
            forall|k: int|
                0 <= k < i ==> (#[trigger] out@[k])@ == glyph_row(
                    prints_at(rows@, k + 1),
                    rows@[k].0 as int,
                ),
    {
        let (depth, num_siblings) = rows[i];
        proof {
            lemma_prints_len(rows@, i as int);
        }
        if depth > prints.len() {
            prints.push(num_siblings);
        } else {
            prints.truncate(depth);
        }
        proof {
            assert(prints@.len() == depth);
        }
        let tip = prints[depth - 1];
        if tip > 0 {
            prints.pop();
            prints.push(tip - 1);
            proof {
                assert(prints@ =~= prints_at(rows@, i + 1));
            }
        }
        proof {
            assert(prints@ == prints_at(rows@, i + 1));
        }
        let mut row_glyphs: Vec<TreeGlyph> = Vec::new();
        let mut k: usize = 0;
        let plen = prints.len();
        while k < plen
            invariant
                plen == prints@.len(),
                k <= plen,
                depth as int == plen,
                row_glyphs@.len() == k,
                forall|j: int|
                    0 <= j < k ==> #[trigger] row_glyphs@[j] == glyph_cell(
                        prints@[j],
                        j == depth - 1,
                    ),
            decreases plen - k,
        {
            let remaining = prints[k];
            let at_tip = k == plen - 1;
            let g = if remaining > 0 {
                if at_tip {
                    TreeGlyph::Tee
                } else {
                    TreeGlyph::Pass
                }
            } else {
                if at_tip {
                    TreeGlyph::Corner
                } else {
                    TreeGlyph::Blank
                }
            };
            row_glyphs.push(g);
            k += 1;
        }
        proof {
            assert(row_glyphs@ =~= glyph_row(prints_at(rows@, i + 1), rows@[i as int].0 as int));
        }
        out.push(row_glyphs);
    }
    out
}

} // verus!
