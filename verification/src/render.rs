//! The grid renderer: turns one layout row into fixed-width text lines — a
//! top connector line, a content line with the active marker and a label,
//! and a bottom connector line — three characters per column.

use crate::dag_layout::{links_of, CellId, LayoutRow, RowModel};
use vstd::prelude::*;
use vstd::string::StringExecFns;

verus! {

// ---------------------------------------------------------------------------
// Connector-line model
//
// A top line looks at the links arriving at each of this row's columns and
// compares their source columns in the previous row; a bottom line looks at
// the links leaving each column and compares their target columns in the
// next row. `down` selects the bottom-line reading.
// ---------------------------------------------------------------------------

/// The end of a link lying in this row: the target for a top line, the
/// source for a bottom line.
pub open spec fn link_anchor(l: (int, int), down: bool) -> int {
    if down {
        l.0
    } else {
        l.1
    }
}

/// The end of a link lying in the adjacent row.
pub open spec fn link_far_end(l: (int, int), down: bool) -> int {
    if down {
        l.1
    } else {
        l.0
    }
}

/// Some link anchored at column `i` has its far end left of `i`.
pub open spec fn has_less(links: Seq<(int, int)>, i: int, down: bool) -> bool {
    exists|k: int|
        0 <= k < links.len() && link_anchor(#[trigger] links[k], down) == i && link_far_end(
            links[k],
            down,
        ) < i
}

/// Some link anchored at column `i` has its far end exactly at `i`.
pub open spec fn has_eq(links: Seq<(int, int)>, i: int, down: bool) -> bool {
    exists|k: int|
        0 <= k < links.len() && link_anchor(#[trigger] links[k], down) == i && link_far_end(
            links[k],
            down,
        ) == i
}

/// Some link anchored at column `i` has its far end right of `i`.
pub open spec fn has_more(links: Seq<(int, int)>, i: int, down: bool) -> bool {
    exists|k: int|
        0 <= k < links.len() && link_anchor(#[trigger] links[k], down) == i && link_far_end(
            links[k],
            down,
        ) > i
}

/// The three glyphs of column `i` of a connector line: a diagonal from the
/// left, a vertical, a diagonal from the right. The diagonal sense of a
/// bottom line mirrors that of a top line.
pub open spec fn connector_mark(links: Seq<(int, int)>, i: int, down: bool) -> Seq<char> {
    seq![
        if has_less(links, i, down) {
            if down {
                '/'
            } else {
                '\\'
            }
        } else {
            ' '
        },
        if has_eq(links, i, down) {
            '|'
        } else {
            ' '
        },
        if has_more(links, i, down) {
            if down {
                '\\'
            } else {
                '/'
            }
        } else {
            ' '
        },
    ]
}

/// The first `n` columns of a connector line, concatenated.
pub open spec fn spec_connector_cells(links: Seq<(int, int)>, n: int, down: bool) -> Seq<char>
    decreases n,
{
    if n <= 0 {
        Seq::empty()
    } else {
        spec_connector_cells(links, n - 1, down) + connector_mark(links, n - 1, down)
    }
}

/// The three content-line characters of column `i`: the active column is
/// marked with an asterisk, every other column passes through.
pub open spec fn content_mark(i: int, active: int) -> Seq<char> {
    if i == active {
        seq![' ', '*', ' ']
    } else {
        seq![' ', '|', ' ']
    }
}

/// The first `n` columns of a content line, concatenated.
pub open spec fn spec_content_cells(n: int, active: int) -> Seq<char>
    decreases n,
{
    if n <= 0 {
        Seq::empty()
    } else {
        spec_content_cells(n - 1, active) + content_mark(n - 1, active)
    }
}

/// The full content line: the column marks, one separating space, the label.
pub open spec fn spec_content_line(row: RowModel, label: Seq<char>) -> Seq<char> {
    spec_content_cells(row.ids.len() as int, row.active) + seq![' '] + label
}

/// Connector lines are three characters per column.
pub proof fn lemma_connector_width(links: Seq<(int, int)>, n: int, down: bool)
    requires
        n >= 0,
    ensures
        spec_connector_cells(links, n, down).len() == 3 * n,
    decreases n,
{
    if n > 0 {
        lemma_connector_width(links, n - 1, down);
    }
}

/// Content-line column marks are three characters per column, so the three
/// lines of one row are equally wide.
pub proof fn lemma_content_width(n: int, active: int)
    requires
        n >= 0,
    ensures
        spec_content_cells(n, active).len() == 3 * n,
    decreases n,
{
    if n > 0 {
        lemma_content_width(n - 1, active);
    }
}

// ---------------------------------------------------------------------------
// Executable renderer
// ---------------------------------------------------------------------------

/// How the glyph tests change when one more link is taken into account.
proof fn lemma_has_step(links: Seq<(int, int)>, k: int, i: int, down: bool)
    requires
        0 <= k < links.len(),
    ensures
        has_less(links.take(k + 1), i, down) == (has_less(links.take(k), i, down) || (link_anchor(
            links[k],
            down,
        ) == i && link_far_end(links[k], down) < i)),
        has_eq(links.take(k + 1), i, down) == (has_eq(links.take(k), i, down) || (link_anchor(
            links[k],
            down,
        ) == i && link_far_end(links[k], down) == i)),
        has_more(links.take(k + 1), i, down) == (has_more(links.take(k), i, down) || (link_anchor(
            links[k],
            down,
        ) == i && link_far_end(links[k], down) > i)),
{
    let s = links.take(k);
    let s1 = links.take(k + 1);
    assert(s1 =~= s.push(links[k]));
    assert(s1[k] == links[k]);
    assert forall|w: int| 0 <= w < k implies #[trigger] s[w] == s1[w] by {}
    if has_less(s1, i, down) {
        let w = choose|w: int|
            0 <= w < s1.len() && link_anchor(#[trigger] s1[w], down) == i && link_far_end(
                s1[w],
                down,
            ) < i;
        if w < k {
            assert(s[w] == s1[w]);
        }
    }
    if has_eq(s1, i, down) {
        let w = choose|w: int|
            0 <= w < s1.len() && link_anchor(#[trigger] s1[w], down) == i && link_far_end(
                s1[w],
                down,
            ) == i;
        if w < k {
            assert(s[w] == s1[w]);
        }
    }
    if has_more(s1, i, down) {
        let w = choose|w: int|
            0 <= w < s1.len() && link_anchor(#[trigger] s1[w], down) == i && link_far_end(
                s1[w],
                down,
            ) > i;
        if w < k {
            assert(s[w] == s1[w]);
        }
    }
    if has_less(s, i, down) {
        let w = choose|w: int|
            0 <= w < s.len() && link_anchor(#[trigger] s[w], down) == i && link_far_end(
                s[w],
                down,
            ) < i;
        assert(s1[w] == s[w]);
    }
    if has_eq(s, i, down) {
        let w = choose|w: int|
            0 <= w < s.len() && link_anchor(#[trigger] s[w], down) == i && link_far_end(
                s[w],
                down,
            ) == i;
        assert(s1[w] == s[w]);
    }
    if has_more(s, i, down) {
        let w = choose|w: int|
            0 <= w < s.len() && link_anchor(#[trigger] s[w], down) == i && link_far_end(
                s[w],
                down,
            ) > i;
        assert(s1[w] == s[w]);
    }
}

/// Scans a link list for column `i` and reports whether any link anchored at
/// `i` has its far end left of, at, or right of `i`.
fn column_sources(links: &Vec<(CellId, CellId)>, i: usize, down: bool) -> (r: (bool, bool, bool))
    ensures
        r.0 == has_less(links_of(links@), i as int, down),
        r.1 == has_eq(links_of(links@), i as int, down),
        r.2 == has_more(links_of(links@), i as int, down),
{
    let ghost lv = links_of(links@);
    let mut less = false;
    let mut eq = false;
    let mut more = false;
    let mut k: usize = 0;
    while k < links.len()
        invariant
            k <= lv.len(),
            lv == links_of(links@),
            lv.len() == links@.len(),
            less == has_less(lv.take(k as int), i as int, down),
            eq == has_eq(lv.take(k as int), i as int, down),
            more == has_more(lv.take(k as int), i as int, down),
        decreases lv.len() - k,
    {
        let link = links[k];
        proof {
            assert(lv[k as int] == (link.0.0 as int, link.1.0 as int));
            lemma_has_step(lv, k as int, i as int, down);
        }
        let anchor: u32 = if down {
            link.0.0
        } else {
            link.1.0
        };
        let far: u32 = if down {
            link.1.0
        } else {
            link.0.0
        };
        if anchor as usize == i {
            if (far as usize) < i {
                less = true;
            } else if far as usize == i {
                eq = true;
            } else {
                more = true;
            }
        }
        k += 1;
    }
    proof {
        assert(lv.take(lv.len() as int) =~= lv);
    }
    (less, eq, more)
}

/// Renders one connector line: three characters per column, `down` selecting
/// the bottom-line reading and glyphs.
fn connector_line(links: &Vec<(CellId, CellId)>, ncols: usize, down: bool) -> (r: String)
    ensures
        r@ == spec_connector_cells(links_of(links@), ncols as int, down),
{
    let mut line = String::new();
    let mut i: usize = 0;
    while i < ncols
        invariant
            i <= ncols,
            line@ == spec_connector_cells(links_of(links@), i as int, down),
        decreases ncols - i,
    {
        proof {
            reveal_strlit("/");
            reveal_strlit("\\");
            reveal_strlit("|");
            reveal_strlit(" ");
        }
        let (less, eq, more) = column_sources(links, i, down);
        let g1: &str = if less {
            if down {
                "/"
            } else {
                "\\"
            }
        } else {
            " "
        };
        let g2: &str = if eq {
            "|"
        } else {
            " "
        };
        let g3: &str = if more {
            if down {
                "\\"
            } else {
                "/"
            }
        } else {
            " "
        };
        line.append(g1);
        line.append(g2);
        line.append(g3);
        proof {
            assert(line@ =~= spec_connector_cells(links_of(links@), i as int + 1, down));
        }
        i += 1;
    }
    line
}

/// The top connector line of a row: how its columns connect to the previous
/// row's columns.
pub fn top_connector_line(row: &LayoutRow) -> (r: String)
    ensures
        r@ == spec_connector_cells(row@.top, row@.ids.len() as int, false),
{
    connector_line(&row.top_links, row.cells.len(), false)
}

/// The bottom connector line of a row: how its columns connect to the next
/// row's columns.
pub fn bottom_connector_line(row: &LayoutRow) -> (r: String)
    ensures
        r@ == spec_connector_cells(row@.bot, row@.ids.len() as int, true),
{
    connector_line(&row.bot_links, row.cells.len(), true)
}

/// The content line of a row: an asterisk in the active column, a vertical
/// in every other column, then one space and the row's label.
pub fn content_line(row: &LayoutRow, label: &str) -> (r: String)
    ensures
        r@ == spec_content_line(row@, label@),
{
    let mut line = String::new();
    let mut i: usize = 0;
    while i < row.cells.len()
        invariant
            i <= row@.ids.len(),
            row@.ids.len() == row.cells@.len(),
            line@ == spec_content_cells(i as int, row@.active),
        decreases row.cells@.len() - i,
    {
        proof {
            reveal_strlit(" * ");
            reveal_strlit(" | ");
        }
        let mark: &str = if row.active_cell.0 as usize == i {
            " * "
        } else {
            " | "
        };
        line.append(mark);
        proof {
            assert(line@ =~= spec_content_cells(i as int + 1, row@.active));
        }
        i += 1;
    }
    line.append(" ");
    line.append(label);
    proof {
        reveal_strlit(" ");
        assert(line@ =~= spec_content_line(row@, label@));
    }
    line
}

} // verus!
