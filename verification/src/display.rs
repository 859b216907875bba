//! Text shown around the table.

use crate::app::AppState;
use crate::frame::{decimal, push_decimal};
use crate::order::{SortDir, SortKey};
use crate::tree::{BranchKind, RowView, TreeRow};
use vstd::prelude::*;
use vstd::string::StringExecFns;

verus! {

/// A column header: the label, followed by an arrow for the sort direction when the
/// table is sorted on this column.
pub open spec fn header_text(label: Seq<char>, col: SortKey, key: SortKey, dir: SortDir) -> Seq<char> {
    if key == col {
        label + seq![' ', match dir {
            SortDir::Asc => '\u{25B2}',
            SortDir::Desc => '\u{25BC}',
        }]
    } else {
        label
    }
}

/// The header text of column `col` (see `header_text`).
pub fn sort_label(label: &str, col: SortKey, state: &AppState) -> (r: String)
    ensures
        r@ == header_text(label@, col, state.sort_key, state.sort_dir),
{
    let mut out = String::from_str(label);
    if state.sort_key == col {
        match state.sort_dir {
            SortDir::Asc => {
                proof {
                    reveal_strlit(" \u{25B2}");
                }
                out.append(" \u{25B2}");
                assert(out@ =~= label@ + seq![' ', '\u{25B2}']);
            },
            SortDir::Desc => {
                proof {
                    reveal_strlit(" \u{25BC}");
                }
                out.append(" \u{25BC}");
                assert(out@ =~= label@ + seq![' ', '\u{25BC}']);
            },
        }
    }
    out
}

/// The three characters drawn for one tree column.
pub open spec fn glyph(b: BranchKind) -> Seq<char> {
    match b {
        BranchKind::Pipe => "\u{2502}  "@,
        BranchKind::Space => "   "@,
        BranchKind::Tee => "\u{251c}\u{2500} "@,
        BranchKind::Corner => "\u{2514}\u{2500} "@,
    }
}

/// The tree columns drawn before a name, left to right.
pub open spec fn glyphs(bs: Seq<BranchKind>) -> Seq<char>
    decreases bs.len(),
{
    if bs.len() == 0 {
        Seq::empty()
    } else {
        glyphs(bs.drop_last()) + glyph(bs.last())
    }
}

/// The name cell of a row: the tree columns, the name, and for a folded row the number
/// of rows folded into it, as ` (+N)`.
pub open spec fn name_cell(r: RowView, name: Seq<char>) -> Seq<char> {
    glyphs(r.branches) + name + if r.is_collapsed {
        " (+"@ + decimal(r.collapsed_count) + ")"@
    } else {
        Seq::empty()
    }
}

/// The table title: the number of processes, or while filtering the number shown out of
/// all.
pub open spec fn title_text(filtering: bool, shown: nat, total: nat) -> Seq<char> {
    if filtering {
        "Processos ("@ + decimal(shown) + "/"@ + decimal(total) + ")"@
    } else {
        "Processos ("@ + decimal(total) + ")"@
    }
}

/// The tree columns of a row (see `glyphs`).
pub fn branch_text(branches: &Vec<BranchKind>) -> (r: String)
    ensures
        r@ == glyphs(branches@),
{
    let mut out = String::new();
    let mut k: usize = 0;
    while k < branches.len()
        invariant
            k <= branches@.len(),
            out@ == glyphs(branches@.take(k as int)),
        decreases branches@.len() - k,
    {
        match branches[k] {
            BranchKind::Pipe => out.append("\u{2502}  "),
            BranchKind::Space => out.append("   "),
            BranchKind::Tee => out.append("\u{251c}\u{2500} "),
            BranchKind::Corner => out.append("\u{2514}\u{2500} "),
        }
        assert(branches@.take(k + 1).drop_last() =~= branches@.take(k as int));
        assert(branches@.take(k + 1).last() == branches@[k as int]);
        k = k + 1;
    }
    assert(branches@.take(branches@.len() as int) =~= branches@);
    out
}

/// The name cell of a row (see `name_cell`).
pub fn name_text(row: &TreeRow, name: &str) -> (r: String)
    ensures
        r@ == name_cell(row@, name@),
{
    let mut out = branch_text(&row.branches);
    out.append(name);
    if row.is_collapsed {
        out.append(" (+");
        push_decimal(&mut out, row.collapsed_count as u64);
        out.append(")");
    }
    assert(out@ =~= name_cell(row@, name@));
    out
}

/// The table title (see `title_text`).
pub fn table_title(filtering: bool, shown: usize, total: usize) -> (r: String)
    ensures
        r@ == title_text(filtering, shown as nat, total as nat),
{
    let mut out = String::new();
    out.append("Processos (");
    if filtering {
        push_decimal(&mut out, shown as u64);
        out.append("/");
    }
    push_decimal(&mut out, total as u64);
    out.append(")");
    assert(out@ =~= title_text(filtering, shown as nat, total as nat));
    out
}

} // verus!
