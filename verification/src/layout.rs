//! Splitting the terminal into the tab bar, chat pane, nick list and prompt.

use vstd::prelude::*;
use crate::ui::{Area, NICKLIST_W};
use ratatui::layout::{Constraint, Direction, Layout, Rect};

verus! {

/// A size request for one part of a split.
#[derive(Clone, Copy, PartialEq, Eq, Structural, Debug)]
pub enum Extent {
    /// Exactly this many cells.
    Length(u16),
    /// At least this many cells, growing into what is left.
    Min(u16),
}

/// `a` lies inside `outer`.
pub open spec fn within(a: Area, outer: Area) -> bool {
    &&& a.x >= outer.x
    &&& a.y >= outer.y
    &&& a.x + a.width <= outer.x + outer.width
    &&& a.y + a.height <= outer.y + outer.height
}

/// The start of `area` along the split axis.
pub open spec fn axis_start(area: Area, vertical: bool) -> int {
    if vertical {
        area.y as int
    } else {
        area.x as int
    }
}

/// The size of `area` along the split axis.
pub open spec fn axis_size(area: Area, vertical: bool) -> int {
    if vertical {
        area.height as int
    } else {
        area.width as int
    }
}

/// The cells that the `Length` requests ask for.
pub open spec fn lengths_total(e: Seq<Extent>) -> int
    decreases e.len(),
{
    if e.len() == 0 {
        0
    } else {
        lengths_total(e.drop_last()) + match e.last() {
            Extent::Length(n) => n as int,
            Extent::Min(_) => 0,
        }
    }
}

/// The cells that the `Min` requests ask for at least.
pub open spec fn mins_total(e: Seq<Extent>) -> int
    decreases e.len(),
{
    if e.len() == 0 {
        0
    } else {
        mins_total(e.drop_last()) + match e.last() {
            Extent::Length(_) => 0,
            Extent::Min(n) => n as int,
        }
    }
}

/// How many `Min` requests there are.
pub open spec fn min_count(e: Seq<Extent>) -> int
    decreases e.len(),
{
    if e.len() == 0 {
        0
    } else {
        min_count(e.drop_last()) + if e.last() is Min {
            1int
        } else {
            0
        }
    }
}

/// Every `Min` request fits in an `i16`, as the solver takes it.
pub open spec fn small_mins(e: Seq<Extent>) -> bool {
    forall|i: int| 0 <= i < e.len() ==> (#[trigger] e[i] matches Extent::Min(n) ==> n <= 0x7FFF)
}

/// The requests settle the split: there is one `Min`, every request can be
/// met at once, and the area does not reach past the last cell.
pub open spec fn determined(area: Area, vertical: bool, e: Seq<Extent>) -> bool {
    &&& min_count(e) == 1
    &&& small_mins(e)
    &&& lengths_total(e) + mins_total(e) <= axis_size(area, vertical)
    &&& axis_start(area, vertical) + axis_size(area, vertical) <= u16::MAX
}

/// The size of part `i` of a settled split: a `Length` gets its cells, the
/// `Min` the rest.
pub open spec fn part_size(e: Seq<Extent>, i: int, size: int) -> int {
    match e[i] {
        Extent::Length(n) => n as int,
        Extent::Min(_) => size - lengths_total(e),
    }
}

/// Where part `i` of a settled split starts, from the start of the area:
/// the parts lie one after another with no gaps.
pub open spec fn part_offset(e: Seq<Extent>, i: int, size: int) -> int
    decreases i,
{
    if i <= 0 {
        0
    } else {
        part_offset(e, i - 1, size) + part_size(e, i - 1, size)
    }
}

/// Part `i` of a settled split of `area`.
pub open spec fn placed(area: Area, vertical: bool, e: Seq<Extent>, i: int) -> Area {
    let off = part_offset(e, i, axis_size(area, vertical));
    let size = part_size(e, i, axis_size(area, vertical));
    if vertical {
        Area { x: area.x, y: (area.y + off) as u16, width: area.width, height: size as u16 }
    } else {
        Area { x: (area.x + off) as u16, y: area.y, width: size as u16, height: area.height }
    }
}

/// What holds of every result of splitting `area` by the requests `e`: one
/// area per request, each inside `area`; a vertical split keeps the columns
/// of `area`, a horizontal one its rows; and when the requests settle the
/// split, the parts are laid out one after another from the start, each
/// `Length` with its cells and the `Min` with the rest.
pub open spec fn split_outcome(area: Area, vertical: bool, e: Seq<Extent>, r: Seq<Area>) -> bool {
    &&& r.len() == e.len()
    &&& forall|i: int| 0 <= i < r.len() ==> within(#[trigger] r[i], area)
    &&& vertical ==> forall|i: int|
        0 <= i < r.len() ==> (#[trigger] r[i]).x == area.x && r[i].width == area.width
    &&& !vertical ==> forall|i: int|
        0 <= i < r.len() ==> (#[trigger] r[i]).y == area.y && r[i].height == area.height
    &&& determined(area, vertical, e) ==> forall|i: int|
        0 <= i < r.len() ==> #[trigger] r[i] == placed(area, vertical, e, i)
}

/// Calls `ratatui::layout::Layout::split` on `area`, top to bottom when
/// `vertical`, else left to right, with one constraint per extent. From the
/// source: one area per constraint; the solver's required constraints keep
/// each inside `area`; the cross axis is copied from `area`. Under the
/// default `Flex::Start`, gaps between parts and before the first are held
/// at zero, a `Length` is held to its size (strength 10 000 000) above the
/// `Min`'s growth (1 000) and the trailing gap's growth (100), so with one
/// `Min` and room for every request the optimum is unique and is the
/// tiling `placed` describes. Where requests compete (no room, or several
/// `Min`s) the solver may settle ties differently from call to call, and
/// nothing more is stated.
#[verifier::external_body]
fn split_area(area: Area, vertical: bool, extents: &Vec<Extent>) -> (r: Vec<Area>)
    ensures
        split_outcome(area, vertical, extents@, r@),
{
    let rect = Rect { x: area.x, y: area.y, width: area.width, height: area.height };
    let dir = if vertical { Direction::Vertical } else { Direction::Horizontal };
    let cs = extents.iter().map(|e| match e {
        Extent::Length(n) => Constraint::Length(*n),
        Extent::Min(n) => Constraint::Min(*n),
    });
    let rects = Layout::default().direction(dir).constraints(cs).split(rect);
    rects.iter().map(|r| Area { x: r.x, y: r.y, width: r.width, height: r.height }).collect()
}

/// The four panes of the screen.
#[derive(Clone, Copy, PartialEq, Eq, Structural, Debug)]
pub struct Panes {
    pub tabs: Area,
    pub chat: Area,
    pub nicklist: Area,
    pub prompt: Area,
}

/// The panes taken from the three rows (tab bar, middle, prompt) and the
/// two columns of the middle row (chat, nick list).
pub open spec fn panes_from(rows: Seq<Area>, cols: Seq<Area>) -> Panes {
    Panes { tabs: rows[0], chat: cols[0], nicklist: cols[1], prompt: rows[2] }
}

/// Assigns the split areas to the panes.
pub fn panes_of(rows: &Vec<Area>, cols: &Vec<Area>) -> (p: Panes)
    requires
        rows@.len() == 3,
        cols@.len() == 2,
    ensures
        p == panes_from(rows@, cols@),
{
    Panes { tabs: rows[0], chat: cols[0], nicklist: cols[1], prompt: rows[2] }
}

/// The rows: a one-line tab bar, the middle, a one-line prompt.
pub open spec fn row_extents() -> Seq<Extent> {
    seq![Extent::Length(1), Extent::Min(1), Extent::Length(1)]
}

/// The columns of the middle row: the chat pane, then the nick list.
pub open spec fn column_extents() -> Seq<Extent> {
    seq![Extent::Min(1), Extent::Length(NICKLIST_W)]
}

/// Splits the terminal into its panes: three rows (one line, the rest, one
/// line), the middle one split into the chat pane and a nick list of
/// `NICKLIST_W` columns. With at least three rows the tab bar is the top
/// row and the prompt the bottom one; with room for the nick list as well,
/// it takes the right-hand columns of the middle row and the chat pane the
/// rest. Smaller terminals leave ties to the solver.
pub fn layout(area: Area) -> (p: Panes)
    ensures
        exists|rows: Seq<Area>, cols: Seq<Area>|
            split_outcome(area, true, row_extents(), rows) && split_outcome(
                rows[1],
                false,
                column_extents(),
                cols,
            ) && p == #[trigger] panes_from(rows, cols),
        area.height >= 3 && area.y + area.height <= u16::MAX ==> {
            &&& p.tabs == Area { x: area.x, y: area.y, width: area.width, height: 1 }
            &&& p.prompt == Area {
                x: area.x,
                y: (area.y + area.height - 1) as u16,
                width: area.width,
                height: 1,
            }
            &&& area.width >= NICKLIST_W + 1 && area.x + area.width <= u16::MAX ==> {
                &&& p.chat == Area {
                    x: area.x,
                    y: (area.y + 1) as u16,
                    width: (area.width - NICKLIST_W) as u16,
                    height: (area.height - 2) as u16,
                }
                &&& p.nicklist == Area {
                    x: (area.x + area.width - NICKLIST_W) as u16,
                    y: (area.y + 1) as u16,
                    width: NICKLIST_W,
                    height: (area.height - 2) as u16,
                }
            }
        },
{
    let mut rows_req: Vec<Extent> = Vec::new();
    rows_req.push(Extent::Length(1));
    rows_req.push(Extent::Min(1));
    rows_req.push(Extent::Length(1));
    proof {
        assert(rows_req@ =~= row_extents());
    }
    let rows = split_area(area, true, &rows_req);
    let mut cols_req: Vec<Extent> = Vec::new();
    cols_req.push(Extent::Min(1));
    cols_req.push(Extent::Length(NICKLIST_W));
    proof {
        assert(cols_req@ =~= column_extents());
    }
    let cols = split_area(rows[1], false, &cols_req);
    let p = panes_of(&rows, &cols);
    proof {
        lemma_row_extents();
        lemma_column_extents();
        if area.height >= 3 && area.y + area.height <= u16::MAX {
            assert(determined(area, true, row_extents()));
            assert(rows@[0] == placed(area, true, row_extents(), 0));
            assert(rows@[1] == placed(area, true, row_extents(), 1));
            assert(rows@[2] == placed(area, true, row_extents(), 2));
            if area.width >= NICKLIST_W + 1 && area.x + area.width <= u16::MAX {
                assert(determined(rows@[1], false, column_extents()));
                assert(cols@[0] == placed(rows@[1], false, column_extents(), 0));
                assert(cols@[1] == placed(rows@[1], false, column_extents(), 1));
            }
        }
        assert(split_outcome(area, true, row_extents(), rows@) && split_outcome(
            rows@[1],
            false,
            column_extents(),
            cols@,
        ) && p == panes_from(rows@, cols@));
    }
    p
}

proof fn lemma_row_extents()
    ensures
        lengths_total(row_extents()) == 2,
        mins_total(row_extents()) == 1,
        min_count(row_extents()) == 1,
        small_mins(row_extents()),
        forall|size: int|
            part_offset(row_extents(), 0, size) == 0 && part_offset(row_extents(), 1, size) == 1
                && #[trigger] part_offset(row_extents(), 2, size) == size - 1,
        forall|size: int|
            part_size(row_extents(), 0, size) == 1 && part_size(row_extents(), 1, size) == size - 2
                && #[trigger] part_size(row_extents(), 2, size) == 1,
{
    let e = row_extents();
    let e2 = e.drop_last();
    let e1 = e2.drop_last();
    let e0 = e1.drop_last();
    assert(e2 =~= seq![Extent::Length(1), Extent::Min(1)]);
    assert(e1 =~= seq![Extent::Length(1)]);
    assert(e0 =~= Seq::<Extent>::empty());
    assert(e.last() == Extent::Length(1) && e2.last() == Extent::Min(1) && e1.last()
        == Extent::Length(1));
    assert(lengths_total(e0) == 0 && mins_total(e0) == 0 && min_count(e0) == 0);
    assert(lengths_total(e1) == 1 && mins_total(e1) == 0 && min_count(e1) == 0);
    assert(lengths_total(e2) == 1 && mins_total(e2) == 1 && min_count(e2) == 1);
    assert(lengths_total(e) == 2 && mins_total(e) == 1 && min_count(e) == 1);
    assert(e[0] == Extent::Length(1) && e[1] == Extent::Min(1) && e[2] == Extent::Length(1));
    assert forall|size: int|
        part_offset(e, 0, size) == 0 && part_offset(e, 1, size) == 1 && #[trigger] part_offset(
            e,
            2,
            size,
        ) == size - 1 by {
        assert(part_offset(e, 1, size) == part_offset(e, 0, size) + part_size(e, 0, size));
        assert(part_offset(e, 2, size) == part_offset(e, 1, size) + part_size(e, 1, size));
    }
}

proof fn lemma_column_extents()
    ensures
        lengths_total(column_extents()) == NICKLIST_W,
        mins_total(column_extents()) == 1,
        min_count(column_extents()) == 1,
        small_mins(column_extents()),
        forall|size: int|
            part_offset(column_extents(), 0, size) == 0 && #[trigger] part_offset(
                column_extents(),
                1,
                size,
            ) == size - NICKLIST_W,
        forall|size: int|
            part_size(column_extents(), 0, size) == size - NICKLIST_W && #[trigger] part_size(
                column_extents(),
                1,
                size,
            ) == NICKLIST_W,
{
    let e = column_extents();
    let e1 = e.drop_last();
    let e0 = e1.drop_last();
    assert(e1 =~= seq![Extent::Min(1)]);
    assert(e0 =~= Seq::<Extent>::empty());
    assert(e.last() == Extent::Length(NICKLIST_W) && e1.last() == Extent::Min(1));
    assert(lengths_total(e0) == 0 && mins_total(e0) == 0 && min_count(e0) == 0);
    assert(lengths_total(e1) == 0 && mins_total(e1) == 1 && min_count(e1) == 1);
    assert(lengths_total(e) == NICKLIST_W && mins_total(e) == 1 && min_count(e) == 1);
    assert(e[0] == Extent::Min(1) && e[1] == Extent::Length(NICKLIST_W));
    assert forall|size: int|
        part_offset(e, 0, size) == 0 && #[trigger] part_offset(e, 1, size) == size - NICKLIST_W by {
        assert(part_offset(e, 1, size) == part_offset(e, 0, size) + part_size(e, 0, size));
    }
}

} // verus!
