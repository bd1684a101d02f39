//! The three rows of the screen: the target list, the output panel and the
//! status bar, as ratatui's layout solver places them.
use ratatui::layout::{Constraint, Direction, Layout, Rect};
use vstd::prelude::*;

use crate::ui::view::Area;

verus! {

/// A rectangle as plain values: x, y, width, height.
pub type Cells = (u16, u16, u16, u16);

/// The rectangle of an area, as plain values.
pub open spec fn cells(a: Area) -> Cells {
    (a.x, a.y, a.width, a.height)
}

/// The three rows ratatui's `Layout::split` gives for a vertical layout of
/// `area` under the constraints `Min(min_top)`, `Percentage(percent)` and
/// `Length(bottom)`.
pub uninterp spec fn vertical_rows(area: Cells, min_top: u16, percent: u16, bottom: u16) -> (
    Cells,
    Cells,
    Cells,
);

/// Calls ratatui's `Layout::split` on a vertical layout with the constraints
/// `Min(min_top)`, `Percentage(percent)`, `Length(bottom)`; the rows it
/// returns are named `vertical_rows` of the same arguments. The solver's
/// only required constraints keep the rows inside the area and in order,
/// which any area satisfies, so its `expect` does not fire. Nothing is
/// stated of the sizes the solver picks.
#[verifier::external_body]
fn split_rows(area: Area, min_top: u16, percent: u16, bottom: u16) -> (rows: (Area, Area, Area))
    ensures
        (cells(rows.0), cells(rows.1), cells(rows.2)) == vertical_rows(
            cells(area),
            min_top,
            percent,
            bottom,
        ),
{
    let r = Layout::default().direction(Direction::Vertical).constraints(
        [Constraint::Min(min_top), Constraint::Percentage(percent), Constraint::Length(bottom)],
    ).split(Rect { x: area.x, y: area.y, width: area.width, height: area.height });
    (
        Area { x: r[0].x, y: r[0].y, width: r[0].width, height: r[0].height },
        Area { x: r[1].x, y: r[1].y, width: r[1].width, height: r[1].height },
        Area { x: r[2].x, y: r[2].y, width: r[2].width, height: r[2].height },
    )
}

/// Where the panels go.
#[derive(Debug, Clone, Copy, PartialEq, Eq, Structural)]
pub struct AppLayout {
    pub target_list: Area,
    pub output: Area,
    pub statusbar: Area,
}

impl AppLayout {
    /// The panels in the three rows, top to bottom: the list, the output,
    /// the status bar.
    pub fn from_rows(rows: (Area, Area, Area)) -> (l: AppLayout)
        ensures
            l.target_list == rows.0,
            l.output == rows.1,
            l.statusbar == rows.2,
    {
        AppLayout { target_list: rows.0, output: rows.1, statusbar: rows.2 }
    }
}

/// Splits the screen: the list takes at least 3 rows, the output 45% of the
/// height, the status bar one row.
pub fn compute(area: Area) -> (l: AppLayout)
    ensures
        (cells(l.target_list), cells(l.output), cells(l.statusbar)) == vertical_rows(
            cells(area),
            3,
            45,
            1,
        ),
{
    AppLayout::from_rows(split_rows(area, 3, 45, 1))
}

} // verus!
