use lazyinstall::ui::layout::compute;
use lazyinstall::ui::view::Area;
use ratatui::layout::{Constraint, Direction, Layout, Rect};

fn area_of(r: Rect) -> Area {
    Area { x: r.x, y: r.y, width: r.width, height: r.height }
}

#[test]
fn the_screen_is_cut_into_list_output_and_status_rows() {
    let screen = Area { x: 0, y: 0, width: 80, height: 24 };
    let l = compute(screen);
    assert_eq!(l.statusbar, Area { x: 0, y: 23, width: 80, height: 1 });
    assert_eq!(l.target_list.y, 0);
    assert_eq!(l.output.y, l.target_list.height);
    assert_eq!(l.target_list.height + l.output.height + l.statusbar.height, 24);
    assert!(l.target_list.height >= 3);
    assert_eq!(l.target_list.width, 80);
    assert_eq!(l.output.width, 80);
}

#[test]
fn the_rows_are_those_of_the_layout_solver() {
    for (w, h) in [(80u16, 24u16), (120, 40), (30, 5), (200, 61)] {
        let rect = Rect { x: 3, y: 2, width: w, height: h };
        let rows = Layout::default()
            .direction(Direction::Vertical)
            .constraints([Constraint::Min(3), Constraint::Percentage(45), Constraint::Length(1)])
            .split(rect);
        let l = compute(area_of(rect));
        assert_eq!(l.target_list, area_of(rows[0]));
        assert_eq!(l.output, area_of(rows[1]));
        assert_eq!(l.statusbar, area_of(rows[2]));
        assert_ne!(l.output, area_of(rect));
    }
}
