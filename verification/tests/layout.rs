use vybim::buffer::Buffer;
use vybim::chrome::{divide, SIDEBAR_WIDTH, TERMINAL_AREA_WIDTH};
use vybim::diff_view::{DiffView, LIST_WIDTH};
use vybim::pane::EditorPane;
use vybim::style::Rect;
use vybim::terminal_area::TerminalArea;
use vybim::terminal_pane::TerminalPane;
use vybim::theme::Theme;

/// Whether areas stand in a row within `whole`, each as high as it is.
fn in_a_row(whole: Rect, parts: &[Rect]) -> bool {
    let mut x = whole.x;
    for p in parts {
        if p.x != x || p.y != whole.y || p.height != whole.height {
            return false;
        }
        x += p.width;
    }
    x == whole.x + whole.width
}

#[test]
fn the_footer_takes_the_last_row_of_two_or_more() {
    for height in 0..9 {
        let regions = divide(Rect::new(3, 2, 50, height), false, false, 1);
        let footer = if height >= 2 { 1 } else { 0 };
        assert_eq!(
            regions.footer,
            Rect::new(3, 2 + height - footer, 50, footer)
        );
        assert_eq!(regions.editors, Rect::new(3, 2, 50, height - footer));
        assert_eq!(regions.panes, vec![regions.editors]);
    }
}

#[test]
fn the_sidebar_has_its_width_or_all_there_is() {
    for width in 0..70 {
        let regions = divide(Rect::new(4, 0, width, 11), true, false, 1);
        let side = SIDEBAR_WIDTH.min(width);
        assert_eq!(regions.sidebar, Some(Rect::new(4, 0, side, 10)));
        assert_eq!(regions.editors, Rect::new(4 + side, 0, width - side, 10));
    }
}

#[test]
fn the_terminal_area_is_docked_at_the_right() {
    for width in 0..150 {
        let regions = divide(Rect::new(7, 1, width, 11), false, true, 1);
        let (divider, term) = regions.terminal.unwrap();
        let main = Rect::new(7, 1, width, 10);
        assert!(in_a_row(main, &[regions.editors, divider, term]), "{width}");
        if width > TERMINAL_AREA_WIDTH {
            assert_eq!((divider.width, term.width), (1, TERMINAL_AREA_WIDTH));
        } else {
            assert_eq!(regions.editors.width, 0, "{width}");
            assert!(divider.width <= 1 && term.width + divider.width == width, "{width}");
        }
    }
}

#[test]
fn panes_have_equal_shares_to_a_cell() {
    for panes in 1..7usize {
        for width in (0..40u16).chain([79, 80, 101, 132, 157, 200, 211]) {
            let regions = divide(Rect::new(5, 0, width, 4), false, false, panes);
            assert_eq!(regions.panes.len(), panes);
            assert_eq!(regions.dividers.len(), panes - 1);
            let mut all = vec![regions.panes[0]];
            for i in 1..panes {
                all.push(regions.dividers[i - 1]);
                all.push(regions.panes[i]);
            }
            let roomy = panes - 1 <= width as usize;
            if roomy || panes <= 2 {
                assert!(in_a_row(Rect::new(5, 0, width, 3), &all), "{panes} {width}");
            }
            if roomy {
                assert!(regions.dividers.iter().all(|d| d.width == 1));
                let widths: Vec<u16> = regions.panes.iter().map(|p| p.width).collect();
                let (min, max) = (widths.iter().min(), widths.iter().max());
                assert!(max.unwrap() - min.unwrap() <= 1, "{panes} {width}: {widths:?}");
            }
        }
    }
}

#[test]
fn many_panes_still_have_equal_shares() {
    for (panes, width) in [(9usize, 61u16), (11, 200), (16, 97), (16, 15), (16, 40)] {
        let regions = divide(Rect::new(0, 0, width, 4), false, false, panes);
        assert!(regions.dividers.iter().all(|d| d.width == 1), "{width}");
        let widths: Vec<u16> = regions.panes.iter().map(|p| p.width).collect();
        let (min, max) = (widths.iter().min(), widths.iter().max());
        assert!(max.unwrap() - min.unwrap() <= 1, "{width}: {widths:?}");
        let sum: u16 = widths.iter().sum();
        assert_eq!(sum as usize + panes - 1, width as usize);
    }
}

#[test]
fn areas_end_where_coordinates_end() {
    let screen = Rect::new(65500, 65530, 100, 100);
    let regions = divide(screen, true, false, 1);
    assert_eq!(regions.footer, Rect::new(65500, 65534, 100, 1));
    assert_eq!(regions.sidebar, Some(Rect::new(65500, 65530, 28, 4)));
    assert_eq!(regions.editors, Rect::new(65528, 65530, 7, 4));
}

#[test]
fn a_pane_has_a_gutter_and_a_status_bar() {
    let buffer = Buffer::from_str("one\ntwo");
    for width in 0..9 {
        for height in 0..5 {
            let mut pane = EditorPane::new(0);
            let area = Rect::new(2, 3, width, height);
            let plan = pane.render(area, &buffer, None, true, &Theme::default(), None);
            let status = if height >= 2 { 1 } else { 0 };
            let rows = height - status;
            let gutter = 4.min(width);
            assert_eq!(plan.content_area, Rect::new(2, 3, width, rows));
            assert_eq!(plan.status_area, Rect::new(2, 3 + rows, width, status));
            assert_eq!(plan.content.gutter, Rect::new(2, 3, gutter, rows));
            assert_eq!(
                plan.content.content,
                Rect::new(2 + gutter, 3, width - gutter, rows)
            );
        }
    }
}

#[test]
fn the_terminal_has_a_row_of_tabs_above_it() {
    let mut area = TerminalArea::new();
    area.add(TerminalPane::spawn(0));
    for height in 0..5 {
        let plan = area.render(Rect::new(1, 1, 9, height), true).unwrap();
        let tabs = if height >= 2 { 1 } else { 0 };
        assert_eq!(plan.tabs_area, Rect::new(1, 1, 9, tabs));
        assert_eq!(plan.content, Rect::new(1, 1 + tabs, 9, height - tabs));
    }
}

#[test]
fn the_diff_has_a_list_and_two_halves() {
    let view = DiffView::open(None, vec![]);
    for width in 0..90 {
        let plan = view.render(Rect::new(0, 0, width, 9), &Theme::default());
        let list = LIST_WIDTH.min(width);
        assert_eq!(plan.list_area, Rect::new(0, 0, list, 9));
        assert_eq!(plan.diff_area, Rect::new(list, 0, width - list, 9));
        assert!(in_a_row(plan.body, &[plan.left, plan.mid, plan.right]));
        if plan.body.width > 0 {
            assert_eq!(plan.mid.width, 1);
            assert!(plan.left.width.abs_diff(plan.right.width) <= 1);
        }
        assert_eq!(plan.header.height, 1);
        assert_eq!(plan.body.y, plan.header.y + 1);
    }
}
