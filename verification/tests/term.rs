use fatty::term::{Cell, CellAttrs, LineClearMode, Term, TermAttr, TermColor, TermMode, BACKGROUND, FOREGROUND};

fn line(t: &Term, y: usize) -> String {
    t.cells[y].iter().map(|c| c.ch).collect()
}

fn typed(width: usize, text: &str) -> Term {
    let mut t = Term::new(width);
    for ch in text.chars() {
        t.input(ch);
    }
    t
}

#[test]
fn text_fills_rows_and_wraps() {
    let t = typed(4, "abcdef");
    assert_eq!(t.cells.len(), 2);
    assert_eq!(line(&t, 0), "abcd");
    assert_eq!(line(&t, 1), "ef  ");
    assert_eq!((t.cursor_x, t.cursor_y), (2, 1));
    assert_eq!(t.cells[0][0].fg, TermColor::Named(FOREGROUND));
    assert_eq!(t.cells[1][3], Cell::default_cell());
}

#[test]
fn insert_mode_pushes_the_row_right() {
    let mut t = typed(5, "abc");
    t.carriage_return();
    t.set_mode(TermMode::Insert);
    t.input('x');
    assert_eq!(line(&t, 0), "xabc ");
    t.unset_mode(TermMode::Insert);
    t.input('y');
    assert_eq!(line(&t, 0), "xybc ");
    t.set_mode(TermMode::Unknown);
    assert!(!t.insert_mode);
}

#[test]
fn blanks_are_inserted_and_cells_deleted_at_the_cursor() {
    let mut t = typed(6, "abcdef");
    t.goto(0, 1);
    t.insert_blank(2);
    assert_eq!(line(&t, 0), "a  bcd");
    let mut t = typed(6, "abcdef");
    t.goto(0, 1);
    t.delete_chars(2);
    assert_eq!(line(&t, 0), "adef  ");
    let mut t = typed(6, "abcdef");
    t.goto(0, 4);
    t.insert_blank(9);
    assert_eq!(line(&t, 0), "abcd  ");
}

#[test]
fn erasing_and_clearing_keep_the_cursor() {
    let mut t = typed(6, "abcdef");
    t.goto(0, 2);
    t.erase_chars(2);
    assert_eq!(line(&t, 0), "ab  ef");
    assert_eq!(t.cursor_x, 2);
    t.erase_chars(100);
    assert_eq!(line(&t, 0), "ab    ");
    let mut t = typed(6, "abcdef");
    t.goto(0, 2);
    t.clear_line(LineClearMode::Left);
    assert_eq!(line(&t, 0), "   def");
    t.clear_line(LineClearMode::Right);
    assert_eq!(line(&t, 0), "      ");
    let mut t = typed(6, "abcdef");
    t.goto(0, 0);
    t.clear_line(LineClearMode::All);
    assert_eq!(line(&t, 0), "      ");
}

#[test]
fn tabs_stop_every_eight_columns() {
    let mut t = Term::new(20);
    t.put_tab(1);
    assert_eq!(t.cursor_x, 8);
    assert_eq!(t.cells[0][0].ch, '\t');
    t.put_tab(2);
    assert_eq!(t.cursor_x, 19);
    t.put_tab(3);
    assert_eq!(t.cursor_x, 19);
    let mut t = Term::new(20);
    t.move_forward_tabs(1);
    assert_eq!(t.cursor_x, 0);
    t.move_forward(3);
    t.move_forward_tabs(3);
    assert_eq!(t.cursor_x, 8);
}

#[test]
fn the_cursor_moves_within_the_grid() {
    let mut t = Term::new(10);
    t.goto(-5, 50);
    assert_eq!((t.cursor_x, t.cursor_y), (9, 0));
    t.goto_line(3);
    assert_eq!(t.cells.len(), 4);
    t.move_up(10);
    assert_eq!(t.cursor_y, 0);
    t.move_down(2);
    assert_eq!(t.cursor_y, 2);
    t.move_backward(20);
    assert_eq!(t.cursor_x, 0);
    t.backspace();
    assert_eq!(t.cursor_x, 0);
    t.goto_col(4);
    t.linefeed();
    t.newline();
    assert_eq!((t.cursor_x, t.cursor_y), (4, 4));
    assert_eq!(t.cells.len(), 4);
    let c = t.cursor_cell();
    assert_eq!(c, Cell::default_cell());
    assert_eq!(t.cells.len(), 5);
}

#[test]
fn attributes_color_new_text() {
    let mut t = Term::new(4);
    t.terminal_attribute(TermAttr::Foreground(TermColor::Indexed(3)));
    t.terminal_attribute(TermAttr::Bold);
    t.input('a');
    assert_eq!(t.cells[0][0].fg, TermColor::Indexed(3));
    assert_eq!(t.cells[0][0].attrs, CellAttrs { bold: true, italic: false });
    t.terminal_attribute(TermAttr::Background(TermColor::Spec(1, 2, 3)));
    t.erase_chars(1);
    assert_eq!(t.cells[0][1].bg, TermColor::Spec(1, 2, 3));
    t.terminal_attribute(TermAttr::Reset);
    assert_eq!(t.cursor_fg, TermColor::Named(FOREGROUND));
    assert_eq!(t.cursor_bg, TermColor::Named(BACKGROUND));
    assert_eq!(t.cursor_attrs, CellAttrs { bold: false, italic: false });
}

#[test]
fn colors_resolve_through_the_palette() {
    let t = Term::new(1);
    let palette: Vec<(u8, u8, u8)> = (0..16u8).map(|i| (i, i, i)).collect();
    assert_eq!(t.resolve(&palette, TermColor::Spec(9, 8, 7)), ((9, 8, 7), false));
    assert_eq!(t.resolve(&palette, TermColor::Indexed(12)), ((12, 12, 12), false));
    assert_eq!(t.resolve(&palette, TermColor::Named(FOREGROUND)), ((0, 0, 0), false));
    assert_eq!(t.resolve(&palette, TermColor::Named(BACKGROUND)), ((7, 7, 7), false));
    assert_eq!(t.resolve(&palette, TermColor::Named(261)), ((2, 2, 2), true));
    assert_eq!(t.resolve(&palette, TermColor::Named(267)), ((8, 8, 8), false));
    assert_eq!(t.resolve(&palette, TermColor::Named(268)), ((0, 0, 0), true));
}
