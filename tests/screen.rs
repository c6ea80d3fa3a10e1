use lambda_graph::{OutputCtx, Screen};

fn out(screen: &Screen, color: bool, space: Option<&str>, solid: &str) -> String {
    let mut ctx = OutputCtx {
        writer: String::new(),
        has_color: color,
        space: space.map(|s| s.to_string()),
        solid: solid.to_string(),
    };
    screen.print(&mut ctx);
    ctx.writer
}

#[test]
fn bar_and_line_grow_the_grid() {
    let mut s = Screen::new();
    s.line(1, 2, 3);
    s.bar(0, 0, 2);
    assert_eq!(out(&s, false, Some("."), "#"), "#\n#.###\n");
}

#[test]
fn zero_lengths_draw_nothing() {
    let mut s = Screen::new();
    s.bar(3, 3, 0);
    s.line(3, 3, 0);
    assert_eq!(out(&s, false, Some("."), "#"), "");
}

#[test]
fn highlight_wraps_whole_runs() {
    let mut s = Screen::new();
    s.line(0, 0, 2);
    s.line(0, 3, 1);
    assert_eq!(
        out(&s, true, Some(" "), "x"),
        "\x1b[7mxx\x1b[27m \x1b[7mx\x1b[27m\n"
    );
}

#[test]
fn default_space_matches_unit_width() {
    let mut s = Screen::new();
    s.line(0, 1, 1);
    assert_eq!(out(&s, false, None, "██"), "  ██\n");
    assert_eq!(out(&s, false, None, "x"), " x\n");
}

#[test]
fn flips() {
    let mut s = Screen::new();
    s.line(0, 0, 1);
    s.line(1, 2, 1);
    s.rev_y();
    assert_eq!(out(&s, false, Some("."), "#"), "..#\n#\n");
    s.rev_x();
    assert_eq!(out(&s, false, Some("."), "#"), "#..\n..#\n");
}
