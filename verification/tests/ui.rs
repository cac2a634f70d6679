use aim::ui::draw::{rect, text};
use aim::ui::pane::Pane;
use aim::ui::UI;

fn create_pane() -> Pane {
    Pane::new(100, 30)
}

#[test]
fn test_rect() {
    let mut pane = create_pane();
    pane.bg_current = 10;
    rect(&mut pane, 0, 0, 10, 10);
    pane.draw(0, 0);
}

#[test]
fn test_text() {
    let mut pane = Pane::new(100, 30);
    pane.draw(0, 0);
    rect(&mut pane, 0, 0, 10, 10);
}

#[test]
fn new_pane_is_blank() {
    let pane = Pane::new(3, 2);
    assert_eq!(pane.text, vec![' '; 6]);
    assert_eq!(pane.fg, vec![0; 6]);
    assert_eq!(pane.bg, vec![0; 6]);
    assert_eq!((pane.width, pane.height, pane.fg_current, pane.bg_current), (3, 2, 0, 0));
}

#[test]
fn rect_draws_the_outline_only() {
    let mut pane = Pane::new(6, 5);
    pane.bg_current = 7;
    rect(&mut pane, 1, 1, 4, 3);
    let expected = vec![
        0, 0, 0, 0, 0, 0,
        0, 7, 7, 7, 7, 0,
        0, 7, 0, 0, 7, 0,
        0, 7, 7, 7, 7, 0,
        0, 0, 0, 0, 0, 0,
    ];
    assert_eq!(pane.bg, expected);
    assert_eq!(pane.fg, vec![0; 30]);
    assert_eq!(pane.text, vec![' '; 30]);
}

#[test]
fn rect_of_one_cell() {
    let mut pane = Pane::new(2, 2);
    pane.bg_current = 3;
    rect(&mut pane, 1, 1, 1, 1);
    assert_eq!(pane.bg, vec![0, 0, 0, 3]);
}

#[test]
fn text_wraps_at_line_feeds_and_clips() {
    let mut pane = Pane::new(4, 3);
    pane.fg_current = 2;
    pane.bg_current = 9;
    text(&mut pane, 2, 1, "abc\nde\n\nzz");
    let expected: Vec<char> = "      ab  de".chars().collect();
    assert_eq!(pane.text, expected);
    assert_eq!(pane.fg, vec![0, 0, 0, 0, 0, 0, 2, 2, 0, 0, 2, 2]);
    assert_eq!(pane.bg, vec![0, 0, 0, 0, 0, 0, 9, 9, 0, 0, 9, 9]);
}

#[test]
fn draw_writes_colours_and_resets_them() {
    let mut pane = Pane::new(2, 2);
    pane.fg_current = 123;
    pane.bg_current = 7;
    text(&mut pane, 0, 0, "a");
    pane.fg_current = 40;
    pane.bg_current = 0;
    text(&mut pane, 1, 1, "b");
    let out = pane.draw(5, 5);
    let clear_fg = "\x1B[38;5;15m";
    let clear_bg = "\x1B[48;5;0m";
    let expected = format!(
        "\x1B[38;5;32m\x1B[48;5;7ma{f}{b} {b}\n{f}{b} \x1B[38;5;04m{b}b\x1B[2A\x1B[K\n",
        f = clear_fg,
        b = clear_bg
    );
    assert_eq!(out, expected);
    assert_eq!((pane.fg_current, pane.bg_current), (15, 0));
}

#[test]
fn draw_of_an_empty_pane() {
    let mut pane = Pane::new(0, 12);
    assert_eq!(pane.draw(0, 0), "\x1B[12A\x1B[K\n");
}

#[test]
fn interface_greets_ten_times() {
    let mut ui = UI::new();
    let frames = ui.start();
    assert_eq!(frames.len(), 10);
    assert!(frames[0].starts_with("\x1B[38;5;15m\x1B[48;5;0mH\x1B[38;5;15m\x1B[48;5;0me\x1B[38;5;15m\x1B[48;5;0mi"));
    assert!(frames[1].starts_with("\x1B[38;5;51m\x1B[48;5;0mH\x1B[38;5;51m\x1B[48;5;0me"));
    assert_eq!(frames[1], frames[9]);
    assert!(frames[9].ends_with("\x1B[30A\x1B[K\n"));
    assert_eq!(&ui.pane.text[0..4], &['H', 'e', 'i', ' ']);
    assert_eq!(&ui.pane.fg[0..4], &[15, 15, 15, 0]);
}
