use term_test::grid::{cells_for_pixels, parse_raster_attributes, pixels_to_cells, CsiArg, ScreenState, VtEvent};

#[test]
fn test_create_screen() {
    let screen = ScreenState::new(80, 24);
    assert_eq!(screen.size(), (80, 24));
}

#[test]
fn test_feed_simple_text() {
    let mut screen = ScreenState::new(80, 24);
    screen.feed(b"Hello, World!");
    assert!(screen.contents().contains("Hello, World!"));
}

#[test]
fn screen_test_cursor_position() {
    let mut screen = ScreenState::new(80, 24);
    assert_eq!(screen.cursor_position(), (0, 0));
    screen.feed(b"\x1b[5;10H");
    let (row, col) = screen.cursor_position();
    assert_eq!(row, 4);
    assert_eq!(col, 9);
}

#[test]
fn test_text_at() {
    let mut screen = ScreenState::new(80, 24);
    screen.feed(b"Test");
    assert_eq!(screen.text_at(0, 0), Some('T'));
    assert_eq!(screen.text_at(0, 1), Some('e'));
    assert_eq!(screen.text_at(0, 2), Some('s'));
    assert_eq!(screen.text_at(0, 3), Some('t'));
    assert_eq!(screen.text_at(0, 4), Some(' '));
    assert_eq!(screen.text_at(100, 100), None);
}

#[test]
fn test_sixel_detection() {
    let mut screen = ScreenState::new(80, 24);
    screen.feed(b"\x1bPq\"1;1;80;40#0!10~\x1b\\");
    let regions = screen.sixel_regions();
    assert_eq!(regions.len(), 1);
    let info = &regions[0];
    assert_eq!(info.start_row, 0);
    assert_eq!(info.start_col, 0);
    assert_eq!(info.width, Some(80));
    assert_eq!(info.height, Some(40));
}

#[test]
fn test_cursor_positioning_before_sixel() {
    let mut screen = ScreenState::new(80, 24);
    screen.feed(b"\x1b[6;11H\x1bPq\"1;1;100;50#0\x1b\\");
    let regions = screen.sixel_regions();
    assert_eq!(regions.len(), 1);
    assert_eq!(regions[0].start_row, 5);
    assert_eq!(regions[0].start_col, 10);
    assert_eq!(regions[0].width, Some(100));
    assert_eq!(regions[0].height, Some(50));
    assert!(screen.has_sixel_at(5, 10));
    assert!(!screen.has_sixel_at(0, 0));
}

#[test]
fn test_pixels_to_cells_conversion() {
    let (w, h) = pixels_to_cells(80, 40);
    assert_eq!(w, 10);
    assert_eq!(h, 3);
    let (w, h) = pixels_to_cells(81, 41);
    assert_eq!(w, 11);
    assert_eq!(h, 3);
}

#[test]
fn test_multiple_sixels() {
    let mut screen = ScreenState::new(80, 24);
    screen.feed(b"\x1b[2;3H\x1bPq\"1;1;80;40#0\x1b\\\x1b[10;20H\x1bPq\"1;1;50;30#0\x1b\\");
    let regions = screen.sixel_regions();
    assert_eq!(regions.len(), 2);
    assert_eq!((regions[0].start_row, regions[0].start_col), (1, 2));
    assert_eq!((regions[1].start_row, regions[1].start_col), (9, 19));
}

#[test]
fn cells_for_pixels_rounds_up() {
    assert_eq!(cells_for_pixels(0, 8), 0);
    assert_eq!(cells_for_pixels(8, 8), 1);
    assert_eq!(cells_for_pixels(9, 8), 2);
    assert_eq!(cells_for_pixels(u32::MAX, 8), 536870912);
    assert_eq!(cells_for_pixels(u32::MAX, 1), u32::MAX);
    assert_eq!(cells_for_pixels(0, 16), 0);
    assert_eq!(cells_for_pixels(16, 16), 1);
    assert_eq!(cells_for_pixels(17, 16), 2);
}

#[test]
fn raster_attribute_parsing() {
    assert_eq!(parse_raster_attributes(b"\"1;1;100;50#0"), Some((100, 50)));
    assert_eq!(parse_raster_attributes(b"#0\"2;1;7;9"), Some((7, 9)));
    assert_eq!(parse_raster_attributes(b"\"1;1;100"), None);
    assert_eq!(parse_raster_attributes(b"1;1;100;50"), None);
    assert_eq!(parse_raster_attributes(b"\"1;1;4294967296;5"), None);
    assert_eq!(parse_raster_attributes(b"\"1;;1;;4;5"), Some((4, 5)));
}

#[test]
fn sixel_without_raster_has_no_size() {
    let mut screen = ScreenState::new(80, 24);
    screen.feed(b"\x1bPq#0!10~\x1b\\");
    assert_eq!(screen.sixel_regions().len(), 1);
    assert_eq!(screen.sixel_regions()[0].width, None);
    assert_eq!(screen.sixel_regions()[0].height, None);
}

#[test]
fn cursor_moves_saturate_at_edges() {
    let mut screen = ScreenState::new(10, 5);
    screen.feed(b"\x1b[3A");
    assert_eq!(screen.cursor_position(), (0, 0));
    screen.feed(b"\x1b[99B\x1b[99C");
    assert_eq!(screen.cursor_position(), (4, 9));
    screen.feed(b"\x1b[2D\x1b[1A");
    assert_eq!(screen.cursor_position(), (3, 7));
    screen.feed(b"\x1b[100;100H");
    assert_eq!(screen.cursor_position(), (4, 9));
    screen.feed(b"\n\n\t");
    assert_eq!(screen.cursor_position(), (4, 9));
}

#[test]
fn csi_params_default_to_one() {
    let mut screen = ScreenState::new(80, 24);
    screen.feed(b"\x1b[10;10H\x1b[A");
    assert_eq!(screen.cursor_position(), (8, 9));
    screen.feed(b"\x1b[0B");
    assert_eq!(screen.cursor_position(), (9, 9));
    screen.feed(b"\x1b[H");
    assert_eq!(screen.cursor_position(), (0, 0));
    screen.feed(b"\x1b[0;0H\x1b[C");
    assert_eq!(screen.cursor_position(), (0, 1));
}

#[test]
fn controls_and_escapes_move_cursor() {
    let mut screen = ScreenState::new(80, 24);
    screen.feed(b"abc\tx");
    assert_eq!(screen.cursor_position(), (0, 9));
    screen.feed(b"\r\n");
    assert_eq!(screen.cursor_position(), (1, 0));
    screen.feed(b"ab\x1bD");
    assert_eq!(screen.cursor_position(), (2, 2));
    screen.feed(b"\x1bE");
    assert_eq!(screen.cursor_position(), (3, 0));
}

#[test]
fn printing_does_not_wrap() {
    let mut screen = ScreenState::new(3, 2);
    screen.feed(b"abcd");
    assert_eq!(screen.row_contents(0), "abd");
    assert_eq!(screen.cursor_position(), (0, 2));
    assert_eq!(screen.contents(), "abd\n   ");
    assert_eq!(screen.row_contents(5), "");
}

#[test]
fn contains_matches_substrings_of_contents() {
    let mut screen = ScreenState::new(5, 2);
    screen.feed(b"hello\r\nworld");
    assert!(screen.contains("hello\nworld"));
    assert!(screen.contains("lo\nwo"));
    assert!(screen.contains(""));
    assert!(!screen.contains("helloworld"));
    assert!(!screen.contains("goodbye"));
    assert_eq!(screen.debug_contents(), screen.contents());
}

#[test]
fn feeding_in_pieces_matches_feeding_whole() {
    let whole: &[u8] = b"ab\x1b[2;3Hcd\x1bPq\"1;1;8;16#0\x1b\\e";
    let mut a = ScreenState::new(10, 4);
    a.feed(whole);
    for split in 0..whole.len() {
        let mut b = ScreenState::new(10, 4);
        b.feed(&whole[..split]);
        b.feed(&whole[split..]);
        assert_eq!(a.contents(), b.contents());
        assert_eq!(a.cursor_position(), b.cursor_position());
        assert_eq!(a.sixel_regions().len(), b.sixel_regions().len());
    }
}

#[test]
fn resize_clears_grid_and_history() {
    let mut screen = ScreenState::new(80, 24);
    screen.feed(b"\x1b[6;11H\x1bPq\"1;1;100;50#0\x1b\\hi");
    screen.resize(20, 5);
    assert_eq!(screen.size(), (20, 5));
    assert_eq!(screen.cursor_position(), (0, 0));
    assert!(screen.sixel_regions().is_empty());
    assert!(!screen.contains("hi"));
}

#[test]
fn zero_sized_grid_is_total() {
    let mut screen = ScreenState::new(0, 0);
    screen.feed(b"abc\x1b[5;5H\n\t");
    assert_eq!(screen.cursor_position(), (0, 0));
    assert_eq!(screen.contents(), "");
    assert_eq!(screen.text_at(0, 0), None);
}

#[test]
fn events_apply_directly() {
    let mut screen = ScreenState::new(80, 24);
    screen.feed_events(&[
        VtEvent::Csi { params: vec![CsiArg::Integer(3), CsiArg::P(b';'), CsiArg::Integer(4)], byte: b'H' },
        VtEvent::Print('x'),
        VtEvent::Osc,
    ]);
    assert_eq!(screen.text_at(2, 3), Some('x'));
    assert_eq!(screen.cursor_position(), (2, 4));
}
