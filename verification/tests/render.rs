use libmep::graphics::{Color, OutputCommand, Style};
use libmep::plugin::{GraphicPlugin, Plugin, PluginType};
use libmep::tui_graphics::{mep_get_plugin, MepTuiVideoPlugin};
use std::rc::Rc;

fn rgba(red: u8, green: u8, blue: u8, alpha: u8) -> Color {
    Color { red, green, blue, alpha }
}

fn black() -> Color {
    rgba(0, 0, 0, 0)
}

const BLOCK: &str = "\u{2588}";

fn blocks(n: usize) -> String {
    BLOCK.repeat(n)
}

#[test]
fn style_starts_transparent_black() {
    let s = Style::new();
    assert_eq!(s.current_color(), black());
}

#[test]
fn style_with_color_holds_it() {
    let s = Style::with_color(rgba(1, 2, 3, 4));
    assert_eq!(s.current_color(), rgba(1, 2, 3, 4));
}

#[test]
fn write_then_read_round_trip() {
    let mut p = MepTuiVideoPlugin::with_size(8, 8);
    let c = rgba(10, 20, 30, 255);
    assert!(p.write_buffer(3, 5, c).is_ok());
    assert_eq!(p.read_buffer(3, 5).unwrap(), c);
}

#[test]
fn read_out_of_bounds_is_error() {
    let p = MepTuiVideoPlugin::with_size(4, 2);
    let e = p.read_buffer(4, 0).unwrap_err();
    assert_eq!((e.x, e.y), (4, 0));
    assert!(p.read_buffer(0, 2).is_err());
    assert!(p.read_buffer(3, 1).is_ok());
}

#[test]
fn write_out_of_bounds_is_error_and_leaves_grid() {
    let mut p = MepTuiVideoPlugin::with_size(2, 2);
    let e = p.write_buffer(2, 0, rgba(9, 9, 9, 9)).unwrap_err();
    assert_eq!((e.x, e.y), (2, 0));
    for y in 0..2 {
        for x in 0..2 {
            assert_eq!(p.read_buffer(x, y).unwrap(), black());
        }
    }
}

#[test]
fn fill_rect_fills_exactly_the_rectangle() {
    let mut p = MepTuiVideoPlugin::with_size(6, 5);
    let red = rgba(255, 0, 0, 255);
    p.set_style(Rc::new(Style::with_color(red)));
    p.fill_rect(1, 2, 3, 2);
    for y in 0..5u16 {
        for x in 0..6u16 {
            let inside = (1..4).contains(&x) && (2..4).contains(&y);
            let expected = if inside { red } else { black() };
            assert_eq!(p.read_buffer(x, y).unwrap(), expected);
        }
    }
}

#[test]
fn fill_rect_clips_to_the_grid() {
    let mut p = MepTuiVideoPlugin::with_size(3, 3);
    let c = rgba(5, 6, 7, 8);
    p.set_style(Rc::new(Style::with_color(c)));
    p.fill_rect(2, 2, 50, 50);
    assert_eq!(p.read_buffer(2, 2).unwrap(), c);
    assert_eq!(p.read_buffer(1, 2).unwrap(), black());
    assert_eq!(p.read_buffer(2, 1).unwrap(), black());
}

#[test]
fn fill_then_compress_four_by_two() {
    let mut p = MepTuiVideoPlugin::with_size(4, 2);
    let red = rgba(255, 0, 0, 255);
    p.set_style(Rc::new(Style::with_color(red)));
    p.fill_rect(1, 0, 2, 1);
    let pairs = p.compress_buffer();
    let expected = vec![
        (blocks(1), black()),
        (blocks(2), red),
        (blocks(1), black()),
        ("\n".to_string(), black()),
        (blocks(4), black()),
        ("\n".to_string(), black()),
    ];
    assert_eq!(pairs, expected);
}

#[test]
fn horizontal_line_compresses_to_one_run() {
    let mut p = MepTuiVideoPlugin::with_size(4, 1);
    let green = rgba(0, 255, 0, 255);
    p.set_style(Rc::new(Style::with_color(green)));
    p.draw_line(0, 0, 3, 0);
    let pairs = p.compress_buffer();
    let expected = vec![(blocks(4), green), ("\n".to_string(), black())];
    assert_eq!(pairs, expected);
}

#[test]
fn horizontal_line_visits_exactly_the_span() {
    let mut p = MepTuiVideoPlugin::with_size(8, 3);
    let c = rgba(7, 7, 7, 7);
    p.set_style(Rc::new(Style::with_color(c)));
    p.draw_line(6, 1, 2, 1);
    for x in 0..8u16 {
        let expected = if (2..=6).contains(&x) { c } else { black() };
        assert_eq!(p.read_buffer(x, 1).unwrap(), expected);
        assert_eq!(p.read_buffer(x, 0).unwrap(), black());
        assert_eq!(p.read_buffer(x, 2).unwrap(), black());
    }
}

#[test]
fn diagonal_line_visits_both_endpoints() {
    let mut p = MepTuiVideoPlugin::with_size(10, 10);
    let c = rgba(1, 1, 1, 1);
    p.set_style(Rc::new(Style::with_color(c)));
    p.draw_line(1, 2, 7, 9);
    assert_eq!(p.read_buffer(1, 2).unwrap(), c);
    assert_eq!(p.read_buffer(7, 9).unwrap(), c);
}

#[test]
fn degenerate_line_writes_one_pixel() {
    let mut p = MepTuiVideoPlugin::with_size(3, 3);
    let c = rgba(2, 3, 4, 5);
    p.set_style(Rc::new(Style::with_color(c)));
    p.draw_line(1, 1, 1, 1);
    for y in 0..3u16 {
        for x in 0..3u16 {
            let expected = if (x, y) == (1, 1) { c } else { black() };
            assert_eq!(p.read_buffer(x, y).unwrap(), expected);
        }
    }
}

#[test]
fn line_clips_outside_the_grid() {
    let mut p = MepTuiVideoPlugin::with_size(2, 2);
    let c = rgba(8, 8, 8, 8);
    p.set_style(Rc::new(Style::with_color(c)));
    p.draw_line(0, 0, 9, 0);
    assert_eq!(p.read_buffer(0, 0).unwrap(), c);
    assert_eq!(p.read_buffer(1, 0).unwrap(), c);
    assert_eq!(p.read_buffer(0, 1).unwrap(), black());
    assert_eq!(p.read_buffer(1, 1).unwrap(), black());
}

#[test]
fn draw_rect_draws_the_outline_only() {
    let mut p = MepTuiVideoPlugin::with_size(6, 5);
    let c = rgba(9, 0, 9, 0);
    p.set_style(Rc::new(Style::with_color(c)));
    p.draw_rect(1, 1, 4, 3);
    for y in 0..5u16 {
        for x in 0..6u16 {
            let inside_box = (1..5).contains(&x) && (1..4).contains(&y);
            let on_edge = inside_box && (x == 1 || x == 4 || y == 1 || y == 3);
            let expected = if on_edge { c } else { black() };
            assert_eq!(p.read_buffer(x, y).unwrap(), expected, "at ({}, {})", x, y);
        }
    }
}

#[test]
fn draw_rect_with_zero_extent_draws_nothing() {
    let mut p = MepTuiVideoPlugin::with_size(3, 3);
    p.set_style(Rc::new(Style::with_color(rgba(1, 1, 1, 1))));
    p.draw_rect(0, 0, 0, 3);
    p.draw_rect(0, 0, 3, 0);
    for y in 0..3u16 {
        for x in 0..3u16 {
            assert_eq!(p.read_buffer(x, y).unwrap(), black());
        }
    }
}

#[test]
fn set_style_replaces_the_drawing_color() {
    let mut p = MepTuiVideoPlugin::with_size(2, 1);
    let c1 = rgba(1, 0, 0, 1);
    let c2 = rgba(0, 1, 0, 1);
    p.set_style(Rc::new(Style::with_color(c1)));
    p.fill_rect(0, 0, 1, 1);
    p.set_style(Rc::new(Style::with_color(c2)));
    p.fill_rect(1, 0, 1, 1);
    assert_eq!(p.read_buffer(0, 0).unwrap(), c1);
    assert_eq!(p.read_buffer(1, 0).unwrap(), c2);
}

#[test]
fn commit_stream_has_reposition_runs_and_flush() {
    let mut p = MepTuiVideoPlugin::with_size(2, 1);
    let red = rgba(255, 0, 0, 255);
    p.set_style(Rc::new(Style::with_color(red)));
    p.fill_rect(0, 0, 1, 1);
    let cmds = p.commit_buffer();
    // 2 runs + newline pair, two commands each, plus reposition and flush.
    assert_eq!(cmds.len(), 8);
    assert!(matches!(cmds[0], OutputCommand::Reposition { col: 0, row: 0 }));
    match (&cmds[1], &cmds[2]) {
        (OutputCommand::SetForeground { color }, OutputCommand::Emit { text }) => {
            assert_eq!(*color, red);
            assert_eq!(*text, blocks(1));
        }
        other => panic!("unexpected commands: {:?}", other),
    }
    match (&cmds[3], &cmds[4]) {
        (OutputCommand::SetForeground { color }, OutputCommand::Emit { text }) => {
            assert_eq!(*color, black());
            assert_eq!(*text, blocks(1));
        }
        other => panic!("unexpected commands: {:?}", other),
    }
    match (&cmds[5], &cmds[6]) {
        (OutputCommand::SetForeground { color }, OutputCommand::Emit { text }) => {
            assert_eq!(*color, black());
            assert_eq!(*text, "\n");
        }
        other => panic!("unexpected commands: {:?}", other),
    }
    assert!(matches!(cmds[7], OutputCommand::Flush));
}

#[test]
fn commit_leaves_the_grid_unchanged() {
    let mut p = MepTuiVideoPlugin::with_size(3, 2);
    let c = rgba(4, 4, 4, 4);
    p.set_style(Rc::new(Style::with_color(c)));
    p.fill_rect(0, 1, 3, 1);
    let _ = p.commit_buffer();
    assert_eq!(p.read_buffer(0, 0).unwrap(), black());
    assert_eq!(p.read_buffer(0, 1).unwrap(), c);
}

#[test]
fn compress_run_count_matches_color_transitions() {
    let mut p = MepTuiVideoPlugin::with_size(5, 1);
    let a = rgba(1, 0, 0, 0);
    let b = rgba(0, 1, 0, 0);
    for (x, c) in [(0, a), (1, a), (2, b), (3, a), (4, a)] {
        p.write_buffer(x, 0, c).unwrap();
    }
    let pairs = p.compress_buffer();
    let expected = vec![
        (blocks(2), a),
        (blocks(1), b),
        (blocks(2), a),
        ("\n".to_string(), black()),
    ];
    assert_eq!(pairs, expected);
}

#[test]
fn compressed_glyphs_per_row_cover_the_width() {
    let mut p = MepTuiVideoPlugin::with_size(7, 3);
    p.set_style(Rc::new(Style::with_color(rgba(3, 1, 4, 1))));
    p.draw_line(0, 0, 6, 2);
    let pairs = p.compress_buffer();
    let mut row_glyphs = 0usize;
    let mut rows = 0usize;
    for (text, _) in &pairs {
        if text == "\n" {
            assert_eq!(row_glyphs, 7);
            rows += 1;
            row_glyphs = 0;
        } else {
            row_glyphs += text.chars().count();
        }
    }
    assert_eq!(rows, 3);
}

#[test]
fn default_plugin_reports_graphics_capability() {
    let p = mep_get_plugin();
    let info = p.get_plugin_info();
    assert_eq!(info.plugin_type, PluginType::GraphicsPlugin);
    assert_eq!(info.plugin_name, "Tui Graphics");
}

#[test]
fn default_plugin_has_fallback_size() {
    let p = mep_get_plugin();
    assert!(p.read_buffer(99, 99).is_ok());
    assert!(p.read_buffer(100, 0).is_err());
    assert!(p.read_buffer(0, 100).is_err());
    assert_eq!(p.read_buffer(50, 50).unwrap(), black());
}

#[test]
fn diagonal_line_rasterizes_exactly_the_diagonal() {
    let mut p = MepTuiVideoPlugin::with_size(4, 4);
    let c = rgba(6, 6, 6, 6);
    p.set_style(Rc::new(Style::with_color(c)));
    p.draw_line(0, 0, 3, 3);
    for y in 0..4u16 {
        for x in 0..4u16 {
            let expected = if x == y { c } else { black() };
            assert_eq!(p.read_buffer(x, y).unwrap(), expected, "at ({}, {})", x, y);
        }
    }
}

#[test]
fn steep_line_steps_along_the_taller_axis() {
    let mut p = MepTuiVideoPlugin::with_size(2, 4);
    let c = rgba(5, 5, 5, 5);
    p.set_style(Rc::new(Style::with_color(c)));
    p.draw_line(0, 0, 1, 3);
    let visited = [(0, 0), (0, 1), (1, 2), (1, 3)];
    for y in 0..4u16 {
        for x in 0..2u16 {
            let expected = if visited.contains(&(x, y)) { c } else { black() };
            assert_eq!(p.read_buffer(x, y).unwrap(), expected, "at ({}, {})", x, y);
        }
    }
}
