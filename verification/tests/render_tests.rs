use markup_tui::attribute::Attribute;
use markup_tui::compiler::Parser;
use markup_tui::layout::Area;
use markup_tui::render::{DrawOp, Renderer};
use markup_tui::str_util::{parse_u16, split_lines};
use markup_tui::utils::{BorderKind, BorderSet, create_borders, get_border_type, flex_from_str,
    parse_from_attributes, read_opt_attributes};
use markup_tui::layout::FlexPolicy;

use ratatui::buffer::Buffer;
use ratatui::layout::Rect;
use ratatui::style::Color;

fn render_of(src: &str, w: u16, h: u16) -> Buffer {
    let (forest, _) = Parser::new(String::from(src)).parse().unwrap().ret().unwrap();
    let renderer = Renderer::new(forest);
    let mut buf = Buffer::empty(Rect::new(0, 0, w, h));
    renderer.render(Area { x: 0, y: 0, width: w, height: h }, &mut buf);
    buf
}

#[test]
fn bordered_row_draws_a_frame() {
    let buf = render_of("<window><row border=\"all\"></row></window>", 10, 4);
    assert_eq!(buf.cell((0u16, 0u16)).unwrap().symbol(), "\u{250c}");
    assert_eq!(buf.cell((9u16, 0u16)).unwrap().symbol(), "\u{2510}");
    assert_eq!(buf.cell((0u16, 3u16)).unwrap().symbol(), "\u{2514}");
    assert_eq!(buf.cell((9u16, 3u16)).unwrap().symbol(), "\u{2518}");
}

#[test]
fn text_node_paints_its_store_text() {
    let buf = render_of("<window><text>hi</text></window>", 10, 2);
    assert_eq!(buf.cell((0u16, 0u16)).unwrap().symbol(), "h");
    assert_eq!(buf.cell((1u16, 0u16)).unwrap().symbol(), "i");
}

#[test]
fn multiline_text_spans_rows() {
    let buf = render_of("<window><text>ab\ncd</text></window>", 10, 3);
    assert_eq!(buf.cell((0u16, 0u16)).unwrap().symbol(), "a");
    assert_eq!(buf.cell((0u16, 1u16)).unwrap().symbol(), "c");
}

#[test]
fn block_fill_paints_background() {
    let buf = render_of("<window><block fill=\"red\"></block></window>", 4, 2);
    assert_eq!(buf.cell((1u16, 1u16)).unwrap().bg, Color::Red);
}

#[test]
fn two_rows_split_the_window_vertically() {
    let buf = render_of(
        "<window><row border=\"all\"></row><row border=\"all\"></row></window>",
        6,
        4,
    );
    // each row gets two lines; both draw their own frame
    assert_eq!(buf.cell((0u16, 0u16)).unwrap().symbol(), "\u{250c}");
    assert_eq!(buf.cell((0u16, 2u16)).unwrap().symbol(), "\u{250c}");
}

#[test]
fn rounded_border_type_changes_corners() {
    let buf = render_of(
        "<window><row border=\"all\" borderType=\"rounded\"></row></window>",
        6,
        3,
    );
    assert_eq!(buf.cell((0u16, 0u16)).unwrap().symbol(), "\u{256d}");
}

#[test]
fn split_lines_cuts_on_newlines() {
    let r = split_lines("a\nbc\n");
    assert_eq!(r, vec![String::from("a"), String::from("bc"), String::new()]);
    assert_eq!(split_lines(""), vec![String::new()]);
    assert_eq!(split_lines("xy"), vec![String::from("xy")]);
}

#[test]
fn parse_u16_bounds() {
    assert_eq!(parse_u16("65535"), Some(65535));
    assert_eq!(parse_u16("65536"), None);
    assert_eq!(parse_u16("0"), Some(0));
    assert_eq!(parse_u16(""), None);
    assert_eq!(parse_u16("1a"), None);
}

#[test]
fn border_sets_from_attribute_values() {
    let all = create_borders(Some(String::from("all")));
    assert!(all.left && all.right && all.top && all.bottom);
    let none = create_borders(Some(String::from("none")));
    assert!(!none.left && !none.right && !none.top && !none.bottom);
    let rl = create_borders(Some(String::from("rl")));
    assert!(rl.left && rl.right && !rl.top && !rl.bottom);
    let tb = create_borders(Some(String::from("tb")));
    assert!(tb.top && tb.bottom && !tb.left && !tb.right);
    let odd = create_borders(Some(String::from("xyz")));
    assert!(!odd.left && !odd.right && !odd.top && !odd.bottom);
    let absent = create_borders(None);
    assert!(!absent.left && !absent.right && !absent.top && !absent.bottom);
}

#[test]
fn border_kinds_from_attribute_values() {
    assert_eq!(get_border_type(Some(String::from("rounded"))), BorderKind::Rounded);
    assert_eq!(get_border_type(Some(String::from("double"))), BorderKind::Double);
    assert_eq!(get_border_type(Some(String::from("thick"))), BorderKind::Thick);
    assert_eq!(get_border_type(Some(String::from("ultrathick"))), BorderKind::UltraThick);
    assert_eq!(get_border_type(Some(String::from("odd"))), BorderKind::Plain);
    assert_eq!(get_border_type(None), BorderKind::Plain);
}

#[test]
fn flex_policies_from_attribute_values() {
    assert_eq!(flex_from_str(Some(String::from("end"))), FlexPolicy::End);
    assert_eq!(flex_from_str(Some(String::from("center"))), FlexPolicy::Center);
    assert_eq!(flex_from_str(Some(String::from("spaceBetween"))), FlexPolicy::SpaceBetween);
    assert_eq!(flex_from_str(Some(String::from("spaceAround"))), FlexPolicy::SpaceAround);
    assert_eq!(flex_from_str(Some(String::from("other"))), FlexPolicy::Start);
    assert_eq!(flex_from_str(None), FlexPolicy::Start);
}

#[test]
fn attribute_helpers_read_and_parse() {
    let a = Attribute::create(String::from("7"), None);
    assert_eq!(read_opt_attributes(Some(&a)), Some(String::from("7")));
    assert_eq!(parse_from_attributes(Some(&a)), Some(7));
    let b = Attribute::create(String::from("x"), None);
    assert_eq!(parse_from_attributes(Some(&b)), None);
    assert_eq!(parse_from_attributes(None), None);
    assert_eq!(read_opt_attributes(None), None);
}

#[test]
fn draw_plan_lists_one_command_per_node_in_walk_order() {
    let (forest, _) = Parser::new(String::from(
        "<window><row border=\"all\"><text>hi</text></row><block fill=\"red\"></block></window>",
    ))
    .parse()
    .unwrap()
    .ret()
    .unwrap();
    let renderer = Renderer::new(forest);
    let plan = renderer.draw_plan(Area { x: 0, y: 0, width: 10, height: 4 });
    // row, its text child, then the block — pre-order
    assert_eq!(plan.len(), 3);
    assert!(matches!(plan[0].op, DrawOp::Frame { .. }));
    assert!(matches!(plan[1].op, DrawOp::Paragraph { .. }));
    assert!(matches!(plan[2].op, DrawOp::Fill { .. }));
    // the two top-level nodes split the ten-by-four area vertically
    assert_eq!(plan[0].area, Area { x: 0, y: 0, width: 10, height: 2 });
    assert_eq!(plan[2].area, Area { x: 0, y: 2, width: 10, height: 2 });
    // the text child fills the row's area (no padding set)
    assert_eq!(plan[1].area, Area { x: 0, y: 0, width: 10, height: 2 });
    match &plan[1].op {
        DrawOp::Paragraph { lines } => assert_eq!(lines, &vec![String::from("hi")]),
        _ => unreachable!(),
    }
}

#[test]
fn padding_attribute_insets_children() {
    let buf = render_of(
        "<window><row padding=\"1\"><block fill=\"blue\"></block></row></window>",
        6,
        4,
    );
    // the block starts one cell in from the row's frame
    assert_eq!(buf.cell((1u16, 1u16)).unwrap().bg, Color::Blue);
    assert_ne!(buf.cell((0u16, 0u16)).unwrap().bg, Color::Blue);
}
