use markup_tui::component::Direction;
use markup_tui::layout::{Area, Constraint, FlexPolicy, LayoutProperties, partition,
    size_from_attr};

fn props() -> LayoutProperties {
    LayoutProperties::new()
}

fn area(w: u16, h: u16) -> Area {
    Area { x: 0, y: 0, width: w, height: h }
}

#[test]
fn size_grammar_ratio() {
    let c = size_from_attr(Some(&String::from("1/3"))).unwrap();
    assert_eq!(c, Constraint::Ratio(1, 3));
}

#[test]
fn size_grammar_percentage() {
    let c = size_from_attr(Some(&String::from("50%"))).unwrap();
    assert_eq!(c, Constraint::Percentage(50));
}

#[test]
fn size_grammar_fill() {
    let c = size_from_attr(Some(&String::from("2/"))).unwrap();
    assert_eq!(c, Constraint::Fill(2));
}

#[test]
fn size_grammar_length() {
    let c = size_from_attr(Some(&String::from("12"))).unwrap();
    assert_eq!(c, Constraint::Length(12));
}

#[test]
fn size_grammar_absent_defaults_to_fill_one() {
    assert_eq!(size_from_attr(None).unwrap(), Constraint::Fill(1));
}

#[test]
fn size_grammar_rejects_malformed_values() {
    for bad in ["abc", "1/2/3", "%", "/", "", "70000", "12a", "a/2", "1/b"] {
        let r = size_from_attr(Some(&String::from(bad)));
        match r {
            Err(e) => assert_eq!(e.raw, bad),
            Ok(_) => panic!("{:?} should not parse", bad),
        }
    }
}

#[test]
fn percentage_on_ten_cells_is_five() {
    let cs = vec![Constraint::Percentage(50)];
    let r = partition(area(10, 4), &cs, Direction::Horizontal, props());
    assert_eq!(r.len(), 1);
    assert_eq!(r[0].width, 5);
    assert_eq!(r[0].height, 4);
    assert_eq!(r[0].x, 0);
}

#[test]
fn one_third_ratio_on_nine_cells_is_three() {
    let cs = vec![Constraint::Ratio(1, 3)];
    let r = partition(area(9, 2), &cs, Direction::Horizontal, props());
    assert_eq!(r[0].width, 3);
}

#[test]
fn fills_take_exactly_the_remainder() {
    let cs = vec![Constraint::Length(4), Constraint::Fill(1), Constraint::Fill(1)];
    let r = partition(area(10, 1), &cs, Direction::Horizontal, props());
    assert_eq!(r[0].width, 4);
    let fills = r[1].width + r[2].width;
    assert_eq!(fills, 6);
    assert!(r[1].width.abs_diff(r[2].width) <= 1);
}

#[test]
fn equal_fill_weights_stay_within_one_cell() {
    let cs = vec![Constraint::Fill(1), Constraint::Fill(1), Constraint::Fill(1)];
    let r = partition(area(10, 1), &cs, Direction::Horizontal, props());
    let total: u16 = r.iter().map(|a| a.width).sum();
    assert_eq!(total, 10);
    for i in 0..3 {
        for j in 0..3 {
            assert!(r[i].width.abs_diff(r[j].width) <= 1);
        }
    }
}

#[test]
fn fill_weights_share_proportionally() {
    let cs = vec![Constraint::Fill(1), Constraint::Fill(3)];
    let r = partition(area(8, 1), &cs, Direction::Horizontal, props());
    assert_eq!(r[0].width, 2);
    assert_eq!(r[1].width, 6);
}

#[test]
fn lengths_stack_in_order_with_spacing() {
    let cs = vec![Constraint::Length(2), Constraint::Length(3)];
    let p = LayoutProperties::new().spacing(Some(1));
    let r = partition(area(10, 1), &cs, Direction::Horizontal, p);
    assert_eq!(r[0].x, 0);
    assert_eq!(r[0].width, 2);
    assert_eq!(r[1].x, 3);
    assert_eq!(r[1].width, 3);
}

#[test]
fn vertical_direction_partitions_height() {
    let cs = vec![Constraint::Length(2), Constraint::Fill(1)];
    let r = partition(area(7, 10), &cs, Direction::Vertical, props());
    assert_eq!(r[0].height, 2);
    assert_eq!(r[1].height, 8);
    assert_eq!(r[0].width, 7);
    assert_eq!(r[1].y, 2);
}

#[test]
fn margin_shrinks_all_sides() {
    let cs = vec![Constraint::Fill(1)];
    let p = LayoutProperties::new().margin(Some(1));
    let r = partition(area(10, 10), &cs, Direction::Vertical, p);
    assert_eq!(r[0], Area { x: 1, y: 1, width: 8, height: 8 });
}

#[test]
fn flex_end_places_surplus_before() {
    let cs = vec![Constraint::Length(4)];
    let p = LayoutProperties::new().flex(FlexPolicy::End);
    let r = partition(area(10, 1), &cs, Direction::Horizontal, p);
    assert_eq!(r[0].x, 6);
}

#[test]
fn flex_center_splits_surplus() {
    let cs = vec![Constraint::Length(4)];
    let p = LayoutProperties::new().flex(FlexPolicy::Center);
    let r = partition(area(10, 1), &cs, Direction::Horizontal, p);
    assert_eq!(r[0].x, 3);
}

#[test]
fn flex_space_between_spreads_gaps() {
    let cs = vec![Constraint::Length(2), Constraint::Length(2)];
    let p = LayoutProperties::new().flex(FlexPolicy::SpaceBetween);
    let r = partition(area(10, 1), &cs, Direction::Horizontal, p);
    assert_eq!(r[0].x, 0);
    assert_eq!(r[1].x, 8);
}

#[test]
fn overfull_lengths_are_clamped_in_order() {
    let cs = vec![Constraint::Length(8), Constraint::Length(5)];
    let r = partition(area(10, 1), &cs, Direction::Horizontal, props());
    assert_eq!(r[0].width, 8);
    assert_eq!(r[1].width, 2);
}

#[test]
fn empty_sibling_list_yields_no_areas() {
    let cs: Vec<Constraint> = vec![];
    let r = partition(area(10, 10), &cs, Direction::Horizontal, props());
    assert!(r.is_empty());
}

#[test]
fn largest_length_is_honored() {
    let cs = vec![Constraint::Length(u16::MAX)];
    let r = partition(
        Area { x: 0, y: 0, width: u16::MAX, height: 1 },
        &cs,
        Direction::Horizontal,
        props(),
    );
    assert_eq!(r[0].width, u16::MAX);
}

#[test]
fn properties_builder_defaults() {
    let p = LayoutProperties::new();
    assert_eq!(p.margin, 0);
    assert_eq!(p.spacing, 0);
    assert_eq!(p.flex, FlexPolicy::Start);
    let q = p.margin(Some(3)).spacing(Some(2)).flex(FlexPolicy::Center);
    assert_eq!(q.margin, 3);
    assert_eq!(q.spacing, 2);
    assert_eq!(q.flex, FlexPolicy::Center);
}

#[test]
fn zero_weight_fills_get_nothing() {
    let cs = vec![Constraint::Fill(0), Constraint::Length(3)];
    let r = partition(area(10, 1), &cs, Direction::Horizontal, props());
    assert_eq!(r[0].width, 0);
    assert_eq!(r[1].width, 3);
}

#[test]
fn flex_space_around_surrounds_items() {
    let cs = vec![Constraint::Length(4)];
    let p = LayoutProperties::new().flex(FlexPolicy::SpaceAround);
    let r = partition(area(10, 1), &cs, Direction::Horizontal, p);
    assert_eq!(r[0].x, 3);
    assert_eq!(r[0].width, 4);
}

#[test]
fn spacing_beyond_the_extent_degenerates_to_nothing() {
    let cs = vec![Constraint::Length(2), Constraint::Length(2)];
    let p = LayoutProperties::new().spacing(Some(20));
    let r = partition(area(10, 1), &cs, Direction::Horizontal, p);
    assert_eq!(r[0].width, 0);
    assert_eq!(r[1].width, 0);
}
