use markup_tui::compiler::{compile, collect_text, CompileError, ParseError, Parser, RenderTree};
use markup_tui::component::{ComponentType, Direction, RenderCapability, SubroutineKind,
    get_subroutine, create_renderer};
use markup_tui::layout::Constraint;
use markup_tui::markup::{MarkupChild, MarkupNode};
use markup_tui::store::store_get;
use markup_tui::utils::bool_from_optstr;

fn parse_forest(src: &str) -> Result<Vec<RenderTree>, ParseError> {
    let (forest, subroutines) = Parser::new(String::from(src)).parse()?.ret()?;
    assert!(subroutines.is_empty());
    Ok(forest)
}

/// Structural equality over everything but store identity.
fn same_shape(a: &RenderTree, b: &RenderTree) -> bool {
    if a.ctype != b.ctype || a.size_constraint != b.size_constraint || a.renderer != b.renderer {
        return false;
    }
    if a.store.is_some() != b.store.is_some() {
        return false;
    }
    if a.attributes.len() != b.attributes.len() || a.children.len() != b.children.len() {
        return false;
    }
    for (x, y) in a.attributes.iter().zip(b.attributes.iter()) {
        if x.0 != y.0 || x.1.value != y.1.value {
            return false;
        }
        match (&x.1.derive, &y.1.derive) {
            (None, None) => {}
            (Some(dx), Some(dy)) => {
                if dx.derive_from != dy.derive_from || dx.start != dy.start || dx.end != dy.end {
                    return false;
                }
            }
            _ => return false,
        }
    }
    a.children.iter().zip(b.children.iter()).all(|(x, y)| same_shape(x, y))
}

#[test]
fn simple_window_compiles_to_its_children() {
    let forest = parse_forest("<window><row></row><column></column></window>").unwrap();
    assert_eq!(forest.len(), 2);
    assert_eq!(forest[0].ctype, ComponentType::Row);
    assert_eq!(forest[1].ctype, ComponentType::Column);
    assert_eq!(forest[0].size_constraint, Constraint::Fill(1));
    assert_eq!(forest[0].renderer, RenderCapability::Frame);
    assert!(forest[0].children.is_empty());
}

#[test]
fn root_must_be_window() {
    match parse_forest("<row></row>") {
        Err(ParseError::Compile { error: CompileError::Structure { .. } }) => {}
        other => panic!("expected a structural error, got {:?}", shape_only(&other)),
    }
}

#[test]
fn nested_window_is_rejected() {
    match parse_forest("<window><row><window></window></row></window>") {
        Err(ParseError::Compile { error: CompileError::Structure { .. } }) => {}
        other => panic!("expected a structural error, got {:?}", shape_only(&other)),
    }
}

#[test]
fn window_directly_under_window_is_rejected() {
    match parse_forest("<window><window></window></window>") {
        Err(ParseError::Compile { error: CompileError::Structure { .. } }) => {}
        other => panic!("expected a structural error, got {:?}", shape_only(&other)),
    }
}

fn shape_only(r: &Result<Vec<RenderTree>, ParseError>) -> String {
    match r {
        Ok(f) => format!("Ok with {} nodes", f.len()),
        Err(ParseError::Markup { message }) => format!("markup fault: {}", message),
        Err(ParseError::Compile { error: CompileError::Structure { pos } }) => {
            format!("structure error at {}", pos)
        }
        Err(ParseError::Compile { error: CompileError::AttributeParse { name, value } }) => {
            format!("attribute error on {} = {:?}", name, value)
        }
    }
}

#[test]
fn text_node_ignores_nested_markup() {
    let forest =
        parse_forest("<window><text>ab<row>zz</row>cd</text></window>").unwrap();
    assert_eq!(forest.len(), 1);
    let node = &forest[0];
    assert_eq!(node.ctype, ComponentType::Text);
    assert_eq!(node.children.len(), 0);
    let store = node.store.as_ref().unwrap();
    assert_eq!(store_get(store, "text").unwrap(), "abcd");
}

#[test]
fn compiling_twice_yields_identical_shapes() {
    let src = "<window><row size=\"50%\" border=\"all\"><text>hi</text></row><block fill=\"red\"></block></window>";
    let f1 = parse_forest(src).unwrap();
    let f2 = parse_forest(src).unwrap();
    assert_eq!(f1.len(), f2.len());
    for (a, b) in f1.iter().zip(f2.iter()) {
        assert!(same_shape(a, b));
    }
}

#[test]
fn size_attribute_resolves_on_any_node() {
    let forest = parse_forest(
        "<window><row size=\"50%\"></row><text size=\"3\">x</text></window>",
    )
    .unwrap();
    assert_eq!(forest[0].size_constraint, Constraint::Percentage(50));
    assert_eq!(forest[1].size_constraint, Constraint::Length(3));
}

#[test]
fn malformed_size_fails_with_its_value() {
    match parse_forest("<window><row size=\"nope\"></row></window>") {
        Err(ParseError::Compile { error: CompileError::AttributeParse { name, value } }) => {
            assert_eq!(name, "size");
            assert_eq!(value, "nope");
        }
        other => panic!("expected an attribute error, got {:?}", shape_only(&other)),
    }
}

#[test]
fn window_size_must_parse_too() {
    match parse_forest("<window size=\"x%\"><row></row></window>") {
        Err(ParseError::Compile { error: CompileError::AttributeParse { name, value } }) => {
            assert_eq!(name, "size");
            assert_eq!(value, "x%");
        }
        other => panic!("expected an attribute error, got {:?}", shape_only(&other)),
    }
}

#[test]
fn malformed_markup_is_a_markup_fault() {
    match parse_forest("<window>") {
        Err(ParseError::Markup { .. }) => {}
        other => panic!("expected a markup fault, got {:?}", shape_only(&other)),
    }
}

#[test]
fn unknown_tags_become_plugins() {
    let forest = parse_forest("<window><custom></custom></window>").unwrap();
    assert_eq!(forest[0].ctype, ComponentType::Plugin);
    assert_eq!(forest[0].renderer, RenderCapability::Noop);
}

#[test]
fn block_and_text_capabilities() {
    let forest = parse_forest("<window><block></block><text>t</text></window>").unwrap();
    assert_eq!(forest[0].renderer, RenderCapability::FillColor);
    assert_eq!(forest[1].renderer, RenderCapability::Paragraph);
}

#[test]
fn plugin_children_are_ignored() {
    let forest = parse_forest("<window><custom><row></row></custom></window>").unwrap();
    assert_eq!(forest[0].children.len(), 0);
}

#[test]
fn attributes_bind_to_the_node_store() {
    let forest =
        parse_forest("<window><text label=\"{{text}}\">hi</text></window>").unwrap();
    let node = &forest[0];
    let label = node
        .attributes
        .iter()
        .find(|p| p.0 == "label")
        .map(|p| &p.1)
        .unwrap();
    assert_eq!(label.read().unwrap(), "hi");
}

#[test]
fn compile_works_on_a_hand_built_tree() {
    let root = MarkupNode {
        tag: String::from("window"),
        attrs: vec![],
        children: vec![MarkupChild::Element(MarkupNode {
            tag: String::from("row"),
            attrs: vec![(String::from("size"), String::from("2/"))],
            children: vec![],
            pos: 8,
        })],
        pos: 0,
    };
    let forest = compile(&root).unwrap();
    assert_eq!(forest.len(), 1);
    assert_eq!(forest[0].size_constraint, Constraint::Fill(2));
}

#[test]
fn collect_text_concatenates_direct_text_only() {
    let node = MarkupNode {
        tag: String::from("text"),
        attrs: vec![],
        children: vec![
            MarkupChild::Text(String::from("ab")),
            MarkupChild::Element(MarkupNode {
                tag: String::from("row"),
                attrs: vec![],
                children: vec![MarkupChild::Text(String::from("zz"))],
                pos: 0,
            }),
            MarkupChild::Other,
            MarkupChild::Text(String::from("cd")),
        ],
        pos: 0,
    };
    assert_eq!(collect_text(&node), "abcd");
}

#[test]
fn component_kinds_from_tags() {
    assert_eq!(ComponentType::from_tag("window"), ComponentType::Window);
    assert_eq!(ComponentType::from_tag("row"), ComponentType::Row);
    assert_eq!(ComponentType::from_tag("column"), ComponentType::Column);
    assert_eq!(ComponentType::from_tag("text"), ComponentType::Text);
    assert_eq!(ComponentType::from_tag("block"), ComponentType::Block);
    assert_eq!(ComponentType::from_tag("anything"), ComponentType::Plugin);
}

#[test]
fn layout_kinds_and_directions() {
    assert!(ComponentType::Window.is_layout());
    assert!(ComponentType::Row.is_layout());
    assert!(ComponentType::Column.is_layout());
    assert!(!ComponentType::Text.is_layout());
    assert!(!ComponentType::Block.is_layout());
    assert!(!ComponentType::Plugin.is_layout());
    assert_eq!(ComponentType::Row.layout_direction(), Direction::Horizontal);
    assert_eq!(ComponentType::Column.layout_direction(), Direction::Vertical);
    assert_eq!(ComponentType::Window.layout_direction(), Direction::Vertical);
}

#[test]
fn no_built_in_kind_installs_a_subroutine() {
    for ct in [
        ComponentType::Window,
        ComponentType::Row,
        ComponentType::Column,
        ComponentType::Text,
        ComponentType::Block,
        ComponentType::Plugin,
    ] {
        assert_eq!(get_subroutine(&ct), SubroutineKind::Noop);
        let _ = create_renderer(&ct);
    }
}

#[test]
fn bool_from_optstr_accepts_only_true() {
    assert!(bool_from_optstr(Some(String::from("true"))));
    assert!(!bool_from_optstr(Some(String::from("false"))));
    assert!(!bool_from_optstr(Some(String::from("True"))));
    assert!(!bool_from_optstr(None));
}
