use vstd::prelude::*;
use crate::attribute::{Attribute, attr_wf};
use crate::compiler::{RenderTree, tree_wf};
use crate::component::{ComponentType, Direction, RenderCapability};
use crate::layout::{Area, Constraint, FlexPolicy, LayoutProperties, child_area, partition,
    lemma_partition_gives_child_area};
use crate::store::store_get;
use crate::str_util::{str_eq, split_lines, spec_split_lines};
use crate::utils::{BorderSet, BorderKind, create_borders, get_border_type, flex_from_str,
    parse_from_attributes, read_opt_attributes, read_opt_matches, spec_parse_u16,
    spec_create_borders, spec_border_kind, spec_flex_policy};
use ratatui::buffer::Buffer;
use ratatui::layout::Rect;
use ratatui::style::{Color, Style};
use ratatui::text::Line;
use ratatui::widgets::{Block, BorderType, Borders, Paragraph, Widget};

verus! {

/// Declares ratatui's cell buffer; it is opaque here, and the draw
/// wrappers below are the only places that paint into it.
#[verifier::external_type_specification]
#[verifier::external_body]
pub struct ExBuffer(Buffer);

/// Relies on ratatui's Block widget (Widget::render): paints a frame
/// with the given sides and line style into `area` of the buffer.
#[verifier::external_body]
fn draw_frame(buf: &mut Buffer, area: Area, bs: &BorderSet, kind: &BorderKind) {
    let mut b = Borders::NONE;
    if bs.left { b |= Borders::LEFT; }
    if bs.right { b |= Borders::RIGHT; }
    if bs.top { b |= Borders::TOP; }
    if bs.bottom { b |= Borders::BOTTOM; }
    let bt = match kind {
        BorderKind::Plain => BorderType::Plain,
        BorderKind::Rounded => BorderType::Rounded,
        BorderKind::Double => BorderType::Double,
        BorderKind::Thick => BorderType::Thick,
        BorderKind::UltraThick => BorderType::QuadrantOutside,
    };
    let rect = Rect { x: area.x, y: area.y, width: area.width, height: area.height };
    Widget::render(Block::new().borders(b).border_type(bt), rect, buf);
}

/// Relies on ratatui's Block widget and Color::from_str: paints a
/// background fill into `area`; an unrecognized colour name paints no
/// fill.
#[verifier::external_body]
fn draw_fill(buf: &mut Buffer, area: Area, color: Option<&String>) {
    let mut block = Block::new();
    if let Some(name) = color {
        if let Ok(c) = name.parse::<Color>() {
            block = block.style(Style::new().bg(c));
        }
    }
    let rect = Rect { x: area.x, y: area.y, width: area.width, height: area.height };
    Widget::render(block, rect, buf);
}

/// Relies on ratatui's Paragraph widget: paints the given lines of
/// text into `area`.
#[verifier::external_body]
fn draw_paragraph(buf: &mut Buffer, area: Area, lines: &Vec<String>) {
    let ls: Vec<Line> = lines.iter().map(|s| Line::from(s.clone())).collect();
    let rect = Rect { x: area.x, y: area.y, width: area.width, height: area.height };
    Widget::render(Paragraph::new(ls), rect, buf);
}

/// First attribute under `key` in a node's attribute map.
pub open spec fn spec_node_attr(attrs: Seq<(String, Attribute)>, key: Seq<char>) -> Option<
    Attribute,
>
    decreases attrs,
{
    if attrs.len() == 0 {
        None
    } else if attrs[0].0@ == key {
        Some(attrs[0].1)
    } else {
        spec_node_attr(attrs.skip(1), key)
    }
}

/// Looks an attribute up by name.
fn attrs_get<'a>(attrs: &'a Vec<(String, Attribute)>, key: &str) -> (r: Option<&'a Attribute>)
    ensures
        (match r {
            Some(a) => spec_node_attr(attrs@, key@) == Some(*a) && exists|j: int|
                0 <= j < attrs@.len() && #[trigger] attrs@[j].1 == *a,
            None => spec_node_attr(attrs@, key@) is None,
        }),
{
    let n = attrs.len();
    let mut i: usize = 0;
    proof {
        assert(attrs@.skip(0) =~= attrs@);
    }
    while i < n
        invariant
            0 <= i <= n == attrs@.len(),
            spec_node_attr(attrs@, key@) == spec_node_attr(attrs@.skip(i as int), key@),
        decreases n - i,
    {
        proof {
            assert(attrs@.skip(i as int)[0] == attrs@[i as int]);
            assert(attrs@.skip(i as int).skip(1) =~= attrs@.skip(i as int + 1));
        }
        if str_eq(attrs[i].0.as_str(), key) {
            return Some(&attrs[i].1);
        }
        i += 1;
    }
    proof {
        assert(attrs@.skip(n as int) =~= Seq::<(String, Attribute)>::empty());
    }
    None
}

/// `v` is a possible read of the attribute under `key`: absent when
/// the map has no such attribute, otherwise an outcome of reading it.
pub open spec fn node_attr_read(
    attrs: Seq<(String, Attribute)>,
    key: Seq<char>,
    v: Option<Seq<char>>,
) -> bool {
    match spec_node_attr(attrs, key) {
        None => v is None,
        Some(a) => read_opt_matches(a, v),
    }
}

/// The view of an optional string.
pub open spec fn opt_view(o: Option<String>) -> Option<Seq<char>> {
    match o {
        None => None,
        Some(s) => Some(s@),
    }
}

/// `r` is derived from possible reads of the three layout attributes:
/// `padding` and `spacing` as numerals falling back to zero, `flex`
/// by name.
pub open spec fn props_match(a: Seq<(String, Attribute)>, r: LayoutProperties) -> bool {
    exists|pv: Option<Seq<char>>, sv: Option<Seq<char>>, fv: Option<Seq<char>>|
        #![trigger node_attr_read(a, "padding"@, pv), node_attr_read(a, "spacing"@, sv), node_attr_read(a, "flex"@, fv)]
        {
            &&& node_attr_read(a, "padding"@, pv)
            &&& node_attr_read(a, "spacing"@, sv)
            &&& node_attr_read(a, "flex"@, fv)
            &&& r.margin == (match spec_parse_u16(pv) {
                Some(v) => v,
                None => 0,
            })
            &&& r.spacing == (match spec_parse_u16(sv) {
                Some(v) => v,
                None => 0,
            })
            &&& r.flex == spec_flex_policy(fv)
        }
}

impl LayoutProperties {
    /// Derives a layout node's properties from its attributes, fresh
    /// on every render pass: `padding` and `spacing` as numerals
    /// (anything else, including a failed templated read, falls back
    /// to zero) and `flex` by name.
    pub fn from_attributes(a: &Vec<(String, Attribute)>) -> (r: LayoutProperties)
        requires
            forall|j: int| 0 <= j < a@.len() ==> attr_wf((#[trigger] a@[j]).1),
        ensures
            props_match(a@, r),
    {
        let pa = attrs_get(a, "padding");
        let padding = parse_from_attributes(pa);
        let ghost pv: Option<Seq<char>> = match pa {
            None => None,
            Some(at) => choose|v: Option<Seq<char>>|
                #[trigger] read_opt_matches(*at, v) && padding == spec_parse_u16(v),
        };
        let sa = attrs_get(a, "spacing");
        let spacing = parse_from_attributes(sa);
        let ghost sv: Option<Seq<char>> = match sa {
            None => None,
            Some(at) => choose|v: Option<Seq<char>>|
                #[trigger] read_opt_matches(*at, v) && spacing == spec_parse_u16(v),
        };
        let fa = attrs_get(a, "flex");
        let fread = read_opt_attributes(fa);
        let ghost fv: Option<Seq<char>> = opt_view(fread);
        let flex = flex_from_str(fread);
        let r = LayoutProperties::new().margin(padding).flex(flex).spacing(spacing);
        proof {
            assert(node_attr_read(a@, "padding"@, pv));
            assert(node_attr_read(a@, "spacing"@, sv));
            assert(node_attr_read(a@, "flex"@, fv));
        }
        r
    }
}

/// The size constraints of a list of siblings, in order.
fn constraints_of(children: &Vec<RenderTree>) -> (r: Vec<Constraint>)
    ensures
        r@.len() == children@.len(),
        forall|j: int| 0 <= j < children@.len() ==> r@[j] == (#[trigger] children@[j]).size_constraint,
{
    let mut r: Vec<Constraint> = Vec::new();
    let mut i: usize = 0;
    let n = children.len();
    while i < n
        invariant
            0 <= i <= n == children@.len(),
            r@.len() == i,
            forall|j: int| 0 <= j < i ==> r@[j] == (#[trigger] children@[j]).size_constraint,
        decreases n - i,
    {
        r.push(children[i].size_constraint);
        i += 1;
    }
    r
}

/// An area with its far edges pulled back into the coordinate space.
pub open spec fn spec_clamp(a: Area) -> Area {
    Area {
        x: a.x,
        y: a.y,
        width: if a.width <= u16::MAX - a.x {
            a.width
        } else {
            (u16::MAX - a.x) as u16
        },
        height: if a.height <= u16::MAX - a.y {
            a.height
        } else {
            (u16::MAX - a.y) as u16
        },
    }
}

/// Shrinks an area just enough that its far edges stay within the
/// coordinate space; the solver's outputs already satisfy this, so
/// for them the area comes back unchanged.
pub fn clamp_area(a: Area) -> (r: Area)
    ensures
        r == spec_clamp(a),
        r.x + r.width <= u16::MAX,
        r.y + r.height <= u16::MAX,
        a.x + a.width <= u16::MAX && a.y + a.height <= u16::MAX ==> r == a,
{
    let width = if a.width <= u16::MAX - a.x {
        a.width
    } else {
        u16::MAX - a.x
    };
    let height = if a.height <= u16::MAX - a.y {
        a.height
    } else {
        u16::MAX - a.y
    };
    Area { x: a.x, y: a.y, width, height }
}

/// What one node draws into its area, with the parameters as they
/// were read for this pass.
pub enum DrawOp {
    Frame { borders: BorderSet, kind: BorderKind },
    Paragraph { lines: Vec<String> },
    Fill { color: Option<String> },
    Noop,
}

/// One step of a render pass: paint `op` into `area`.
pub struct DrawCommand {
    pub area: Area,
    pub op: DrawOp,
}

/// The lines a paragraph paints for a given store text.
pub open spec fn paragraph_lines(tv: Option<Seq<char>>) -> Seq<Seq<char>> {
    match tv {
        Some(t) => spec_split_lines(t),
        None => Seq::empty(),
    }
}

/// `op` is what `node`'s capability paints, its parameters derived
/// from possible reads of the node's attributes and store.
pub open spec fn op_matches(node: RenderTree, op: DrawOp) -> bool {
    match node.renderer {
        RenderCapability::Frame => op matches DrawOp::Frame { borders, kind } && (exists|
            bv: Option<Seq<char>>,
            kv: Option<Seq<char>>,
        |
            #![trigger node_attr_read(node.attributes@, "border"@, bv), node_attr_read(node.attributes@, "borderType"@, kv)]
            node_attr_read(node.attributes@, "border"@, bv) && borders == spec_create_borders(bv)
                && node_attr_read(node.attributes@, "borderType"@, kv) && kind == spec_border_kind(
                kv,
            )),
        RenderCapability::Paragraph => op matches DrawOp::Paragraph { lines } && (exists|
            tv: Option<Seq<char>>,
        |
            #![trigger paragraph_lines(tv)]
            (node.store is None ==> tv is None) && lines@.map_values(|t: String| t@)
                == paragraph_lines(tv)),
        RenderCapability::FillColor => op matches DrawOp::Fill { color } && (exists|
            cv: Option<Seq<char>>,
        |
            #[trigger] node_attr_read(node.attributes@, "fill"@, cv) && opt_view(color) == cv),
        RenderCapability::Noop => op is Noop,
    }
}

pub open spec fn constraints_view(children: Seq<RenderTree>) -> Seq<Constraint> {
    children.map_values(|c: RenderTree| c.size_constraint)
}

/// The direction a layout kind partitions along.
pub open spec fn spec_dir(c: ComponentType) -> Direction {
    if c == ComponentType::Row {
        Direction::Horizontal
    } else {
        Direction::Vertical
    }
}

/// The areas the solver assigns to a node's children.
pub open spec fn child_areas(
    parent: Area,
    children: Seq<RenderTree>,
    dir: Direction,
    props: LayoutProperties,
) -> Seq<Area> {
    Seq::new(children.len(), |i: int| child_area(parent, constraints_view(children), dir, props, i))
}

/// `cmds` is a walk of the subtree at `node`, drawn into `area`: the
/// node's own command first, then — for a layout kind with children —
/// each child's walk in order, over the areas the solver assigns for
/// the properties read this pass. Leaf kinds contribute exactly their
/// own command.
pub open spec fn node_plan_matches(node: RenderTree, area: Area, cmds: Seq<DrawCommand>) -> bool
    decreases node,
{
    &&& cmds.len() >= 1
    &&& cmds[0].area == area
    &&& op_matches(node, cmds[0].op)
    &&& if node.children@.len() == 0 || !crate::component::spec_is_layout(node.ctype) {
        cmds.len() == 1
    } else {
        exists|props: LayoutProperties|
            #[trigger] props_match(node.attributes@, props) && forest_plan_matches(
                node.children@,
                child_areas(area, node.children@, spec_dir(node.ctype), props),
                cmds.skip(1),
            )
    }
}

/// `cmds` splits, in order, into one walk per node of the forest.
pub open spec fn forest_plan_matches(
    nodes: Seq<RenderTree>,
    areas: Seq<Area>,
    cmds: Seq<DrawCommand>,
) -> bool
    decreases nodes,
{
    if nodes.len() == 0 {
        cmds.len() == 0
    } else {
        &&& areas.len() == nodes.len()
        &&& exists|k: int|
            1 <= k <= cmds.len() && node_plan_matches(nodes[0], areas[0], #[trigger] cmds.take(k))
                && forest_plan_matches(nodes.skip(1), areas.skip(1), cmds.skip(k))
    }
}

/// The walk of one subtree: reads this node's draw parameters, and —
/// for a layout kind with children — derives the render-time
/// properties, partitions the area, and walks each child in order.
fn node_plan(node: &RenderTree, area: Area) -> (r: Vec<DrawCommand>)
    requires
        tree_wf(*node),
        area.x + area.width <= u16::MAX,
        area.y + area.height <= u16::MAX,
    ensures
        node_plan_matches(*node, area, r@),
    decreases *node, 0int,
{
    let op: DrawOp = match node.renderer {
        RenderCapability::Frame => {
            let ba = attrs_get(&node.attributes, "border");
            let bo = read_opt_attributes(ba);
            let ghost bv = opt_view(bo);
            let bs = create_borders(bo);
            let ka = attrs_get(&node.attributes, "borderType");
            let ko = read_opt_attributes(ka);
            let ghost kv = opt_view(ko);
            let bk = get_border_type(ko);
            proof {
                assert(node_attr_read(node.attributes@, "border"@, bv));
                assert(node_attr_read(node.attributes@, "borderType"@, kv));
            }
            DrawOp::Frame { borders: bs, kind: bk }
        },
        RenderCapability::Paragraph => {
            let text: Option<String> = match &node.store {
                Some(s) => store_get(s, "text"),
                None => None,
            };
            let ghost tv = opt_view(text);
            let lines: Vec<String> = match text {
                Some(t) => split_lines(t.as_str()),
                None => Vec::new(),
            };
            proof {
                assert(lines@.map_values(|t: String| t@) =~= paragraph_lines(tv));
            }
            DrawOp::Paragraph { lines }
        },
        RenderCapability::FillColor => {
            let fa = attrs_get(&node.attributes, "fill");
            let color = read_opt_attributes(fa);
            proof {
                assert(node_attr_read(node.attributes@, "fill"@, opt_view(color)));
            }
            DrawOp::Fill { color }
        },
        RenderCapability::Noop => DrawOp::Noop,
    };
    assert(op_matches(*node, op));
    let mut cmds: Vec<DrawCommand> = Vec::new();
    cmds.push(DrawCommand { area, op });
    if node.children.len() == 0 {
        return cmds;
    }
    if !node.ctype.is_layout() {
        return cmds;
    }
    let props = LayoutProperties::from_attributes(&node.attributes);
    let dir = node.ctype.layout_direction();
    let cs = constraints_of(&node.children);
    let areas = partition(area, &cs, dir, props);
    proof {
        assert(cs@ =~= constraints_view(node.children@));
        assert forall|j: int| 0 <= j < node.children@.len() implies (#[trigger] areas@[j])
            == child_areas(area, node.children@, dir, props)[j] && areas@[j].x + areas@[j].width
            <= u16::MAX && areas@[j].y + areas@[j].height <= u16::MAX by {
            lemma_partition_gives_child_area(area, cs@, dir, props, areas@[j], j);
        }
    }
    let tail = children_plan(&node.children, &areas, 0);
    let ghost tl = tail@;
    let mut cmds = cmds;
    let mut tail = tail;
    cmds.append(&mut tail);
    proof {
        assert(cmds@.skip(1) =~= tl);
        assert(areas@.skip(0) =~= areas@);
        assert(node.children@.skip(0) =~= node.children@);
        assert(areas@ =~= child_areas(area, node.children@, dir, props));
        assert(dir == spec_dir(node.ctype));
        assert(props_match(node.attributes@, props));
        assert(forest_plan_matches(
            node.children@,
            child_areas(area, node.children@, spec_dir(node.ctype), props),
            cmds@.skip(1),
        ));
    }
    cmds
}

/// The walks of the forest's nodes from `from` on, concatenated in
/// order.
fn children_plan(children: &Vec<RenderTree>, areas: &Vec<Area>, from: usize) -> (r: Vec<
    DrawCommand,
>)
    requires
        from <= children@.len(),
        areas@.len() == children@.len(),
        forall|i: int| from <= i < children@.len() ==> tree_wf(#[trigger] children@[i]),
        forall|i: int|
            from <= i < children@.len() ==> ((#[trigger] areas@[i]).x + areas@[i].width
                <= u16::MAX && areas@[i].y + areas@[i].height <= u16::MAX),
    ensures
        forest_plan_matches(children@.skip(from as int), areas@.skip(from as int), r@),
    decreases *children, children@.len() - from,
{
    if from == children.len() {
        let r: Vec<DrawCommand> = Vec::new();
        proof {
            assert(children@.skip(from as int) =~= Seq::<RenderTree>::empty());
        }
        r
    } else {
        let head = node_plan(&children[from], areas[from]);
        let mut r = head;
        let ghost hd = r@;
        let mut tail = children_plan(children, areas, from + 1);
        let ghost tl = tail@;
        r.append(&mut tail);
        proof {
            let nodes = children@.skip(from as int);
            let ars = areas@.skip(from as int);
            assert(nodes[0] == children@[from as int]);
            assert(ars[0] == areas@[from as int]);
            assert(nodes.skip(1) =~= children@.skip(from as int + 1));
            assert(ars.skip(1) =~= areas@.skip(from as int + 1));
            let k = hd.len() as int;
            assert(r@.take(k) =~= hd);
            assert(r@.skip(k) =~= tl);
            assert(1 <= k <= r@.len());
            assert(node_plan_matches(nodes[0], ars[0], r@.take(k)));
            assert(forest_plan_matches(nodes.skip(1), ars.skip(1), r@.skip(k)));
        }
        r
    }
}

/// The render walker over one compiled forest.
pub struct Renderer {
    pub tree: Vec<RenderTree>,
}

impl Renderer {
    pub fn new(tree: Vec<RenderTree>) -> (r: Renderer)
        ensures
            r.tree == tree,
    {
        Renderer { tree }
    }

    /// The full plan of one render pass: every command the pass will
    /// execute, in order. The top-level nodes take their areas from
    /// the clamped frame area, stacked vertically — as children of
    /// the discarded window — with default properties; each subtree
    /// then follows its own render-time properties.
    pub fn draw_plan(&self, area: Area) -> (r: Vec<DrawCommand>)
        requires
            forall|j: int| 0 <= j < self.tree@.len() ==> tree_wf(#[trigger] self.tree@[j]),
        ensures
            forest_plan_matches(
                self.tree@,
                child_areas(
                    spec_clamp(area),
                    self.tree@,
                    Direction::Vertical,
                    (LayoutProperties { margin: 0, spacing: 0, flex: FlexPolicy::Start }),
                ),
                r@,
            ),
    {
        let area = clamp_area(area);
        let props = LayoutProperties::new();
        let cs = constraints_of(&self.tree);
        let areas = partition(area, &cs, Direction::Vertical, props);
        proof {
            assert(cs@ =~= constraints_view(self.tree@));
            assert forall|j: int| 0 <= j < self.tree@.len() implies (#[trigger] areas@[j])
                == child_areas(area, self.tree@, Direction::Vertical, props)[j] && areas@[j].x
                + areas@[j].width <= u16::MAX && areas@[j].y + areas@[j].height <= u16::MAX by {
                lemma_partition_gives_child_area(area, cs@, Direction::Vertical, props, areas@[j], j);
            }
        }
        let r = children_plan(&self.tree, &areas, 0);
        proof {
            assert(self.tree@.skip(0) =~= self.tree@);
            assert(areas@.skip(0) =~= areas@);
            assert(areas@ =~= child_areas(area, self.tree@, Direction::Vertical, props));
        }
        r
    }

    /// One render pass: computes the pass's draw plan and executes it
    /// into `buf`, command by command, in order.
    pub fn render(&self, area: Area, buf: &mut Buffer)
        requires
            forall|j: int| 0 <= j < self.tree@.len() ==> tree_wf(#[trigger] self.tree@[j]),
    {
        let cmds = self.draw_plan(area);
        run_plan(&cmds, buf);
    }
}

/// Executes a draw plan: one wrapper call per command, nothing else.
fn run_plan(cmds: &Vec<DrawCommand>, buf: &mut Buffer) {
    let n = cmds.len();
    let mut i: usize = 0;
    while i < n
        invariant
            0 <= i <= n == cmds@.len(),
        decreases n - i,
    {
        match &cmds[i].op {
            DrawOp::Frame { borders, kind } => draw_frame(buf, cmds[i].area, borders, kind),
            DrawOp::Paragraph { lines } => draw_paragraph(buf, cmds[i].area, lines),
            DrawOp::Fill { color } => draw_fill(buf, cmds[i].area, color.as_ref()),
            DrawOp::Noop => {},
        }
        i += 1;
    }
}

} // verus!
