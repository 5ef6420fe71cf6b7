use vstd::prelude::*;
use crate::attribute::{Attribute, attr_wf, spec_derivation};
use crate::component::{ComponentType, RenderCapability, SubroutineKind, spec_from_tag,
    spec_is_layout, spec_create_renderer};
use crate::layout::{Constraint, size_from_attr, spec_size_from_attr};
use crate::markup::{MarkupNode, MarkupChild, MarkupModel, MarkupChildModel, deep_children,
    parse_markup, spec_parse_markup};
use crate::store::{Store, new_store, clone_store, store_set};
use crate::str_util::str_eq;

verus! {

/// Why a compilation was aborted: a misplaced `window` (at a position
/// in the source), or a malformed typed attribute (wrapped with the
/// attribute's name and its raw value).
#[derive(Debug)]
pub enum CompileError {
    Structure { pos: usize },
    AttributeParse { name: String, value: String },
}

/// The mathematical shape of a compile failure.
pub enum ErrModel {
    Structure { pos: int },
    AttributeParse { name: Seq<char>, value: Seq<char> },
}

pub open spec fn err_model_of(e: CompileError) -> ErrModel {
    match e {
        CompileError::Structure { pos } => ErrModel::Structure { pos: pos as int },
        CompileError::AttributeParse { name, value } => ErrModel::AttributeParse {
            name: name@,
            value: value@,
        },
    }
}

/// One compiled node of the render tree. Shape is fixed at compile
/// time; attribute values and store contents may still change between
/// frames.
pub struct RenderTree {
    pub children: Vec<RenderTree>,
    pub store: Option<Store>,
    pub attributes: Vec<(String, Attribute)>,
    pub size_constraint: Constraint,
    pub ctype: ComponentType,
    pub renderer: RenderCapability,
}

/// The update hook bundle of one node, for external schedulers. The
/// built-in kinds install none, so compilation yields no entries.
pub struct SubRoutine {
    pub kind: SubroutineKind,
    pub store: Store,
}

/// The mathematical shape of an attribute: its literal and, when
/// derived, the key, the marker's char range, and whether a store is
/// bound.
pub struct AttrShape {
    pub literal: Seq<char>,
    pub derive: Option<(Seq<char>, int, int, bool)>,
}

/// The mathematical shape of a compiled node: everything but the
/// identity of the shared store.
pub struct TreeShape {
    pub children: Seq<TreeShape>,
    pub has_store: bool,
    pub attributes: Seq<(Seq<char>, AttrShape)>,
    pub size_constraint: Constraint,
    pub ctype: ComponentType,
    pub renderer: RenderCapability,
}

pub open spec fn attr_shape_of(a: Attribute) -> AttrShape {
    AttrShape {
        literal: a.value@,
        derive: match a.derive {
            None => None,
            Some(d) => Some((d.derive_from@, d.start as int, d.end as int, d.store is Some)),
        },
    }
}

pub open spec fn shape_of(t: RenderTree) -> TreeShape
    decreases t,
{
    TreeShape {
        children: shapes_of(t.children@),
        has_store: t.store is Some,
        attributes: t.attributes@.map_values(|p: (String, Attribute)| (p.0@, attr_shape_of(p.1))),
        size_constraint: t.size_constraint,
        ctype: t.ctype,
        renderer: t.renderer,
    }
}

pub open spec fn shapes_of(ts: Seq<RenderTree>) -> Seq<TreeShape>
    decreases ts,
{
    if ts.len() == 0 {
        Seq::empty()
    } else {
        seq![shape_of(ts[0])] + shapes_of(ts.skip(1))
    }
}

/// Every attribute of the tree is well formed (so reads cannot go out
/// of range), recursively.
pub open spec fn tree_wf(t: RenderTree) -> bool
    decreases t,
{
    &&& forall|j: int|
        0 <= j < t.attributes@.len() ==> attr_wf(#[trigger] t.attributes@[j].1)
    &&& forall|j: int| 0 <= j < t.children@.len() ==> tree_wf(#[trigger] t.children@[j])
}

/// The derivation an attribute created with a bound store carries.
pub open spec fn mk_attr_shape(v: Seq<char>) -> AttrShape {
    AttrShape {
        literal: v,
        derive: match spec_derivation(v) {
            None => None,
            Some(t) => Some((t.0, t.1, t.2, true)),
        },
    }
}

/// First value under `key` in an ordered attribute list.
pub open spec fn spec_attr_lookup(attrs: Seq<(Seq<char>, Seq<char>)>, key: Seq<char>) -> Option<
    Seq<char>,
>
    decreases attrs,
{
    if attrs.len() == 0 {
        None
    } else if attrs[0].0 == key {
        Some(attrs[0].1)
    } else {
        spec_attr_lookup(attrs.skip(1), key)
    }
}

/// Concatenation of the direct character-data children, in order.
pub open spec fn spec_text_of(cs: Seq<MarkupChildModel>) -> Seq<char>
    decreases cs,
{
    if cs.len() == 0 {
        Seq::empty()
    } else {
        (match cs[0] {
            MarkupChildModel::Text(t) => t,
            _ => Seq::empty(),
        }) + spec_text_of(cs.skip(1))
    }
}

/// What compiling one non-root element yields: a structural error for
/// a nested `window`; an attribute error for a malformed `size`; and
/// otherwise a node of the tag's kind, its attributes in order, its
/// resolved constraint, a store of its own, and — only for layout
/// kinds — its compiled element children, nested markup under other
/// kinds being ignored.
pub open spec fn spec_compile_node(m: MarkupModel) -> Result<TreeShape, ErrModel>
    decreases m,
{
    if m.tag == "window"@ {
        Err(ErrModel::Structure { pos: m.pos })
    } else {
        let kind = spec_from_tag(m.tag);
        match spec_size_from_attr(spec_attr_lookup(m.attrs, "size"@)) {
            None => Err(
                ErrModel::AttributeParse {
                    name: "size"@,
                    value: spec_attr_lookup(m.attrs, "size"@)->Some_0,
                },
            ),
            Some(c) => match (if spec_is_layout(kind) {
                spec_compile_children(m.children)
            } else {
                Ok(Seq::empty())
            }) {
                Err(e) => Err(e),
                Ok(kids) => Ok(
                    TreeShape {
                        children: kids,
                        has_store: true,
                        attributes: m.attrs.map_values(
                            |p: (Seq<char>, Seq<char>)| (p.0, mk_attr_shape(p.1)),
                        ),
                        size_constraint: c,
                        ctype: kind,
                        renderer: spec_create_renderer(kind),
                    },
                ),
            },
        }
    }
}

/// Compiles the element children of a layout node in document order,
/// skipping character data and other non-element nodes; the first
/// error aborts the whole compilation.
pub open spec fn spec_compile_children(cs: Seq<MarkupChildModel>) -> Result<
    Seq<TreeShape>,
    ErrModel,
>
    decreases cs,
{
    if cs.len() == 0 {
        Ok(Seq::empty())
    } else {
        match cs[0] {
            MarkupChildModel::Element(e) => match spec_compile_node(e) {
                Err(x) => Err(x),
                Ok(sh) => match spec_compile_children(cs.skip(1)) {
                    Err(x) => Err(x),
                    Ok(shs) => Ok(seq![sh] + shs),
                },
            },
            _ => spec_compile_children(cs.skip(1)),
        }
    }
}

proof fn lemma_shapes_push(ts: Seq<RenderTree>, t: RenderTree)
    ensures
        shapes_of(ts.push(t)) == shapes_of(ts) + seq![shape_of(t)],
    decreases ts.len(),
{
    if ts.len() == 0 {
        assert(ts.push(t)[0] == t);
        assert(ts.push(t).skip(1) =~= Seq::<RenderTree>::empty());
        assert(shapes_of(Seq::<RenderTree>::empty()) =~= Seq::<TreeShape>::empty());
        assert(shapes_of(ts.push(t)) =~= shapes_of(ts) + seq![shape_of(t)]);
    } else {
        assert(ts.push(t).skip(1) =~= ts.skip(1).push(t));
        lemma_shapes_push(ts.skip(1), t);
        assert(ts.push(t)[0] == ts[0]);
        assert(shapes_of(ts.push(t)) =~= shapes_of(ts) + seq![shape_of(t)]);
    }
}

/// First attribute under `key`, as a borrowed raw value.
fn find_attr<'a>(attrs: &'a Vec<(String, String)>, key: &str) -> (r: Option<&'a String>)
    ensures
        (match r {
            Some(s) => spec_attr_lookup(
                attrs@.map_values(|p: (String, String)| (p.0@, p.1@)),
                key@,
            ) == Some(s@),
            None => spec_attr_lookup(
                attrs@.map_values(|p: (String, String)| (p.0@, p.1@)),
                key@,
            ) is None,
        }),
{
    let ghost model = attrs@.map_values(|p: (String, String)| (p.0@, p.1@));
    let n = attrs.len();
    let mut i: usize = 0;
    proof {
        assert(model.skip(0) =~= model);
    }
    while i < n
        invariant
            0 <= i <= n == attrs@.len(),
            model == attrs@.map_values(|p: (String, String)| (p.0@, p.1@)),
            spec_attr_lookup(model, key@) == spec_attr_lookup(model.skip(i as int), key@),
        decreases n - i,
    {
        proof {
            assert(model.skip(i as int)[0] == model[i as int]);
            assert(model.skip(i as int).skip(1) =~= model.skip(i as int + 1));
        }
        if str_eq(attrs[i].0.as_str(), key) {
            return Some(&attrs[i].1);
        }
        i += 1;
    }
    proof {
        assert(model.skip(n as int) =~= Seq::<(Seq<char>, Seq<char>)>::empty());
    }
    None
}

/// Concatenates the text of the node's direct character-data
/// children, in document order; nested elements contribute nothing.
pub fn collect_text(node: &MarkupNode) -> (r: String)
    ensures
        r@ == spec_text_of(deep_children(node.children@)),
{
    let ghost dc = deep_children(node.children@);
    proof {
        crate::markup::lemma_deep_children_len(node.children@);
        assert(dc.skip(0) =~= dc);
    }
    let mut acc = String::new();
    let n = node.children.len();
    let mut i: usize = 0;
    while i < n
        invariant
            0 <= i <= n == node.children@.len(),
            dc == deep_children(node.children@),
            dc.len() == n,
            acc@ + spec_text_of(dc.skip(i as int)) == spec_text_of(dc),
        decreases n - i,
    {
        proof {
            crate::markup::lemma_deep_children_index(node.children@, i as int);
            assert(dc.skip(i as int)[0] == dc[i as int]);
            assert(dc.skip(i as int).skip(1) =~= dc.skip(i as int + 1));
        }
        match &node.children[i] {
            MarkupChild::Text(t) => {
                let ghost old_acc = acc@;
                acc.append(t.as_str());
                proof {
                    assert(acc@ + spec_text_of(dc.skip(i as int + 1)) =~= old_acc + spec_text_of(
                        dc.skip(i as int),
                    ));
                }
            },
            _ => {
                proof {
                    assert(spec_text_of(dc.skip(i as int)) == spec_text_of(dc.skip(i as int + 1)));
                }
            },
        }
        i += 1;
    }
    proof {
        assert(dc.skip(n as int) =~= Seq::<MarkupChildModel>::empty());
        assert(acc@ =~= spec_text_of(dc));
    }
    acc
}

/// `r` is what the specification prescribes for compiling `m` as a
/// non-root element.
pub open spec fn node_result_matches(m: MarkupNode, r: Result<RenderTree, CompileError>) -> bool {
    match r {
        Ok(t) => spec_compile_node(m.deep()) == Ok::<TreeShape, ErrModel>(shape_of(t)) && tree_wf(
            t,
        ),
        Err(e) => spec_compile_node(m.deep()) == Err::<TreeShape, ErrModel>(err_model_of(e)),
    }
}

/// `r` is what the specification prescribes for compiling the element
/// children `cs`.
pub open spec fn children_result_matches(
    cs: Seq<MarkupChild>,
    r: Result<Vec<RenderTree>, CompileError>,
) -> bool {
    match r {
        Ok(f) => spec_compile_children(deep_children(cs)) == Ok::<Seq<TreeShape>, ErrModel>(
            shapes_of(f@),
        ) && forall|j: int| 0 <= j < f@.len() ==> tree_wf(#[trigger] f@[j]),
        Err(e) => spec_compile_children(deep_children(cs)) == Err::<Seq<TreeShape>, ErrModel>(
            err_model_of(e),
        ),
    }
}

/// Compiles the element children of a layout node, in order; the
/// first failure aborts the whole compilation and no partial list is
/// returned.
fn compile_children(cs: &Vec<MarkupChild>) -> (r: Result<Vec<RenderTree>, CompileError>)
    ensures
        children_result_matches(cs@, r),
    decreases cs@,
{
    let ghost dc = deep_children(cs@);
    proof {
        crate::markup::lemma_deep_children_len(cs@);
        assert(dc.skip(0) =~= dc);
    }
    let mut out: Vec<RenderTree> = Vec::new();
    let n = cs.len();
    let mut k: usize = 0;
    proof {
        assert(shapes_of(out@) =~= Seq::<TreeShape>::empty());
    }
    while k < n
        invariant
            0 <= k <= n == cs@.len(),
            dc == deep_children(cs@),
            dc.len() == n,
            forall|j: int| 0 <= j < out@.len() ==> tree_wf(#[trigger] out@[j]),
            (match spec_compile_children(dc.skip(k as int)) {
                Ok(rest) => spec_compile_children(dc) == Ok::<Seq<TreeShape>, ErrModel>(
                    shapes_of(out@) + rest,
                ),
                Err(e) => spec_compile_children(dc) == Err::<Seq<TreeShape>, ErrModel>(e),
            }),
        decreases n - k,
    {
        proof {
            crate::markup::lemma_deep_children_index(cs@, k as int);
            assert(dc.skip(k as int)[0] == dc[k as int]);
            assert(dc.skip(k as int).skip(1) =~= dc.skip(k as int + 1));
        }
        match &cs[k] {
            MarkupChild::Element(node) => {
                match compile_node(node) {
                    Ok(t) => {
                        proof {
                            lemma_shapes_push(out@, t);
                        }
                        let ghost old_out = out@;
                        out.push(t);
                        proof {
                            if spec_compile_children(dc.skip(k as int + 1)) is Ok {
                                let shs = spec_compile_children(dc.skip(k as int + 1))->Ok_0;
                                assert(shapes_of(out@) + shs =~= shapes_of(old_out) + (seq![
                                    shape_of(t),
                                ] + shs));
                            }
                        }
                    },
                    Err(e) => {
                        return Err(e);
                    },
                }
            },
            _ => {
                proof {
                    assert(spec_compile_children(dc.skip(k as int)) == spec_compile_children(
                        dc.skip(k as int + 1),
                    ));
                }
            },
        }
        k += 1;
    }
    proof {
        assert(dc.skip(n as int) =~= Seq::<MarkupChildModel>::empty());
        assert(shapes_of(out@) + Seq::<TreeShape>::empty() =~= shapes_of(out@));
    }
    Ok(out)
}

/// Compiles one non-root element into a render-tree node: rejects a
/// nested `window`, resolves the kind, parses the `size` attribute,
/// creates the node's store (seeded with the collected text for
/// `Text` nodes), binds every markup attribute to that store, and —
/// for layout kinds only — compiles the element children.
pub fn compile_node(m: &MarkupNode) -> (r: Result<RenderTree, CompileError>)
    ensures
        node_result_matches(*m, r),
    decreases *m,
{
    if str_eq(m.tag.as_str(), "window") {
        return Err(CompileError::Structure { pos: m.pos });
    }
    let kind = ComponentType::from_tag(m.tag.as_str());
    let sizeref = find_attr(&m.attrs, "size");
    let c = match size_from_attr(sizeref) {
        Ok(c) => c,
        Err(e) => {
            return Err(
                CompileError::AttributeParse { name: String::from_str("size"), value: e.raw },
            );
        },
    };
    let store = new_store();
    if kind == ComponentType::Text {
        let text = collect_text(m);
        store_set(&store, String::from_str("text"), text);
    }
    let mut attributes: Vec<(String, Attribute)> = Vec::new();
    let na = m.attrs.len();
    let mut i: usize = 0;
    while i < na
        invariant
            0 <= i <= na == m.attrs@.len(),
            attributes@.len() == i,
            forall|j: int|
                0 <= j < i ==> (#[trigger] attributes@[j]).0@ == m.attrs@[j].0@ && attr_shape_of(
                    attributes@[j].1,
                ) == mk_attr_shape(m.attrs@[j].1@) && attr_wf(attributes@[j].1),
        decreases na - i,
    {
        let name = m.attrs[i].0.clone();
        let value = m.attrs[i].1.clone();
        let a = Attribute::create(value, Some(clone_store(&store)));
        attributes.push((name, a));
        i += 1;
    }
    let children: Vec<RenderTree> = if kind.is_layout() {
        match compile_children(&m.children) {
            Ok(f) => f,
            Err(e) => {
                return Err(e);
            },
        }
    } else {
        Vec::new()
    };
    let renderer = crate::component::create_renderer(&kind);
    let t = RenderTree {
        children,
        store: Some(store),
        attributes,
        size_constraint: c,
        ctype: kind,
        renderer,
    };
    proof {
        assert(shape_of(t).attributes =~= m.deep().attrs.map_values(
            |p: (Seq<char>, Seq<char>)| (p.0, mk_attr_shape(p.1)),
        ));
        if !spec_is_layout(kind) {
            assert(shapes_of(t.children@) =~= Seq::<TreeShape>::empty());
        }
        assert(spec_compile_node(m.deep()) == Ok::<TreeShape, ErrModel>(shape_of(t)));
    }
    Ok(t)
}

/// `r` is what the specification prescribes for compiling the whole
/// document rooted at `m`.
pub open spec fn compile_result_matches(m: MarkupNode, r: Result<Vec<RenderTree>, CompileError>) -> bool {
    match r {
        Ok(f) => spec_compile(m.deep()) == Ok::<Seq<TreeShape>, ErrModel>(shapes_of(f@)) && forall|
            j: int,
        | 0 <= j < f@.len() ==> tree_wf(#[trigger] f@[j]),
        Err(e) => spec_compile(m.deep()) == Err::<Seq<TreeShape>, ErrModel>(err_model_of(e)),
    }
}

/// Compiles a parsed document into the top-level forest: the root tag
/// must be `window`, whose own `size` attribute must parse; its
/// compiled element children become the forest, and the window itself
/// is discarded. A failure aborts the whole compilation: no partial
/// forest is ever returned.
pub fn compile(root: &MarkupNode) -> (r: Result<Vec<RenderTree>, CompileError>)
    ensures
        compile_result_matches(*root, r),
{
    if !str_eq(root.tag.as_str(), "window") {
        return Err(CompileError::Structure { pos: root.pos });
    }
    let sizeref = find_attr(&root.attrs, "size");
    match size_from_attr(sizeref) {
        Ok(_) => {},
        Err(e) => {
            return Err(
                CompileError::AttributeParse { name: String::from_str("size"), value: e.raw },
            );
        },
    }
    compile_children(&root.children)
}

/// What compiling a whole document yields: the root must be tagged
/// `window`; its own `size` attribute must parse; and its compiled
/// element children become the top-level forest — the window itself
/// is never a node of the tree.
pub open spec fn spec_compile(m: MarkupModel) -> Result<Seq<TreeShape>, ErrModel> {
    if m.tag != "window"@ {
        Err(ErrModel::Structure { pos: m.pos })
    } else {
        match spec_size_from_attr(spec_attr_lookup(m.attrs, "size"@)) {
            None => Err(
                ErrModel::AttributeParse {
                    name: "size"@,
                    value: spec_attr_lookup(m.attrs, "size"@)->Some_0,
                },
            ),
            Some(_) => spec_compile_children(m.children),
        }
    }
}

/// A failure of the whole markup-to-tree pipeline: either the text
/// could not be parsed at all, or the parsed tree broke a compilation
/// rule.
#[derive(Debug)]
pub enum ParseError {
    Markup { message: String },
    Compile { error: CompileError },
}

/// The mathematical outcome of a whole pipeline run over one source
/// text.
pub enum PipelineModel {
    NoParse { message: Seq<char> },
    Rejected { error: ErrModel },
    Compiled { forest: Seq<TreeShape> },
}

/// What parsing and compiling a source text yields, end to end: the
/// named parse's failure, the compilation's rejection, or the
/// compiled forest's shape — a function of the text alone.
pub open spec fn spec_pipeline(src: Seq<char>) -> PipelineModel {
    match spec_parse_markup(src) {
        Err(m) => PipelineModel::NoParse { message: m },
        Ok(tree) => match spec_compile(tree) {
            Err(e) => PipelineModel::Rejected { error: e },
            Ok(shapes) => PipelineModel::Compiled { forest: shapes },
        },
    }
}

/// The markup-to-tree pipeline: source text in, compiled forest out.
pub struct Parser {
    pub components: Vec<RenderTree>,
    pub subroutines: Vec<SubRoutine>,
    pub contents: String,
}

impl Parser {
    /// A parser over markup text, with nothing compiled yet.
    pub fn new(contents: String) -> (p: Parser)
        ensures
            p.components@.len() == 0,
            p.subroutines@.len() == 0,
            p.contents@ == contents@,
    {
        Parser { components: Vec::new(), subroutines: Vec::new(), contents }
    }

    /// Parses the held text and compiles the resulting tree, exactly
    /// as `spec_pipeline` prescribes for this text: a markup fault
    /// carries the named parse's failure message; otherwise the named
    /// parse's tree is compiled per `spec_compile`, its forest (well
    /// formed, with no subroutines — no built-in kind installs one)
    /// or its compile error being the result.
    pub fn parse(self) -> (r: Result<Parser, ParseError>)
        requires
            self.subroutines@.len() == 0,
        ensures
            (match r {
                Ok(p) => p.subroutines@.len() == 0 && p.contents@ == self.contents@ && (
                spec_pipeline(self.contents@) == PipelineModel::Compiled {
                    forest: shapes_of(p.components@),
                }) && (forall|j: int|
                    0 <= j < p.components@.len() ==> tree_wf(#[trigger] p.components@[j])),
                Err(ParseError::Markup { message }) => (spec_pipeline(self.contents@)
                    == PipelineModel::NoParse { message: message@ }),
                Err(ParseError::Compile { error }) => (spec_pipeline(self.contents@)
                    == PipelineModel::Rejected { error: err_model_of(error) }),
            }),
    {
        let root = match parse_markup(self.contents.as_str()) {
            Ok(n) => n,
            Err(f) => {
                return Err(ParseError::Markup { message: f.message });
            },
        };
        let forest = match compile(&root) {
            Ok(f) => f,
            Err(e) => {
                return Err(ParseError::Compile { error: e });
            },
        };
        let p = Parser { components: forest, subroutines: self.subroutines, contents: self.contents };
        Ok(p)
    }

    /// Hands back the compiled forest and the collected subroutines.
    pub fn ret(self) -> (r: Result<(Vec<RenderTree>, Vec<SubRoutine>), ParseError>)
        ensures
            r matches Ok(t) && t.0 == self.components && t.1 == self.subroutines,
    {
        Ok((self.components, self.subroutines))
    }
}

/// LAW: a document whose root tag is not `window` fails compilation
/// with a structural error naming the root's position; no partial
/// forest exists, since compilation returns no forest at all.
pub proof fn lemma_root_must_be_window(m: MarkupModel)
    requires
        m.tag != "window"@,
    ensures
        spec_compile(m) == Err::<Seq<TreeShape>, ErrModel>(ErrModel::Structure { pos: m.pos }),
{
}

/// LAW: a `window` element anywhere but the document root fails
/// compilation with a structural error at its position.
pub proof fn lemma_nested_window_rejected(m: MarkupModel)
    requires
        m.tag == "window"@,
    ensures
        spec_compile_node(m) == Err::<TreeShape, ErrModel>(ErrModel::Structure { pos: m.pos }),
{
}

/// LAW: where a child list compiled successfully, none of its visited
/// element children is a `window`.
pub proof fn lemma_ok_children_have_no_window(cs: Seq<MarkupChildModel>)
    requires
        spec_compile_children(cs) is Ok,
    ensures
        forall|j: int|
            0 <= j < cs.len() ==> (#[trigger] cs[j] matches MarkupChildModel::Element(e) ==> e.tag
                != "window"@),
    decreases cs,
{
    if cs.len() > 0 {
        match cs[0] {
            MarkupChildModel::Element(e) => {
                if e.tag == "window"@ {
                    lemma_nested_window_rejected(e);
                    assert(false);
                }
                lemma_ok_children_have_no_window(cs.skip(1));
            },
            _ => {
                lemma_ok_children_have_no_window(cs.skip(1));
            },
        }
        assert forall|j: int| 0 <= j < cs.len() implies (#[trigger] cs[j] matches
            MarkupChildModel::Element(e) ==> e.tag != "window"@) by {
            if j > 0 {
                assert(cs.skip(1)[j - 1] == cs[j]);
            }
        }
    }
}

/// LAW: a node of a non-layout kind compiles with no children,
/// whatever markup is nested beneath it.
pub proof fn lemma_leaf_has_no_children(m: MarkupModel, sh: TreeShape)
    requires
        spec_compile_node(m) == Ok::<TreeShape, ErrModel>(sh),
        !spec_is_layout(spec_from_tag(m.tag)),
    ensures
        sh.children.len() == 0,
{
}

/// LAW (idempotence): compiling the same markup twice yields
/// structurally identical forests — same kinds, same constraint
/// values, same attribute maps, same child ordering.
pub proof fn lemma_compile_idempotent(m: MarkupModel, s1: Seq<TreeShape>, s2: Seq<TreeShape>)
    requires
        spec_compile(m) == Ok::<Seq<TreeShape>, ErrModel>(s1),
        spec_compile(m) == Ok::<Seq<TreeShape>, ErrModel>(s2),
    ensures
        s1 == s2,
{
}

/// LAW (idempotence, end to end): the whole pipeline — parse, then
/// compile — is a function of the source text, so two successful runs
/// over the same text yield structurally identical forests.
pub proof fn lemma_pipeline_idempotent(src: Seq<char>, s1: Seq<TreeShape>, s2: Seq<TreeShape>)
    requires
        spec_pipeline(src) == (PipelineModel::Compiled { forest: s1 }),
        spec_pipeline(src) == (PipelineModel::Compiled { forest: s2 }),
    ensures
        s1 == s2,
{
}

} // verus!
