use vstd::prelude::*;
use roxmltree::{Document, ParsingOptions};

verus! {

/// One child of a markup element: a nested element, a run of character
/// data, or a node kind the compiler never looks at (comments,
/// processing instructions and the like).
pub enum MarkupChild {
    Element(MarkupNode),
    Text(String),
    Other,
}

/// An element of the parsed markup document: its tag name, its
/// attributes in document order, its children in document order, and
/// the byte offset of the node in the source text (for diagnostics).
pub struct MarkupNode {
    pub tag: String,
    pub attrs: Vec<(String, String)>,
    pub children: Vec<MarkupChild>,
    pub pos: usize,
}

/// The mathematical shape of a markup node.
pub struct MarkupModel {
    pub tag: Seq<char>,
    pub attrs: Seq<(Seq<char>, Seq<char>)>,
    pub children: Seq<MarkupChildModel>,
    pub pos: int,
}

pub enum MarkupChildModel {
    Element(MarkupModel),
    Text(Seq<char>),
    Other,
}

impl MarkupNode {
    /// The node as a mathematical value.
    pub open spec fn deep(self) -> MarkupModel
        decreases self,
    {
        MarkupModel {
            tag: self.tag@,
            attrs: self.attrs@.map_values(|p: (String, String)| (p.0@, p.1@)),
            children: deep_children(self.children@),
            pos: self.pos as int,
        }
    }
}

pub open spec fn deep_children(cs: Seq<MarkupChild>) -> Seq<MarkupChildModel>
    decreases cs,
{
    if cs.len() == 0 {
        Seq::empty()
    } else {
        seq![deep_child(cs[0])] + deep_children(cs.skip(1))
    }
}

pub open spec fn deep_child(c: MarkupChild) -> MarkupChildModel
    decreases c,
{
    match c {
        MarkupChild::Element(n) => MarkupChildModel::Element(n.deep()),
        MarkupChild::Text(t) => MarkupChildModel::Text(t@),
        MarkupChild::Other => MarkupChildModel::Other,
    }
}

proof fn lemma_deep_children_push(cs: Seq<MarkupChild>, c: MarkupChild)
    ensures
        deep_children(cs.push(c)) == deep_children(cs) + seq![deep_child(c)],
    decreases cs.len(),
{
    if cs.len() == 0 {
        assert(cs.push(c)[0] == c);
        assert(cs.push(c).skip(1) =~= Seq::<MarkupChild>::empty());
        assert(deep_children(cs.push(c)) == seq![deep_child(c)] + deep_children(
            cs.push(c).skip(1),
        ));
        assert(deep_children(Seq::<MarkupChild>::empty()) =~= Seq::<MarkupChildModel>::empty());
        assert(deep_children(cs.push(c)) =~= deep_children(cs) + seq![deep_child(c)]);
    } else {
        assert(cs.push(c).skip(1) =~= cs.skip(1).push(c));
        lemma_deep_children_push(cs.skip(1), c);
        assert(cs.push(c)[0] == cs[0]);
        assert(deep_children(cs.push(c)) =~= deep_children(cs) + seq![deep_child(c)]);
    }
}

pub proof fn lemma_deep_children_len(cs: Seq<MarkupChild>)
    ensures
        deep_children(cs).len() == cs.len(),
    decreases cs,
{
    if cs.len() > 0 {
        lemma_deep_children_len(cs.skip(1));
    }
}

pub proof fn lemma_deep_children_index(cs: Seq<MarkupChild>, k: int)
    requires
        0 <= k < cs.len(),
    ensures
        deep_children(cs).len() == cs.len(),
        deep_children(cs)[k] == deep_child(cs[k]),
    decreases cs,
{
    lemma_deep_children_len(cs);
    if k == 0 {
        lemma_deep_children_len(cs.skip(1));
    } else {
        lemma_deep_children_index(cs.skip(1), k - 1);
    }
}

/// One node of the parsed document in flat, pre-order form: records
/// appear in document order, every record's parent precedes it, and
/// the first record is the document container itself. `element` and
/// `textual` tell an element and a run of character data apart; a
/// record that is neither (a comment, say) is carried but ignored.
pub struct RawNode {
    pub element: bool,
    pub textual: bool,
    pub tag: String,
    pub text: String,
    pub attrs: Vec<(String, String)>,
    pub parent: Option<usize>,
    pub pos: usize,
}

/// A failure of the markup parser, carrying its message.
#[derive(Debug)]
pub struct MarkupFault {
    pub message: String,
}

/// What the external markup parser yields for a source text: the flat
/// record list of the parsed document, or the parse error's message.
/// Parsing is a function of the text alone, so the result carries a
/// name; nothing is assumed about which records a given text yields.
pub uninterp spec fn parsed_records(src: Seq<char>) -> Result<Seq<RawNode>, Seq<char>>;

/// Relies on roxmltree::Document::parse_with_options (with DTDs
/// allowed) to parse the source text, and on Node::is_element,
/// is_text, tag_name, text, attributes, parent, id and range to copy
/// each document node, in document order, into a plain record. The
/// result depends on the text alone, so it equals its name.
#[verifier::external_body]
fn parse_flat(src: &str) -> (r: Result<Vec<RawNode>, MarkupFault>)
    ensures
        (match r {
            Ok(v) => parsed_records(src@) == Ok::<Seq<RawNode>, Seq<char>>(v@),
            Err(f) => parsed_records(src@) == Err::<Seq<RawNode>, Seq<char>>(f.message@),
        }),
{
    let mut opts = ParsingOptions::default();
    opts.allow_dtd = true;
    let doc = Document::parse_with_options(src, opts).map_err(|e| MarkupFault {
        message: e.to_string(),
    })?;
    Ok(doc.descendants().map(|n| RawNode {
        element: n.is_element(),
        textual: n.is_text(),
        tag: n.tag_name().name().to_string(),
        text: n.text().unwrap_or("").to_string(),
        attrs: n.attributes().map(|a| (a.name().to_string(), a.value().to_string())).collect(),
        parent: n.parent().map(|p| p.id().get_usize()),
        pos: n.range().start,
    }).collect())
}

/// The model of the node that record `idx` roots: its children are the
/// later records naming it as parent, in order.
pub open spec fn spec_build_model(rs: Seq<RawNode>, idx: int) -> MarkupModel
    decreases rs.len() - idx, rs.len() + 1,
{
    if 0 <= idx < rs.len() {
        MarkupModel {
            tag: rs[idx].tag@,
            attrs: rs[idx].attrs@.map_values(|p: (String, String)| (p.0@, p.1@)),
            children: spec_build_children(rs, idx, idx + 1),
            pos: rs[idx].pos as int,
        }
    } else {
        MarkupModel { tag: Seq::empty(), attrs: Seq::empty(), children: Seq::empty(), pos: 0 }
    }
}

pub open spec fn spec_build_children(rs: Seq<RawNode>, idx: int, j: int) -> Seq<MarkupChildModel>
    decreases rs.len() - idx, rs.len() - j,
{
    if idx < 0 || j <= idx || j >= rs.len() {
        Seq::empty()
    } else if rs[j].parent == Some(idx as usize) {
        let head = if rs[j].element {
            MarkupChildModel::Element(spec_build_model(rs, j))
        } else if rs[j].textual {
            MarkupChildModel::Text(rs[j].text@)
        } else {
            MarkupChildModel::Other
        };
        seq![head] + spec_build_children(rs, idx, j + 1)
    } else {
        spec_build_children(rs, idx, j + 1)
    }
}

fn clone_attrs(v: &Vec<(String, String)>) -> (r: Vec<(String, String)>)
    ensures
        r@.map_values(|p: (String, String)| (p.0@, p.1@)) == v@.map_values(
            |p: (String, String)| (p.0@, p.1@),
        ),
{
    let mut r: Vec<(String, String)> = Vec::new();
    let mut i: usize = 0;
    while i < v.len()
        invariant
            0 <= i <= v@.len(),
            r@.len() == i,
            forall|k: int| 0 <= k < i ==> r@[k].0@ == v@[k].0@ && r@[k].1@ == v@[k].1@,
        decreases v@.len() - i,
    {
        let p = &v[i];
        r.push((p.0.clone(), p.1.clone()));
        i += 1;
    }
    assert(r@.map_values(|p: (String, String)| (p.0@, p.1@)) =~= v@.map_values(
        |p: (String, String)| (p.0@, p.1@),
    ));
    r
}

/// Rebuilds the subtree rooted at record `idx`: scans the later
/// records for those naming `idx` as parent and nests them, elements
/// recursively.
fn build_node(records: &Vec<RawNode>, idx: usize) -> (n: MarkupNode)
    requires
        idx < records@.len(),
    ensures
        n.deep() == spec_build_model(records@, idx as int),
    decreases records@.len() - idx,
{
    let len = records.len();
    let tag = records[idx].tag.clone();
    let attrs = clone_attrs(&records[idx].attrs);
    let pos = records[idx].pos;
    let mut children: Vec<MarkupChild> = Vec::new();
    let mut j: usize = idx + 1;
    while j < len
        invariant
            idx < j <= records@.len(),
            len == records@.len(),
            deep_children(children@) + spec_build_children(records@, idx as int, j as int)
                =~= spec_build_children(records@, idx as int, idx as int + 1),
        decreases records@.len() - j,
    {
        let is_child = match records[j].parent {
            Some(p) => p == idx,
            None => false,
        };
        if is_child {
            let c: MarkupChild = if records[j].element {
                MarkupChild::Element(build_node(records, j))
            } else if records[j].textual {
                MarkupChild::Text(records[j].text.clone())
            } else {
                MarkupChild::Other
            };
            proof {
                lemma_deep_children_push(children@, c);
            }
            children.push(c);
        }
        j += 1;
    }
    assert(spec_build_children(records@, idx as int, records@.len() as int)
        =~= Seq::<MarkupChildModel>::empty());
    assert(deep_children(children@) =~= spec_build_children(records@, idx as int, idx as int + 1));
    let n = MarkupNode { tag, attrs, children, pos };
    assert(n.deep() =~= spec_build_model(records@, idx as int)) by {
        assert(n.attrs@.map_values(|p: (String, String)| (p.0@, p.1@)) =~= records@[idx as int]
            .attrs@.map_values(|p: (String, String)| (p.0@, p.1@)));
    }
    n
}

/// Index of the first element among a node's children, if any.
pub open spec fn first_element_child(cs: Seq<MarkupChildModel>) -> Option<int>
    decreases cs,
{
    if cs.len() == 0 {
        None
    } else if cs[0] is Element {
        Some(0)
    } else {
        match first_element_child(cs.skip(1)) {
            None => None,
            Some(k) => Some(k + 1),
        }
    }
}

pub proof fn lemma_first_element_child(cs: Seq<MarkupChildModel>)
    ensures
        match first_element_child(cs) {
            Some(k) => 0 <= k < cs.len() && cs[k] is Element && forall|j: int|
                0 <= j < k ==> !(cs[j] is Element),
            None => forall|j: int| 0 <= j < cs.len() ==> !(cs[j] is Element),
        },
    decreases cs,
{
    if cs.len() > 0 && !(cs[0] is Element) {
        lemma_first_element_child(cs.skip(1));
        assert forall|j: int| 1 <= j < cs.len() implies cs[j] == cs.skip(1)[j - 1] by {}
    }
}

/// The tree a source text parses to: the document's first (only)
/// element, rebuilt from the named parse result; a parse failure, an
/// empty document or a document without a root element fail with a
/// message.
pub open spec fn spec_parse_markup(src: Seq<char>) -> Result<MarkupModel, Seq<char>> {
    match parsed_records(src) {
        Err(m) => Err(m),
        Ok(rs) => if rs.len() == 0 {
            Err("the document holds no nodes"@)
        } else {
            match first_element_child(spec_build_model(rs, 0).children) {
                None => Err("the document has no root element"@),
                Some(k) => Ok(spec_build_model(rs, 0).children[k]->Element_0),
            }
        },
    }
}

/// Parses markup source into the root element's tree: exactly the
/// tree that `spec_parse_markup` prescribes for this text, or its
/// failure message. Which records a text parses to is the external
/// parser's affair (the name `parsed_records`); everything after the
/// parse is verified.
pub fn parse_markup(src: &str) -> (r: Result<MarkupNode, MarkupFault>)
    ensures
        (match r {
            Ok(n) => spec_parse_markup(src@) == Ok::<MarkupModel, Seq<char>>(n.deep()),
            Err(f) => spec_parse_markup(src@) == Err::<MarkupModel, Seq<char>>(f.message@),
        }),
{
    let records = match parse_flat(src) {
        Ok(rs) => rs,
        Err(f) => {
            return Err(f);
        },
    };
    if records.len() == 0 {
        return Err(MarkupFault { message: String::from_str("the document holds no nodes") });
    }
    let container = build_node(&records, 0);
    let ghost dc = deep_children(container.children@);
    proof {
        lemma_deep_children_len(container.children@);
        assert(container.deep().children == dc);
        assert(dc == spec_build_model(records@, 0).children);
        lemma_first_element_child(dc);
    }
    let mut i: usize = 0;
    let n = container.children.len();
    let mut found: Option<usize> = None;
    while i < n && found.is_none()
        invariant
            0 <= i <= n == container.children@.len(),
            dc == deep_children(container.children@),
            dc.len() == n,
            found matches Some(k) ==> (k < container.children@.len()
                && container.children@[k as int] is Element && (forall|j: int|
                0 <= j < k ==> !(container.children@[j] is Element))),
            found is None ==> forall|k: int|
                0 <= k < i ==> !(container.children@[k] is Element),
        decreases n - i, (if found is None { 1int } else { 0int }),
    {
        let is_el = match &container.children[i] {
            MarkupChild::Element(_) => true,
            _ => false,
        };
        if is_el {
            found = Some(i);
        } else {
            i += 1;
        }
    }
    proof {
        assert(found is None ==> i == n);
        // the exec children and their models agree on which is an
        // element, so the scan found exactly the first element child
        assert forall|j: int| 0 <= j < n implies (dc[j] is Element) == (container.children@[j]
            is Element) by {
            lemma_deep_children_index(container.children@, j);
        }
        match found {
            Some(k) => {
                assert(dc[k as int] is Element);
                match first_element_child(dc) {
                    None => {
                        assert(false);
                    },
                    Some(k2) => {
                        assert(k2 == k) by {
                            if k2 < k {
                                assert(!(container.children@[k2] is Element));
                            }
                            if k2 > k {
                                assert(!(dc[k as int] is Element));
                            }
                        }
                    },
                }
            },
            None => {
                if first_element_child(dc) is Some {
                    let k2 = first_element_child(dc)->Some_0;
                    assert(!(container.children@[k2] is Element));
                    assert(false);
                }
            },
        }
    }
    let mut container = container;
    match found {
        Some(k) => {
            proof {
                lemma_deep_children_index(container.children@, k as int);
            }
            let c = container.children.remove(k);
            match c {
                MarkupChild::Element(root) => {
                    proof {
                        assert(deep_child(c) == MarkupChildModel::Element(root.deep()));
                        assert(dc[k as int] == MarkupChildModel::Element(root.deep()));
                    }
                    Ok(root)
                },
                _ => {
                    proof {
                        assert(dc[k as int] == deep_child(c));
                        assert(false);
                    }
                    Err(MarkupFault { message: String::from_str("the document has no root element") })
                },
            }
        },
        None => Err(MarkupFault { message: String::from_str("the document has no root element") }),
    }
}

} // verus!
