use vstd::prelude::*;
use crate::str_util::str_eq;

verus! {

/// The closed set of component kinds. Every tag name that is not one
/// of the five reserved names maps to `Plugin`, the open extension
/// point.
#[derive(Clone, Copy, Debug, PartialEq, Eq, Structural)]
pub enum ComponentType {
    Row,
    Column,
    Window,
    Text,
    Block,
    Plugin,
}

/// The axis along which a layout partitions space.
#[derive(Clone, Copy, Debug, PartialEq, Eq, Structural)]
pub enum Direction {
    Horizontal,
    Vertical,
}

/// What a node draws when the walker reaches it: a bordered frame for
/// layouts, a paragraph of store-resident text, a background fill, or
/// nothing (a pure container). The concrete parameters (borders, fill
/// colour, text) are read from the node's attributes and store on every
/// render pass, not stored here.
#[derive(Clone, Copy, Debug, PartialEq, Eq, Structural)]
pub enum RenderCapability {
    Frame,
    Paragraph,
    FillColor,
    Noop,
}

/// The per-kind update hook. No built-in kind installs one.
#[derive(Clone, Copy, Debug, PartialEq, Eq, Structural)]
pub enum SubroutineKind {
    Noop,
}

pub open spec fn spec_from_tag(tag: Seq<char>) -> ComponentType {
    if tag == "window"@ {
        ComponentType::Window
    } else if tag == "column"@ {
        ComponentType::Column
    } else if tag == "row"@ {
        ComponentType::Row
    } else if tag == "text"@ {
        ComponentType::Text
    } else if tag == "block"@ {
        ComponentType::Block
    } else {
        ComponentType::Plugin
    }
}

pub open spec fn spec_is_layout(c: ComponentType) -> bool {
    c == ComponentType::Window || c == ComponentType::Column || c == ComponentType::Row
}

impl ComponentType {
    /// Total mapping from a tag name to a component kind; unknown tags
    /// become `Plugin`.
    pub fn from_tag(tag: &str) -> (r: Self)
        ensures
            r == spec_from_tag(tag@),
    {
        if str_eq(tag, "window") {
            ComponentType::Window
        } else if str_eq(tag, "column") {
            ComponentType::Column
        } else if str_eq(tag, "row") {
            ComponentType::Row
        } else if str_eq(tag, "text") {
            ComponentType::Text
        } else if str_eq(tag, "block") {
            ComponentType::Block
        } else {
            ComponentType::Plugin
        }
    }

    /// Only `Window`, `Column` and `Row` may own children.
    pub fn is_layout(&self) -> (r: bool)
        ensures
            r == spec_is_layout(*self),
    {
        match self {
            ComponentType::Window | ComponentType::Column | ComponentType::Row => true,
            _ => false,
        }
    }

    /// A `Row` partitions horizontally; `Column` and `Window`
    /// vertically. Only layout kinds have a direction.
    pub fn layout_direction(&self) -> (r: Direction)
        requires
            spec_is_layout(*self),
        ensures
            r == (if *self == ComponentType::Row {
                Direction::Horizontal
            } else {
                Direction::Vertical
            }),
    {
        if *self == ComponentType::Row {
            Direction::Horizontal
        } else {
            Direction::Vertical
        }
    }
}

pub open spec fn spec_create_renderer(c: ComponentType) -> RenderCapability {
    match c {
        ComponentType::Window | ComponentType::Column | ComponentType::Row
            => RenderCapability::Frame,
        ComponentType::Text => RenderCapability::Paragraph,
        ComponentType::Block => RenderCapability::FillColor,
        ComponentType::Plugin => RenderCapability::Noop,
    }
}

/// Selects the drawable capability for a component kind: layouts draw a
/// bordered frame, `Text` a paragraph read from the store at draw time,
/// `Block` a background fill, and `Plugin` nothing.
pub fn create_renderer(ct: &ComponentType) -> (r: RenderCapability)
    ensures
        r == spec_create_renderer(*ct),
{
    match ct {
        ComponentType::Window | ComponentType::Column | ComponentType::Row
            => RenderCapability::Frame,
        ComponentType::Text => RenderCapability::Paragraph,
        ComponentType::Block => RenderCapability::FillColor,
        ComponentType::Plugin => RenderCapability::Noop,
    }
}

/// The optional per-kind update hook, invoked outside the render pass.
/// None of the built-in kinds installs one.
pub fn get_subroutine(ct: &ComponentType) -> (r: SubroutineKind)
    ensures
        r == SubroutineKind::Noop,
{
    match ct {
        ComponentType::Window | ComponentType::Column | ComponentType::Row => SubroutineKind::Noop,
        ComponentType::Text => SubroutineKind::Noop,
        ComponentType::Block => SubroutineKind::Noop,
        ComponentType::Plugin => SubroutineKind::Noop,
    }
}

} // verus!
