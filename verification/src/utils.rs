use vstd::prelude::*;
use crate::attribute::{Attribute, attr_wf, spec_apply};
use crate::layout::FlexPolicy;
use crate::str_util::{str_eq, contains_char, spec_contains_char, parse_u16, is_numeral,
    digits_val};

verus! {

/// Which of a frame's four sides are drawn.
#[derive(Clone, Copy, Debug, PartialEq, Eq, Structural)]
pub struct BorderSet {
    pub left: bool,
    pub right: bool,
    pub top: bool,
    pub bottom: bool,
}

/// The line style of a drawn frame.
#[derive(Clone, Copy, Debug, PartialEq, Eq, Structural)]
pub enum BorderKind {
    Plain,
    Rounded,
    Double,
    Thick,
    UltraThick,
}

/// `r` is what reading `a` can produce: the resolved text on success,
/// nothing where the read failed.
pub open spec fn read_opt_matches(a: Attribute, r: Option<Seq<char>>) -> bool {
    exists|lk: Option<Seq<char>>|
        match #[trigger] spec_apply(a, lk) {
            Ok(s) => r == Some(s),
            Err(_) => r is None,
        }
}

/// Reads an optional attribute, mapping a failed read (a missing store
/// key) to an absent value.
pub fn read_opt_attributes(attr: Option<&Attribute>) -> (r: Option<String>)
    requires
        attr matches Some(a) ==> attr_wf(*a),
    ensures
        (match attr {
            None => r is None,
            Some(a) => read_opt_matches(*a, (match r {
                None => None,
                Some(v) => Some(v@),
            })),
        }),
        (match attr {
            Some(a) => !(a.derive matches Some(d) && d.store is Some) ==> (r matches Some(v) && v@
                == a.value@),
            None => true,
        }),
{
    match attr {
        None => None,
        Some(a) => {
            let rr = a.read();
            match rr {
                Ok(v) => {
                    proof {
                        let lk = choose|lk: Option<Seq<char>>|
                            crate::attribute::read_matches(*a, lk, Ok::<
                                String,
                                crate::attribute::AttrError,
                            >(v));
                        assert(read_opt_matches(*a, Some(v@))) by {
                            assert(match spec_apply(*a, lk) {
                                Ok(s) => Some(v@) == Some::<Seq<char>>(s),
                                Err(_) => false,
                            });
                        }
                    }
                    Some(v)
                },
                Err(e) => {
                    proof {
                        let lk = choose|lk: Option<Seq<char>>|
                            crate::attribute::read_matches(*a, lk, Err::<
                                String,
                                crate::attribute::AttrError,
                            >(e));
                        assert(read_opt_matches(*a, None)) by {
                            assert(match spec_apply(*a, lk) {
                                Ok(_) => false,
                                Err(_) => true,
                            });
                        }
                    }
                    None
                },
            }
        },
    }
}

/// `true` exactly for the string `true`.
pub fn bool_from_optstr(o: Option<String>) -> (r: bool)
    ensures
        r == (o matches Some(s) && s@ == "true"@),
{
    match o {
        Some(b) => str_eq(b.as_str(), "true"),
        None => false,
    }
}

/// A numeral resolves to its value; anything else to nothing.
pub open spec fn spec_parse_u16(o: Option<Seq<char>>) -> Option<u16> {
    match o {
        None => None,
        Some(s) => if is_numeral(s) && digits_val(s) <= u16::MAX {
            Some(digits_val(s) as u16)
        } else {
            None
        },
    }
}

/// Reads an optional attribute and parses it as a `u16` numeral;
/// anything else, including a failed read, resolves to nothing.
pub fn parse_from_attributes(a: Option<&Attribute>) -> (r: Option<u16>)
    requires
        a matches Some(at) ==> attr_wf(*at),
    ensures
        (match a {
            None => r is None,
            Some(at) => exists|v: Option<Seq<char>>|
                #[trigger] read_opt_matches(*at, v) && r == spec_parse_u16(v),
        }),
{
    let v = read_opt_attributes(a);
    let ghost gv: Option<Seq<char>> = match v {
        None => None,
        Some(ref s) => Some(s@),
    };
    match v {
        None => {
            proof {
                if a is Some {
                    assert(read_opt_matches(*a->Some_0, gv) && spec_parse_u16(gv) is None);
                }
            }
            None
        },
        Some(s) => {
            let r = parse_u16(s.as_str());
            proof {
                if a is Some {
                    assert(read_opt_matches(*a->Some_0, gv));
                    assert(r == spec_parse_u16(gv));
                }
            }
            r
        },
    }
}

/// The border sides a raw attribute value selects: `all` or `none` by
/// name, otherwise one side per occurrence of `l`, `r`, `t`, `b`.
pub open spec fn spec_create_borders(o: Option<Seq<char>>) -> BorderSet {
    match o {
        None => BorderSet { left: false, right: false, top: false, bottom: false },
        Some(s) => if s == "all"@ {
            BorderSet { left: true, right: true, top: true, bottom: true }
        } else if s == "none"@ {
            BorderSet { left: false, right: false, top: false, bottom: false }
        } else {
            BorderSet {
                left: spec_contains_char(s, 'l'),
                right: spec_contains_char(s, 'r'),
                top: spec_contains_char(s, 't'),
                bottom: spec_contains_char(s, 'b'),
            }
        },
    }
}

/// Resolves the `border` attribute value to the set of drawn sides.
pub fn create_borders(o: Option<String>) -> (r: BorderSet)
    ensures
        r == spec_create_borders(match o {
            None => None,
            Some(s) => Some(s@),
        }),
{
    match o {
        None => BorderSet { left: false, right: false, top: false, bottom: false },
        Some(s) => {
            if str_eq(s.as_str(), "all") {
                BorderSet { left: true, right: true, top: true, bottom: true }
            } else if str_eq(s.as_str(), "none") {
                BorderSet { left: false, right: false, top: false, bottom: false }
            } else {
                BorderSet {
                    left: contains_char(s.as_str(), 'l'),
                    right: contains_char(s.as_str(), 'r'),
                    top: contains_char(s.as_str(), 't'),
                    bottom: contains_char(s.as_str(), 'b'),
                }
            }
        },
    }
}

/// The line style a raw `borderType` value selects; unknown values
/// fall back to plain.
pub open spec fn spec_border_kind(o: Option<Seq<char>>) -> BorderKind {
    match o {
        None => BorderKind::Plain,
        Some(s) => if s == "rounded"@ {
            BorderKind::Rounded
        } else if s == "double"@ {
            BorderKind::Double
        } else if s == "thick"@ {
            BorderKind::Thick
        } else if s == "ultrathick"@ {
            BorderKind::UltraThick
        } else {
            BorderKind::Plain
        },
    }
}

/// Resolves the `borderType` attribute value to a line style.
pub fn get_border_type(o: Option<String>) -> (r: BorderKind)
    ensures
        r == spec_border_kind(match o {
            None => None,
            Some(s) => Some(s@),
        }),
{
    match o {
        None => BorderKind::Plain,
        Some(s) => {
            if str_eq(s.as_str(), "rounded") {
                BorderKind::Rounded
            } else if str_eq(s.as_str(), "double") {
                BorderKind::Double
            } else if str_eq(s.as_str(), "thick") {
                BorderKind::Thick
            } else if str_eq(s.as_str(), "ultrathick") {
                BorderKind::UltraThick
            } else {
                BorderKind::Plain
            }
        },
    }
}

/// The flex policy a raw `flex` value selects; unknown values fall
/// back to packing at the start.
pub open spec fn spec_flex_policy(o: Option<Seq<char>>) -> FlexPolicy {
    match o {
        None => FlexPolicy::Start,
        Some(s) => if s == "end"@ {
            FlexPolicy::End
        } else if s == "center"@ {
            FlexPolicy::Center
        } else if s == "spaceBetween"@ {
            FlexPolicy::SpaceBetween
        } else if s == "spaceAround"@ {
            FlexPolicy::SpaceAround
        } else {
            FlexPolicy::Start
        },
    }
}

/// Resolves the `flex` attribute value to a flex policy.
pub fn flex_from_str(o: Option<String>) -> (r: FlexPolicy)
    ensures
        r == spec_flex_policy(match o {
            None => None,
            Some(s) => Some(s@),
        }),
{
    match o {
        None => FlexPolicy::Start,
        Some(s) => {
            if str_eq(s.as_str(), "end") {
                FlexPolicy::End
            } else if str_eq(s.as_str(), "center") {
                FlexPolicy::Center
            } else if str_eq(s.as_str(), "spaceBetween") {
                FlexPolicy::SpaceBetween
            } else if str_eq(s.as_str(), "spaceAround") {
                FlexPolicy::SpaceAround
            } else {
                FlexPolicy::Start
            }
        },
    }
}

} // verus!
