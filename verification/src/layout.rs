use vstd::prelude::*;
use crate::component::Direction;
use crate::str_util::{is_numeral, digits_val, parse_u32_range, parse_u32};

verus! {

/// One sibling's sizing rule along the parent's main axis.
#[derive(Clone, Copy, Debug, PartialEq, Eq, Structural)]
pub enum Constraint {
    Length(u16),
    Percentage(u16),
    Ratio(u32, u32),
    Fill(u16),
}

/// Where surplus main-axis space goes when the resolved sizes fall
/// short of the available extent.
#[derive(Clone, Copy, Debug, PartialEq, Eq, Structural)]
pub enum FlexPolicy {
    Start,
    End,
    Center,
    SpaceBetween,
    SpaceAround,
}

/// Per-layout-node render-time properties.
#[derive(Clone, Copy, Debug, PartialEq, Eq, Structural)]
pub struct LayoutProperties {
    pub margin: u16,
    pub spacing: u16,
    pub flex: FlexPolicy,
}

impl LayoutProperties {
    pub fn new() -> (r: Self)
        ensures
            r.margin == 0 && r.spacing == 0 && r.flex == FlexPolicy::Start,
    {
        LayoutProperties { margin: 0, spacing: 0, flex: FlexPolicy::Start }
    }

    pub fn margin(self, margin: Option<u16>) -> (r: Self)
        ensures
            r.margin == (match margin {
                Some(m) => m,
                None => 0,
            }),
            r.spacing == self.spacing && r.flex == self.flex,
    {
        let m = match margin {
            Some(m) => m,
            None => 0,
        };
        LayoutProperties { margin: m, ..self }
    }

    pub fn spacing(self, spacing: Option<u16>) -> (r: Self)
        ensures
            r.spacing == (match spacing {
                Some(s) => s,
                None => 0,
            }),
            r.margin == self.margin && r.flex == self.flex,
    {
        let s = match spacing {
            Some(s) => s,
            None => 0,
        };
        LayoutProperties { spacing: s, ..self }
    }

    pub fn flex(self, flex: FlexPolicy) -> (r: Self)
        ensures
            r.flex == flex,
            r.margin == self.margin && r.spacing == self.spacing,
    {
        LayoutProperties { flex, ..self }
    }
}

/// A rectangle of terminal cells.
#[derive(Clone, Copy, Debug, PartialEq, Eq, Structural)]
pub struct Area {
    pub x: u16,
    pub y: u16,
    pub width: u16,
    pub height: u16,
}

/// A parse failure of the sizing grammar, carrying the raw value for
/// diagnostics.
#[derive(Debug)]
pub struct SizeParseError {
    pub raw: String,
}

/// `k` splits `s` into two numerals around a `/`.
pub open spec fn ratio_split_at(s: Seq<char>, k: int) -> bool {
    0 <= k < s.len() && s[k] == '/' && is_numeral(s.subrange(0, k)) && is_numeral(
        s.subrange(k + 1, s.len() as int),
    )
}

/// The sizing grammar: `a/b` is a ratio, a numeral followed by `%` a
/// percentage, a numeral followed by `/` a fill weight, a bare numeral
/// a fixed length; anything else (including numerals too large for the
/// field) is invalid.
pub open spec fn spec_size_constraint(s: Seq<char>) -> Option<Constraint> {
    if exists|k: int| ratio_split_at(s, k) {
        let k = choose|k: int| ratio_split_at(s, k);
        if digits_val(s.subrange(0, k)) <= u32::MAX && digits_val(
            s.subrange(k + 1, s.len() as int),
        ) <= u32::MAX {
            Some(
                Constraint::Ratio(
                    digits_val(s.subrange(0, k)) as u32,
                    digits_val(s.subrange(k + 1, s.len() as int)) as u32,
                ),
            )
        } else {
            None
        }
    } else if s.len() >= 2 && s.last() == '%' && is_numeral(s.drop_last()) {
        if digits_val(s.drop_last()) <= u16::MAX {
            Some(Constraint::Percentage(digits_val(s.drop_last()) as u16))
        } else {
            None
        }
    } else if s.len() >= 2 && s.last() == '/' && is_numeral(s.drop_last()) {
        if digits_val(s.drop_last()) <= u16::MAX {
            Some(Constraint::Fill(digits_val(s.drop_last()) as u16))
        } else {
            None
        }
    } else if is_numeral(s) {
        if digits_val(s) <= u16::MAX {
            Some(Constraint::Length(digits_val(s) as u16))
        } else {
            None
        }
    } else {
        None
    }
}

/// An absent `size` attribute defaults to `Fill(1)`; a present one must
/// follow the sizing grammar.
pub open spec fn spec_size_from_attr(attr: Option<Seq<char>>) -> Option<Constraint> {
    match attr {
        None => Some(Constraint::Fill(1)),
        Some(s) => spec_size_constraint(s),
    }
}

/// Position of the first `/` in `s`, if any.
fn find_slash(s: &str) -> (r: Option<usize>)
    ensures
        match r {
            Some(k) => k < s@.len() && s@[k as int] == '/' && forall|j: int|
                0 <= j < k ==> s@[j] != '/',
            None => forall|j: int| 0 <= j < s@.len() ==> s@[j] != '/',
        },
{
    let len = s.unicode_len();
    let mut i: usize = 0;
    while i < len
        invariant
            0 <= i <= len == s@.len(),
            forall|j: int| 0 <= j < i ==> s@[j] != '/',
        decreases len - i,
    {
        if s.get_char(i) == '/' {
            return Some(i);
        }
        i += 1;
    }
    None
}

/// Resolves a raw `size` attribute value through the sizing grammar:
/// `a/b` to `Ratio`, `n%` to `Percentage`, `n/` to `Fill`, a bare
/// numeral to `Length`; an absent attribute to `Fill(1)`. A malformed
/// value fails, carrying the raw text.
pub fn size_from_attr(attr: Option<&String>) -> (r: Result<Constraint, SizeParseError>)
    ensures
        (match (attr, spec_size_from_attr(match attr {
            None => None,
            Some(s) => Some(s@),
        })) {
            (None, _) => r == Ok::<Constraint, SizeParseError>(Constraint::Fill(1)),
            (Some(s), Some(c)) => r == Ok::<Constraint, SizeParseError>(c),
            (Some(s), None) => r matches Err(e) && e.raw@ == s@,
        }),
{
    let s = match attr {
        None => {
            return Ok(Constraint::Fill(1));
        },
        Some(s) => s,
    };
    let len = s.as_str().unicode_len();
    let slash = find_slash(s.as_str());
    match slash {
        Some(k) if k + 1 < len => {
            // `a/b`: both sides must be numerals; any other `/` shape
            // that is not a trailing fill marker is malformed.
            let left = parse_u32_range(s.as_str(), 0, k);
            let right = parse_u32_range(s.as_str(), k + 1, len);
            proof {
                lemma_first_slash_only_split(s@, k as int);
            }
            match (left, right) {
                (Some(a), Some(b)) => {
                    assert(ratio_split_at(s@, k as int));
                    Ok(Constraint::Ratio(a, b))
                },
                _ => {
                    proof {
                        if exists|k2: int| ratio_split_at(s@, k2) {
                            let k2 = choose|k2: int| ratio_split_at(s@, k2);
                            assert(k2 == k);
                            // both sides are numerals, so a parse can
                            // have failed only on the u32 range
                            assert(digits_val(s@.subrange(0, k as int)) > u32::MAX || digits_val(
                                s@.subrange(k + 1, s@.len() as int),
                            ) > u32::MAX);
                        } else {
                            assert(!crate::str_util::is_digit('/'));
                            if s@.len() >= 2 && is_numeral(s@.drop_last()) {
                                assert(s@.drop_last()[k as int] == s@[k as int]);
                                assert(false);
                            }
                            if is_numeral(s@) {
                                assert(crate::str_util::is_digit(s@[k as int]));
                                assert(false);
                            }
                        }
                    }
                    Err(SizeParseError { raw: s.clone() })
                },
            }
        },
        Some(k) => {
            // A single trailing `/`: a fill weight.
            assert(k + 1 == len);
            proof {
                lemma_first_slash_only_split(s@, k as int);
                assert(s@.subrange(k + 1, s@.len() as int).len() == 0);
                assert(!ratio_split_at(s@, k as int));
                assert(!(exists|k2: int| ratio_split_at(s@, k2)));
                assert(s@.last() == '/');
                assert(s@.drop_last() =~= s@.subrange(0, k as int));
                assert(!crate::str_util::is_digit('/'));
                assert(!is_numeral(s@));
            }
            match parse_u32_range(s.as_str(), 0, k) {
                Some(w) if w <= u16::MAX as u32 => Ok(Constraint::Fill(w as u16)),
                _ => Err(SizeParseError { raw: s.clone() }),
            }
        },
        None => {
            // No `/` at all: percentage, or a bare length.
            proof {
                assert forall|k2: int| !ratio_split_at(s@, k2) by {
                    if 0 <= k2 < s@.len() {
                        assert(s@[k2] != '/');
                    }
                }
            }
            if len >= 2 && s.as_str().get_char(len - 1) == '%' {
                proof {
                    assert(s@.last() == '%');
                    assert(s@.drop_last() =~= s@.subrange(0, s@.len() - 1));
                    assert(!crate::str_util::is_digit('%'));
                    assert(!is_numeral(s@));
                }
                match parse_u32_range(s.as_str(), 0, len - 1) {
                    Some(v) if v <= u16::MAX as u32 => Ok(Constraint::Percentage(v as u16)),
                    _ => Err(SizeParseError { raw: s.clone() }),
                }
            } else {
                proof {
                    if len >= 2 {
                        assert(s@.last() != '%');
                    }
                }
                match parse_u32(s.as_str()) {
                    Some(v) if v <= u16::MAX as u32 => Ok(Constraint::Length(v as u16)),
                    _ => Err(SizeParseError { raw: s.clone() }),
                }
            }
        },
    }
}

// ---------------------------------------------------------------
// The one-dimensional solver.
//
// Rounding and clamping conventions, applied uniformly:
//  - the extent available to the siblings is the parent's main-axis
//    extent minus the margin on both sides and minus one inter-item
//    spacing per gap, floored at zero;
//  - percentages and ratios round down (`avail * p / 100`,
//    `avail * a / b`), and a zero ratio denominator resolves to zero;
//  - the remainder left for `Fill` siblings is shared by cumulative
//    weight: the i-th fill gets `rem * upto_i / w - rem * before_i / w`,
//    which allocates exactly `rem` in total and keeps equal weights
//    within one cell of each other;
//  - resolved sizes are then clamped in order so that their running sum
//    never exceeds the available extent;
//  - surplus space is placed per the flex policy, gap sizes rounding
//    down with the same cumulative rule;
//  - every position is capped at the content edge, which only matters
//    in degenerate cases where spacing alone exceeds the extent.
// ---------------------------------------------------------------

pub open spec fn dir_main_len(a: Area, d: Direction) -> int {
    if d == Direction::Horizontal {
        a.width as int
    } else {
        a.height as int
    }
}

pub open spec fn dir_main_pos(a: Area, d: Direction) -> int {
    if d == Direction::Horizontal {
        a.x as int
    } else {
        a.y as int
    }
}

pub open spec fn dir_cross_len(a: Area, d: Direction) -> int {
    if d == Direction::Horizontal {
        a.height as int
    } else {
        a.width as int
    }
}

pub open spec fn dir_cross_pos(a: Area, d: Direction) -> int {
    if d == Direction::Horizontal {
        a.y as int
    } else {
        a.x as int
    }
}

/// Extent left after taking the margin off both ends.
pub open spec fn spec_inner(len: int, m: int) -> int {
    if 2 * m <= len {
        len - 2 * m
    } else {
        0
    }
}

/// Start position moved in by the margin, capped at the far end.
pub open spec fn spec_off(pos: int, m: int, len: int) -> int {
    pos + (if m <= len {
        m
    } else {
        len
    })
}

/// Extent available to the items themselves: the inner extent minus
/// one spacing per gap, floored at zero.
pub open spec fn spec_avail(inner: int, n: int, sp: int) -> int {
    if n >= 1 && inner - (n - 1) * sp >= 0 {
        inner - (n - 1) * sp
    } else {
        0
    }
}

/// Spacing only separates items when there is room for any item at
/// all.
pub open spec fn spec_sp_eff(avail: int, sp: int) -> int {
    if avail > 0 {
        sp
    } else {
        0
    }
}

pub open spec fn weight_of(c: Constraint) -> int {
    match c {
        Constraint::Fill(w) => w as int,
        _ => 0,
    }
}

pub open spec fn is_fill(c: Constraint) -> bool {
    c matches Constraint::Fill(_)
}

pub open spec fn sum_weights(cs: Seq<Constraint>) -> int
    decreases cs.len(),
{
    if cs.len() == 0 {
        0
    } else {
        sum_weights(cs.drop_last()) + weight_of(cs.last())
    }
}

/// The size a non-fill constraint resolves to on `avail` cells.
pub open spec fn fixed_of(c: Constraint, avail: int) -> int {
    match c {
        Constraint::Length(l) => l as int,
        Constraint::Percentage(p) => avail * p / 100,
        Constraint::Ratio(a, b) => if b == 0 {
            0
        } else {
            avail * a / (b as int)
        },
        Constraint::Fill(_) => 0,
    }
}

pub open spec fn sum_fixed(cs: Seq<Constraint>, avail: int) -> int
    decreases cs.len(),
{
    if cs.len() == 0 {
        0
    } else {
        sum_fixed(cs.drop_last(), avail) + fixed_of(cs.last(), avail)
    }
}

/// What is left for the fill siblings once the fixed sizes are taken.
pub open spec fn spec_rem(avail: int, f: int) -> int {
    if avail >= f {
        avail - f
    } else {
        0
    }
}

/// The size constraint `i` resolves to before clamping.
pub open spec fn raw_of(cs: Seq<Constraint>, i: int, avail: int, rem: int) -> int {
    if is_fill(cs[i]) {
        let w = sum_weights(cs);
        if w > 0 {
            rem * sum_weights(cs.take(i + 1)) / w - rem * sum_weights(cs.take(i)) / w
        } else {
            0
        }
    } else {
        fixed_of(cs[i], avail)
    }
}

/// Sum of the clamped sizes of the first `k` siblings.
pub open spec fn consumed(cs: Seq<Constraint>, k: int, avail: int, rem: int) -> int
    decreases k, 0int,
{
    if k <= 0 {
        0
    } else {
        consumed(cs, k - 1, avail, rem) + csize(cs, k - 1, avail, rem)
    }
}

/// The size sibling `i` finally receives: its resolved size, clamped
/// so the running sum never exceeds the available extent.
pub open spec fn csize(cs: Seq<Constraint>, i: int, avail: int, rem: int) -> int
    decreases i, 1int,
{
    let c = consumed(cs, i, avail, rem);
    let r = raw_of(cs, i, avail, rem);
    if r <= avail - c {
        r
    } else if avail - c >= 0 {
        avail - c
    } else {
        0
    }
}

pub open spec fn spec_leftover(cs: Seq<Constraint>, avail: int, rem: int) -> int {
    avail - consumed(cs, cs.len() as int, avail, rem)
}

/// Surplus placed before the first item.
pub open spec fn spec_lead(flex: FlexPolicy, left: int, n: int) -> int {
    match flex {
        FlexPolicy::Start => 0,
        FlexPolicy::SpaceBetween => 0,
        FlexPolicy::End => left,
        FlexPolicy::Center => left / 2,
        FlexPolicy::SpaceAround => left / (n + 1),
    }
}

/// Surplus added to the gap before item `i` (`1 <= i < n`).
pub open spec fn spec_extra(flex: FlexPolicy, left: int, n: int, i: int) -> int {
    match flex {
        FlexPolicy::SpaceBetween => if n >= 2 {
            left * i / (n - 1) - left * (i - 1) / (n - 1)
        } else {
            0
        },
        FlexPolicy::SpaceAround => left * (i + 1) / (n + 1) - left * i / (n + 1),
        _ => 0,
    }
}

/// Main-axis start of item `i`, capped at the content edge.
pub open spec fn spec_start(
    cs: Seq<Constraint>,
    i: int,
    avail: int,
    rem: int,
    off: int,
    edge: int,
    sp: int,
    flex: FlexPolicy,
) -> int
    decreases i,
{
    let n = cs.len() as int;
    let left = spec_leftover(cs, avail, rem);
    if i <= 0 {
        vstd::math::min(off + spec_lead(flex, left, n), edge)
    } else {
        vstd::math::min(
            spec_start(cs, i - 1, avail, rem, off, edge, sp, flex) + csize(cs, i - 1, avail, rem)
                + sp + spec_extra(flex, left, n, i),
            edge,
        )
    }
}

/// All of the solver's derived quantities in one place.
pub struct SolverCtx {
    pub avail: int,
    pub rem: int,
    pub off: int,
    pub edge: int,
    pub cross_off: int,
    pub cross_len: int,
    pub sp: int,
}

pub open spec fn solver_ctx(
    parent: Area,
    cs: Seq<Constraint>,
    dir: Direction,
    props: LayoutProperties,
) -> SolverCtx {
    let ml = dir_main_len(parent, dir);
    let mp = dir_main_pos(parent, dir);
    let cl = dir_cross_len(parent, dir);
    let cp = dir_cross_pos(parent, dir);
    let m = props.margin as int;
    let inner = spec_inner(ml, m);
    let off = spec_off(mp, m, ml);
    let avail = spec_avail(inner, cs.len() as int, props.spacing as int);
    SolverCtx {
        avail,
        rem: spec_rem(avail, sum_fixed(cs, avail)),
        off,
        edge: off + inner,
        cross_off: spec_off(cp, m, cl),
        cross_len: spec_inner(cl, m),
        sp: spec_sp_eff(avail, props.spacing as int),
    }
}

/// Area `a` is what the solver, with derived quantities `cx`, assigns
/// to sibling `i`.
pub open spec fn area_matches(
    cx: SolverCtx,
    cs: Seq<Constraint>,
    dir: Direction,
    flex: FlexPolicy,
    a: Area,
    i: int,
) -> bool {
    &&& dir_main_pos(a, dir) == spec_start(cs, i, cx.avail, cx.rem, cx.off, cx.edge, cx.sp, flex)
    &&& dir_main_len(a, dir) == csize(cs, i, cx.avail, cx.rem)
    &&& dir_cross_pos(a, dir) == cx.cross_off
    &&& dir_cross_len(a, dir) == cx.cross_len
}

/// Area `a` is what the solver assigns to sibling `i`.
pub open spec fn partition_area_ok(
    parent: Area,
    cs: Seq<Constraint>,
    dir: Direction,
    props: LayoutProperties,
    a: Area,
    i: int,
) -> bool {
    area_matches(solver_ctx(parent, cs, dir, props), cs, dir, props.flex, a, i)
}

proof fn lemma_take_snoc(cs: Seq<Constraint>, i: int)
    requires
        0 <= i < cs.len(),
    ensures
        cs.take(i + 1).drop_last() =~= cs.take(i),
        cs.take(i + 1).last() == cs[i],
        sum_weights(cs.take(i + 1)) == sum_weights(cs.take(i)) + weight_of(cs[i]),
{
    assert(cs.take(i + 1).drop_last() =~= cs.take(i));
}

proof fn lemma_sum_fixed_snoc(cs: Seq<Constraint>, i: int, avail: int)
    requires
        0 <= i < cs.len(),
    ensures
        sum_fixed(cs.take(i + 1), avail) == sum_fixed(cs.take(i), avail) + fixed_of(cs[i], avail),
{
    assert(cs.take(i + 1).drop_last() =~= cs.take(i));
}

/// Fill weights are non-negative, so prefix weight sums grow.
proof fn lemma_sum_weights_nonneg(cs: Seq<Constraint>)
    ensures
        sum_weights(cs) >= 0,
    decreases cs.len(),
{
    if cs.len() > 0 {
        lemma_sum_weights_nonneg(cs.drop_last());
    }
}

/// Resolved sizes are never negative.
proof fn lemma_raw_nonneg(cs: Seq<Constraint>, i: int, avail: int, rem: int)
    requires
        0 <= i < cs.len(),
        avail >= 0,
        rem >= 0,
    ensures
        raw_of(cs, i, avail, rem) >= 0,
{
    if is_fill(cs[i]) {
        let w = sum_weights(cs);
        if w > 0 {
            lemma_take_snoc(cs, i);
            lemma_sum_weights_nonneg(cs.take(i));
            assert(weight_of(cs[i]) >= 0);
            assert(rem * sum_weights(cs.take(i)) <= rem * sum_weights(cs.take(i + 1))) by (nonlinear_arith)
                requires
                    rem >= 0,
                    sum_weights(cs.take(i)) <= sum_weights(cs.take(i + 1)),
            ;
            vstd::arithmetic::div_mod::lemma_div_is_ordered(
                rem * sum_weights(cs.take(i)),
                rem * sum_weights(cs.take(i + 1)),
                w,
            );
        }
    } else {
        match cs[i] {
            Constraint::Length(l) => {},
            Constraint::Percentage(p) => {
                vstd::arithmetic::div_mod::lemma_div_pos_is_pos(avail * p, 100);
                assert(avail * p >= 0) by (nonlinear_arith)
                    requires
                        avail >= 0,
                        p >= 0,
                ;
            },
            Constraint::Ratio(a, b) => {
                if b != 0 {
                    assert(avail * a >= 0) by (nonlinear_arith)
                        requires
                            avail >= 0,
                            a >= 0,
                    ;
                    vstd::arithmetic::div_mod::lemma_div_pos_is_pos(avail * a, b as int);
                }
            },
            Constraint::Fill(_) => {},
        }
    }
}

/// The running sum of clamped sizes stays within the available extent.
proof fn lemma_consumed_bounds(cs: Seq<Constraint>, k: int, avail: int, rem: int)
    requires
        avail >= 0,
        rem >= 0,
        k <= cs.len(),
    ensures
        0 <= consumed(cs, k, avail, rem) <= avail,
        forall|j: int|
            0 <= j < k ==> #[trigger] csize(cs, j, avail, rem) >= 0,
    decreases k,
{
    if k > 0 {
        lemma_consumed_bounds(cs, k - 1, avail, rem);
        lemma_raw_nonneg(cs, k - 1, avail, rem);
        let c = consumed(cs, k - 1, avail, rem);
        let r = raw_of(cs, k - 1, avail, rem);
        assert(consumed(cs, k, avail, rem) == c + csize(cs, k - 1, avail, rem));
        if r <= avail - c {
            assert(csize(cs, k - 1, avail, rem) == r);
        } else {
            assert(csize(cs, k - 1, avail, rem) == avail - c);
        }
    }
}

/// Products of two values below `2^64` fit in a `u128`.
proof fn lemma_mul_fits(a: int, b: int)
    requires
        0 <= a < 0x1_0000_0000_0000_0000,
        0 <= b <= 0x1_0000_0000_0000_0000,
    ensures
        a * b < u128::MAX,
{
    assert(a * b <= (0x1_0000_0000_0000_0000 - 1) * 0x1_0000_0000_0000_0000)
        by (nonlinear_arith)
        requires
            0 <= a < 0x1_0000_0000_0000_0000,
            0 <= b <= 0x1_0000_0000_0000_0000,
    ;
}

proof fn lemma_fixed_nonneg(c: Constraint, avail: int)
    requires
        avail >= 0,
    ensures
        fixed_of(c, avail) >= 0,
{
    match c {
        Constraint::Percentage(p) => {
            assert(avail * p >= 0) by (nonlinear_arith)
                requires
                    avail >= 0,
                    p >= 0,
            ;
            vstd::arithmetic::div_mod::lemma_div_pos_is_pos(avail * p, 100);
        },
        Constraint::Ratio(a, b) => {
            if b != 0 {
                assert(avail * a >= 0) by (nonlinear_arith)
                    requires
                        avail >= 0,
                        a >= 0,
                ;
                vstd::arithmetic::div_mod::lemma_div_pos_is_pos(avail * a, b as int);
            }
        },
        _ => {},
    }
}

proof fn lemma_sum_fixed_nonneg(cs: Seq<Constraint>, avail: int)
    requires
        avail >= 0,
    ensures
        sum_fixed(cs, avail) >= 0,
    decreases cs.len(),
{
    if cs.len() > 0 {
        lemma_sum_fixed_nonneg(cs.drop_last(), avail);
        lemma_fixed_nonneg(cs.last(), avail);
    }
}

/// Partitions `parent` among `cs.len()` siblings along `dir`: one area
/// per constraint, in order, each sized and placed as the conventions
/// above prescribe.
#[verifier::rlimit(100)]
pub fn partition(parent: Area, cs: &Vec<Constraint>, dir: Direction, props: LayoutProperties) -> (r:
    Vec<Area>)
    requires
        parent.x + parent.width <= u16::MAX,
        parent.y + parent.height <= u16::MAX,
    ensures
        r@.len() == cs@.len(),
        forall|i: int|
            0 <= i < cs@.len() ==> partition_area_ok(parent, cs@, dir, props, r@[i], i),
{
    let n = cs.len();
    if n == 0 {
        return Vec::new();
    }
    let (main_len, main_pos, cross_len, cross_pos): (u16, u16, u16, u16) = match dir {
        Direction::Horizontal => (parent.width, parent.x, parent.height, parent.y),
        Direction::Vertical => (parent.height, parent.y, parent.width, parent.x),
    };
    let m = props.margin;
    let inner: u16 = if (m as u32) * 2 <= main_len as u32 {
        main_len - 2 * m
    } else {
        0
    };
    let off: u16 = main_pos + (if m <= main_len {
        m
    } else {
        main_len
    });
    let edge: u16 = off + inner;
    let cross_inner: u16 = if (m as u32) * 2 <= cross_len as u32 {
        cross_len - 2 * m
    } else {
        0
    };
    let cross_off: u16 = cross_pos + (if m <= cross_len {
        m
    } else {
        cross_len
    });
    let ghost cx = solver_ctx(parent, cs@, dir, props);
    assert(cx.off == off as int && cx.edge == edge as int && cx.cross_off == cross_off as int
        && cx.cross_len == cross_inner as int);

    proof {
        lemma_mul_fits((n - 1) as int, props.spacing as int);
    }
    let spacing_total: u128 = ((n - 1) as u128) * (props.spacing as u128);
    let avail: u64 = if (inner as u128) >= spacing_total {
        inner as u64 - (spacing_total as u64)
    } else {
        0
    };
    assert(avail as int == cx.avail);
    let sp_eff: u64 = if avail > 0 {
        props.spacing as u64
    } else {
        0
    };
    assert(sp_eff as int == cx.sp);

    // First pass: the sum of the fixed sizes (clamped once past the
    // available extent, where its exact value no longer matters) and
    // the total fill weight.
    let mut fsum: u64 = 0;
    let mut wsum: u128 = 0;
    let mut i: usize = 0;
    proof {
        assert(cs@.take(0) =~= Seq::<Constraint>::empty());
    }
    while i < n
        invariant
            0 <= i <= n == cs@.len(),
            avail <= 65535,
            fsum as int == vstd::math::min(sum_fixed(cs@.take(i as int), avail as int), 65536),
            wsum == sum_weights(cs@.take(i as int)),
            wsum <= (i as u128) * 65535,
        decreases n - i,
    {
        proof {
            lemma_sum_fixed_snoc(cs@, i as int, avail as int);
            lemma_take_snoc(cs@, i as int);
            lemma_sum_fixed_nonneg(cs@.take(i as int), avail as int);
            lemma_fixed_nonneg(cs@[i as int], avail as int);
            assert((i as u128 + 1) * 65535 <= 0xFFFF_FFFF_FFFF_FFFFu128 * 65535)
                by (nonlinear_arith)
                requires
                    i as u128 + 1 <= 0xFFFF_FFFF_FFFF_FFFFu128,
            ;
        }
        let term: u64 = match *(&cs[i]) {
            Constraint::Length(l) => l as u64,
            Constraint::Percentage(p) => {
                proof {
                    lemma_mul_fits(avail as int, p as int);
                }
                let t: u128 = (avail as u128) * (p as u128) / 100;
                if t > 65536 {
                    65536
                } else {
                    t as u64
                }
            },
            Constraint::Ratio(a, b) => {
                if b == 0 {
                    0
                } else {
                    proof {
                        lemma_mul_fits(avail as int, a as int);
                    }
                    let t: u128 = (avail as u128) * (a as u128) / (b as u128);
                    if t > 65536 {
                        65536
                    } else {
                        t as u64
                    }
                }
            },
            Constraint::Fill(w) => {
                wsum = wsum + (w as u128);
                0
            },
        };
        assert(term as int == vstd::math::min(fixed_of(cs@[i as int], avail as int), 65536));
        fsum = fsum + term;
        if fsum > 65536 {
            fsum = 65536;
        }
        i += 1;
    }
    proof {
        assert(cs@.take(n as int) =~= cs@);
    }
    let rem: u64 = if (fsum as u64) <= avail {
        avail - fsum
    } else {
        0
    };
    proof {
        lemma_sum_fixed_nonneg(cs@, avail as int);
        assert(rem as int == cx.rem);
    }

    // Second pass: resolve each sibling's size, clamping the running
    // sum at the available extent.
    let mut sizes: Vec<u16> = Vec::new();
    let mut consumed_ex: u64 = 0;
    let mut pw: u128 = 0;
    let mut i: usize = 0;
    proof {
        assert(cs@.take(0) =~= Seq::<Constraint>::empty());
    }
    while i < n
        invariant
            0 <= i <= n == cs@.len(),
            avail <= 65535,
            avail as int == cx.avail,
            rem as int == cx.rem,
            rem <= avail,
            wsum == sum_weights(cs@),
            wsum <= (n as u128) * 65535,
            sizes@.len() == i,
            forall|j: int|
                0 <= j < i ==> sizes@[j] as int == csize(cs@, j, avail as int, rem as int),
            consumed_ex as int == consumed(cs@, i as int, avail as int, rem as int),
            consumed_ex <= avail,
            pw == sum_weights(cs@.take(i as int)),
            pw <= (i as u128) * 65535,
        decreases n - i,
    {
        proof {
            lemma_take_snoc(cs@, i as int);
            lemma_sum_weights_nonneg(cs@.take(i as int));
            assert((i as u128 + 1) * 65535 <= 0xFFFF_FFFF_FFFF_FFFFu128 * 65535)
                by (nonlinear_arith)
                requires
                    i as u128 + 1 <= 0xFFFF_FFFF_FFFF_FFFFu128,
            ;
        }
        let raw: u128 = match *(&cs[i]) {
            Constraint::Length(l) => l as u128,
            Constraint::Percentage(p) => {
                proof {
                    lemma_mul_fits(avail as int, p as int);
                }
                (avail as u128) * (p as u128) / 100
            },
            Constraint::Ratio(a, b) => {
                if b == 0 {
                    0
                } else {
                    proof {
                        lemma_mul_fits(avail as int, a as int);
                    }
                    (avail as u128) * (a as u128) / (b as u128)
                }
            },
            Constraint::Fill(w) => {
                if wsum > 0 {
                    proof {
                        assert(pw + (w as u128) == sum_weights(cs@.take(i as int + 1)));
                        assert(pw + (w as u128) <= wsum) by {
                            lemma_weights_prefix_bound(cs@, i as int + 1);
                        }
                        assert((rem as u128) * (pw + (w as u128)) <= 65535u128 * ((n as u128)
                            * 65535)) by (nonlinear_arith)
                            requires
                                rem as u128 <= 65535,
                                pw + (w as u128) <= (n as u128) * 65535,
                        ;
                        assert(65535u128 * ((n as u128) * 65535) < u128::MAX)
                            by (nonlinear_arith)
                            requires
                                n as u128 <= 0xFFFF_FFFF_FFFF_FFFFu128,
                        ;
                        assert((rem as u128) * pw <= (rem as u128) * (pw + (w as u128)))
                            by (nonlinear_arith)
                        ;
                        vstd::arithmetic::div_mod::lemma_div_is_ordered(
                            (rem as u128 * pw) as int,
                            (rem as u128 * (pw + w as u128)) as int,
                            wsum as int,
                        );
                    }
                    let hi: u128 = (rem as u128) * (pw + (w as u128)) / wsum;
                    let lo: u128 = (rem as u128) * pw / wsum;
                    let f: u128 = hi - lo;
                    pw = pw + (w as u128);
                    f
                } else {
                    pw = pw + (w as u128);
                    0
                }
            },
        };
        proof {
            if !is_fill(cs@[i as int]) {
                assert(raw as int == fixed_of(cs@[i as int], avail as int));
            }
            assert(raw as int == raw_of(cs@, i as int, avail as int, rem as int));
            lemma_consumed_bounds(cs@, i as int, avail as int, rem as int);
        }
        let room: u64 = avail - consumed_ex;
        let size_u: u64 = if raw <= room as u128 {
            raw as u64
        } else {
            room
        };
        assert(size_u as int == csize(cs@, i as int, avail as int, rem as int));
        sizes.push(size_u as u16);
        consumed_ex = consumed_ex + size_u;
        i += 1;
    }
    proof {
        assert(cs@.take(n as int) =~= cs@);
    }
    let left: u64 = avail - consumed_ex;
    let ghost gleft = spec_leftover(cs@, avail as int, rem as int);
    assert(left as int == gleft);

    let lead: u64 = match props.flex {
        FlexPolicy::Start => 0,
        FlexPolicy::SpaceBetween => 0,
        FlexPolicy::End => left,
        FlexPolicy::Center => left / 2,
        FlexPolicy::SpaceAround => ((left as u128) / ((n as u128) + 1)) as u64,
    };
    proof {
        if props.flex == FlexPolicy::SpaceAround {
            vstd::arithmetic::div_mod::lemma_div_pos_is_pos(left as int, n as int + 1);
            vstd::arithmetic::div_mod::lemma_div_is_ordered_by_denominator(
                left as int,
                1,
                n as int + 1,
            );
        }
        assert(lead as int == spec_lead(props.flex, gleft, n as int));
        assert(lead <= left);
    }

    // Third pass: place each sibling, surplus distributed per the flex
    // policy, every position capped at the content edge.
    let mut out: Vec<Area> = Vec::new();
    let mut start_cur: u64 = if (off as u64) + lead <= edge as u64 {
        (off as u64) + lead
    } else {
        edge as u64
    };
    let mut i: usize = 0;
    assert(start_cur as int == spec_start(
        cs@,
        0,
        avail as int,
        rem as int,
        off as int,
        edge as int,
        sp_eff as int,
        props.flex,
    ));
    while i < n
        invariant
            0 <= i <= n == cs@.len(),
            avail <= 65535,
            avail as int == cx.avail,
            cx == solver_ctx(parent, cs@, dir, props),
            rem <= avail,
            rem as int == cx.rem,
            left as int == gleft,
            gleft == spec_leftover(cs@, avail as int, rem as int),
            left <= avail,
            sp_eff as int == cx.sp,
            sp_eff <= 65535,
            off as int == cx.off,
            edge as int == cx.edge,
            edge <= u16::MAX,
            cross_off as int == cx.cross_off,
            cross_inner as int == cx.cross_len,
            sizes@.len() == n,
            forall|j: int|
                0 <= j < n ==> sizes@[j] as int == csize(cs@, j, avail as int, rem as int),
            out@.len() == i,
            forall|j: int|
                0 <= j < i ==> partition_area_ok(parent, cs@, dir, props, out@[j], j),
            start_cur <= edge as u64,
            start_cur as int == spec_start(
                cs@,
                i as int,
                avail as int,
                rem as int,
                off as int,
                edge as int,
                sp_eff as int,
                props.flex,
            ),
        decreases n - i,
    {
        let sz = sizes[i];
        let a = match dir {
            Direction::Horizontal => Area {
                x: start_cur as u16,
                y: cross_off,
                width: sz,
                height: cross_inner,
            },
            Direction::Vertical => Area {
                x: cross_off,
                y: start_cur as u16,
                width: cross_inner,
                height: sz,
            },
        };
        assert(cx == solver_ctx(parent, cs@, dir, props));
        assert(area_matches(cx, cs@, dir, props.flex, a, i as int));
        assert(partition_area_ok(parent, cs@, dir, props, a, i as int));
        out.push(a);
        let extra: u64 = match props.flex {
            FlexPolicy::SpaceBetween => {
                if n >= 2 {
                    proof {
                        lemma_gap_diff(left as int, n as int - 1, i as int + 1);
                    }
                    proof {
                        lemma_mul_fits(left as int, i as int);
                        lemma_mul_fits(left as int, i as int + 1);
                    }
                    let hi: u128 = (left as u128) * ((i as u128) + 1) / ((n as u128) - 1);
                    let lo: u128 = (left as u128) * (i as u128) / ((n as u128) - 1);
                    (hi - lo) as u64
                } else {
                    0
                }
            },
            FlexPolicy::SpaceAround => {
                proof {
                    lemma_gap_diff(left as int, n as int + 1, i as int + 2);
                }
                proof {
                    lemma_mul_fits(left as int, i as int + 1);
                    lemma_mul_fits(left as int, i as int + 2);
                }
                let hi: u128 = (left as u128) * ((i as u128) + 2) / ((n as u128) + 1);
                let lo: u128 = (left as u128) * ((i as u128) + 1) / ((n as u128) + 1);
                (hi - lo) as u64
            },
            _ => 0,
        };
        proof {
            assert(extra as int == spec_extra(props.flex, gleft, n as int, i as int + 1));
            lemma_consumed_bounds(cs@, i as int + 1, avail as int, rem as int);
        }
        let next_raw: u64 = start_cur + (sz as u64) + sp_eff + extra;
        start_cur = if next_raw <= edge as u64 {
            next_raw
        } else {
            edge as u64
        };
        proof {
            assert(spec_start(
                cs@,
                i as int + 1,
                avail as int,
                rem as int,
                off as int,
                edge as int,
                sp_eff as int,
                props.flex,
            ) == vstd::math::min(
                spec_start(
                    cs@,
                    i as int,
                    avail as int,
                    rem as int,
                    off as int,
                    edge as int,
                    sp_eff as int,
                    props.flex,
                ) + csize(cs@, i as int, avail as int, rem as int) + sp_eff as int + spec_extra(
                    props.flex,
                    spec_leftover(cs@, avail as int, rem as int),
                    n as int,
                    i as int + 1,
                ),
                edge as int,
            ));
            assert(start_cur as int == spec_start(
                cs@,
                i as int + 1,
                avail as int,
                rem as int,
                off as int,
                edge as int,
                sp_eff as int,
                props.flex,
            ));
        }
        i += 1;
    }
    out
}

/// The cumulative-gap difference `l*i/d - l*(i-1)/d` is between zero
/// and `l`.
proof fn lemma_gap_diff(l: int, d: int, i: int)
    requires
        l >= 0,
        d >= 1,
        i >= 1,
    ensures
        0 <= l * i / d - l * (i - 1) / d <= l,
{
    assert(l * (i - 1) <= l * i) by (nonlinear_arith)
        requires
            l >= 0,
            i >= 1,
    ;
    vstd::arithmetic::div_mod::lemma_div_is_ordered(l * (i - 1), l * i, d);
    assert(l * i == l * (i - 1) + l) by (nonlinear_arith);
    assert(l * (i - 1) >= 0) by (nonlinear_arith)
        requires
            l >= 0,
            i >= 1,
    ;
    assert(l * i / d <= l * (i - 1) / d + l) by {
        lemma_div_plus_bound(l * (i - 1), l, d);
    }
}

/// `(a + b) / d <= a / d + b` for non-negative `a`, `b` and positive
/// `d`.
proof fn lemma_div_plus_bound(a: int, b: int, d: int)
    requires
        a >= 0,
        b >= 0,
        d >= 1,
    ensures
        (a + b) / d <= a / d + b,
{
    vstd::arithmetic::div_mod::lemma_fundamental_div_mod(a, d);
    vstd::arithmetic::div_mod::lemma_fundamental_div_mod(a + b, d);
    vstd::arithmetic::div_mod::lemma_mod_bound(a, d);
    vstd::arithmetic::div_mod::lemma_mod_bound(a + b, d);
    let qa = a / d;
    let qb = (a + b) / d;
    assert(d * qb <= a + b);
    assert(a < d * (qa + 1)) by (nonlinear_arith)
        requires
            a == d * qa + a % d,
            a % d < d,
    ;
    assert(d * qb <= d * qa + d * b) by (nonlinear_arith)
        requires
            d * qb <= a + b,
            a < d * (qa + 1),
            d >= 1,
            b >= 0,
    ;
    assert(qb <= qa + b) by (nonlinear_arith)
        requires
            d * qb <= d * qa + d * b,
            d >= 1,
    ;
}

/// Sum of the sizes granted to the fill siblings among the first `k`.
pub open spec fn sum_fill_sizes(cs: Seq<Constraint>, k: int, avail: int, rem: int) -> int
    decreases k,
{
    if k <= 0 {
        0
    } else {
        sum_fill_sizes(cs, k - 1, avail, rem) + (if is_fill(cs[k - 1]) {
            csize(cs, k - 1, avail, rem)
        } else {
            0
        })
    }
}

/// `(a + b) / d` differs from `a / d + b / d` by at most one.
proof fn lemma_div_sum_bounds(a: int, b: int, d: int)
    requires
        a >= 0,
        b >= 0,
        d >= 1,
    ensures
        a / d + b / d <= (a + b) / d <= a / d + b / d + 1,
{
    vstd::arithmetic::div_mod::lemma_fundamental_div_mod(a, d);
    vstd::arithmetic::div_mod::lemma_fundamental_div_mod(b, d);
    vstd::arithmetic::div_mod::lemma_mod_bound(a, d);
    vstd::arithmetic::div_mod::lemma_mod_bound(b, d);
    let qa = a / d;
    let ra = a % d;
    let qb = b / d;
    let rb = b % d;
    if ra + rb < d {
        assert(a + b == (qa + qb) * d + (ra + rb)) by (nonlinear_arith)
            requires
                a == d * qa + ra,
                b == d * qb + rb,
        ;
        vstd::arithmetic::div_mod::lemma_fundamental_div_mod_converse_div(
            a + b,
            d,
            qa + qb,
            ra + rb,
        );
    } else {
        assert(a + b == (qa + qb + 1) * d + (ra + rb - d)) by (nonlinear_arith)
            requires
                a == d * qa + ra,
                b == d * qb + rb,
        ;
        vstd::arithmetic::div_mod::lemma_fundamental_div_mod_converse_div(
            a + b,
            d,
            qa + qb + 1,
            ra + rb - d,
        );
    }
}

/// Prefix sums of the fixed sizes never exceed the total.
proof fn lemma_fixed_prefix_bound(cs: Seq<Constraint>, k: int, avail: int)
    requires
        0 <= k <= cs.len(),
        avail >= 0,
    ensures
        sum_fixed(cs.take(k), avail) <= sum_fixed(cs, avail),
    decreases cs.len() - k,
{
    if k == cs.len() {
        assert(cs.take(k) =~= cs);
    } else {
        lemma_fixed_prefix_bound(cs, k + 1, avail);
        lemma_sum_fixed_snoc(cs, k, avail);
        lemma_fixed_nonneg(cs[k], avail);
    }
}

/// A scaled prefix-weight share never exceeds the remainder itself.
proof fn lemma_share_le_rem(rem: int, s: int, w: int)
    requires
        rem >= 0,
        0 <= s <= w,
        w >= 1,
    ensures
        0 <= rem * s / w <= rem,
{
    assert(rem * s >= 0) by (nonlinear_arith)
        requires
            rem >= 0,
            s >= 0,
    ;
    vstd::arithmetic::div_mod::lemma_div_pos_is_pos(rem * s, w);
    assert(rem * s <= w * rem) by (nonlinear_arith)
        requires
            rem >= 0,
            s <= w,
    ;
    vstd::arithmetic::div_mod::lemma_div_is_ordered(rem * s, w * rem, w);
    vstd::arithmetic::div_mod::lemma_div_multiples_vanish(rem, w);
}

/// When the fixed sizes fit in the available extent and at least one
/// fill weight is present, no clamping occurs: every sibling receives
/// its resolved size, the running total follows the cumulative-share
/// formula, and the fill siblings together hold exactly the scaled
/// prefix share.
proof fn lemma_no_clamp(cs: Seq<Constraint>, k: int, avail: int)
    requires
        avail >= 0,
        0 <= k <= cs.len(),
        sum_fixed(cs, avail) <= avail,
        sum_weights(cs) >= 1,
    ensures
        consumed(cs, k, avail, spec_rem(avail, sum_fixed(cs, avail))) == sum_fixed(
            cs.take(k),
            avail,
        ) + spec_rem(avail, sum_fixed(cs, avail)) * sum_weights(cs.take(k)) / sum_weights(cs),
        forall|j: int|
            0 <= j < k ==> #[trigger] csize(cs, j, avail, spec_rem(avail, sum_fixed(cs, avail)))
                == raw_of(cs, j, avail, spec_rem(avail, sum_fixed(cs, avail))),
        sum_fill_sizes(cs, k, avail, spec_rem(avail, sum_fixed(cs, avail))) == spec_rem(
            avail,
            sum_fixed(cs, avail),
        ) * sum_weights(cs.take(k)) / sum_weights(cs),
    decreases k,
{
    let f = sum_fixed(cs, avail);
    let rem = spec_rem(avail, f);
    let w = sum_weights(cs);
    if k == 0 {
        assert(cs.take(0) =~= Seq::<Constraint>::empty());
        assert(rem * 0 == 0) by (nonlinear_arith);
        vstd::arithmetic::div_mod::lemma_basic_div(0, w);
    } else {
        lemma_no_clamp(cs, k - 1, avail);
        lemma_take_snoc(cs, k - 1);
        lemma_sum_fixed_snoc(cs, k - 1, avail);
        lemma_fixed_prefix_bound(cs, k, avail);
        lemma_weights_prefix_bound(cs, k);
        lemma_sum_weights_nonneg(cs.take(k - 1));
        lemma_sum_weights_nonneg(cs.take(k));
        let fk = sum_fixed(cs.take(k - 1), avail);
        let sk = sum_weights(cs.take(k - 1));
        let sk1 = sum_weights(cs.take(k));
        lemma_share_le_rem(rem, sk, w);
        lemma_share_le_rem(rem, sk1, w);
        let c = consumed(cs, k - 1, avail, rem);
        let r = raw_of(cs, k - 1, avail, rem);
        if is_fill(cs[k - 1]) {
            assert(fixed_of(cs[k - 1], avail) == 0);
            assert(r == rem * sk1 / w - rem * sk / w);
            // raw fits below the available extent
            assert(c + r == fk + rem * sk1 / w);
            assert(fk <= f) by {
                lemma_fixed_prefix_bound(cs, k - 1, avail);
            }
            assert(c + r <= avail);
            assert(csize(cs, k - 1, avail, rem) == r) by {
                lemma_raw_nonneg(cs, k - 1, avail, rem);
            }
        } else {
            assert(weight_of(cs[k - 1]) == 0);
            assert(sk1 == sk);
            assert(r == fixed_of(cs[k - 1], avail));
            assert(c + r == sum_fixed(cs.take(k), avail) + rem * sk / w);
            assert(c + r <= avail);
            assert(csize(cs, k - 1, avail, rem) == r) by {
                lemma_raw_nonneg(cs, k - 1, avail, rem);
            }
        }
    }
}

/// LAW: for a sibling list whose fixed (length, percentage, ratio)
/// sizes sum to `F` with `F <= avail` and whose fill weights sum to at
/// least one, the solver grants the fill siblings exactly the
/// `avail - F` remaining cells, and two fill siblings of equal weight
/// receive sizes that differ by at most one cell.
pub proof fn lemma_fill_allocation(cs: Seq<Constraint>, avail: int)
    requires
        avail >= 0,
        sum_fixed(cs, avail) <= avail,
        sum_weights(cs) >= 1,
    ensures
        sum_fill_sizes(cs, cs.len() as int, avail, spec_rem(avail, sum_fixed(cs, avail))) == avail
            - sum_fixed(cs, avail),
        forall|i: int, j: int|
            0 <= i < cs.len() && 0 <= j < cs.len() && is_fill(cs[i]) && is_fill(cs[j])
                && weight_of(cs[i]) == weight_of(cs[j]) ==> #[trigger] csize(
                cs,
                i,
                avail,
                spec_rem(avail, sum_fixed(cs, avail)),
            ) <= #[trigger] csize(cs, j, avail, spec_rem(avail, sum_fixed(cs, avail))) + 1,
{
    let f = sum_fixed(cs, avail);
    let rem = spec_rem(avail, f);
    let w = sum_weights(cs);
    let n = cs.len() as int;
    lemma_no_clamp(cs, n, avail);
    assert(cs.take(n) =~= cs);
    vstd::arithmetic::div_mod::lemma_div_multiples_vanish(rem, w);
    assert(rem * w == w * rem) by (nonlinear_arith);
    assert(sum_fill_sizes(cs, n, avail, rem) == rem);

    assert forall|i: int|
        0 <= i < n && is_fill(cs[i]) implies rem * weight_of(cs[i]) / w <= #[trigger] csize(
        cs,
        i,
        avail,
        rem,
    ) <= rem * weight_of(cs[i]) / w + 1 by {
        lemma_take_snoc(cs, i);
        lemma_sum_weights_nonneg(cs.take(i));
        let si = sum_weights(cs.take(i));
        let wi = weight_of(cs[i]);
        assert(csize(cs, i, avail, rem) == raw_of(cs, i, avail, rem));
        assert(raw_of(cs, i, avail, rem) == rem * (si + wi) / w - rem * si / w);
        let a = rem * si;
        let b = rem * wi;
        assert(rem * (si + wi) == a + b) by (nonlinear_arith)
            requires
                a == rem * si,
                b == rem * wi,
        ;
        assert(a >= 0 && b >= 0) by (nonlinear_arith)
            requires
                a == rem * si,
                b == rem * wi,
                rem >= 0,
                si >= 0,
                wi >= 0,
        ;
        lemma_div_sum_bounds(a, b, w);
    }
}

/// The area the solver assigns to sibling `i`, as a value: the spec
/// counterpart of one entry of `partition`'s output.
pub open spec fn child_area(
    parent: Area,
    cs: Seq<Constraint>,
    dir: Direction,
    props: LayoutProperties,
    i: int,
) -> Area {
    let cx = solver_ctx(parent, cs, dir, props);
    let start = spec_start(cs, i, cx.avail, cx.rem, cx.off, cx.edge, cx.sp, props.flex);
    let size = csize(cs, i, cx.avail, cx.rem);
    if dir == Direction::Horizontal {
        Area {
            x: start as u16,
            y: cx.cross_off as u16,
            width: size as u16,
            height: cx.cross_len as u16,
        }
    } else {
        Area {
            x: cx.cross_off as u16,
            y: start as u16,
            width: cx.cross_len as u16,
            height: size as u16,
        }
    }
}

/// Moving in by the margin never leaves the parent's extent.
proof fn lemma_off_inner_bound(p: int, m: int, l: int)
    requires
        p >= 0,
        m >= 0,
        l >= 0,
    ensures
        p <= spec_off(p, m, l),
        spec_off(p, m, l) + spec_inner(l, m) <= p + l,
        0 <= spec_inner(l, m) <= l,
{
}

/// An area satisfying the solver's per-sibling formulas is exactly
/// `child_area`, and it fits the coordinate space whenever the parent
/// does.
pub proof fn lemma_partition_gives_child_area(
    parent: Area,
    cs: Seq<Constraint>,
    dir: Direction,
    props: LayoutProperties,
    a: Area,
    i: int,
)
    requires
        partition_area_ok(parent, cs, dir, props, a, i),
        0 <= i < cs.len(),
        parent.x + parent.width <= u16::MAX,
        parent.y + parent.height <= u16::MAX,
    ensures
        a == child_area(parent, cs, dir, props, i),
        a.x + a.width <= u16::MAX,
        a.y + a.height <= u16::MAX,
{
    let cx = solver_ctx(parent, cs, dir, props);
    let start = spec_start(cs, i, cx.avail, cx.rem, cx.off, cx.edge, cx.sp, props.flex);
    let size = csize(cs, i, cx.avail, cx.rem);
    lemma_partition_within(parent, cs, dir, props, i);
    lemma_sum_fixed_nonneg(cs, cx.avail);
    lemma_consumed_bounds(cs, i, cx.avail, cx.rem);
    lemma_consumed_bounds(cs, i + 1, cx.avail, cx.rem);
    assert(consumed(cs, i, cx.avail, cx.rem) + size == consumed(cs, i + 1, cx.avail, cx.rem));
    lemma_off_inner_bound(
        dir_main_pos(parent, dir),
        props.margin as int,
        dir_main_len(parent, dir),
    );
    lemma_off_inner_bound(
        dir_cross_pos(parent, dir),
        props.margin as int,
        dir_cross_len(parent, dir),
    );
    assert(0 <= start <= u16::MAX);
    assert(0 <= size <= u16::MAX);
    assert(0 <= cx.cross_off <= u16::MAX);
    assert(0 <= cx.cross_len <= u16::MAX);
}

/// Surplus added to the gaps before items `1..=i`.
spec fn gap_sum(flex: FlexPolicy, left: int, n: int, i: int) -> int
    decreases i,
{
    if i <= 0 {
        0
    } else {
        gap_sum(flex, left, n, i - 1) + spec_extra(flex, left, n, i)
    }
}

proof fn lemma_extra_nonneg(flex: FlexPolicy, l: int, n: int, i: int)
    requires
        l >= 0,
        1 <= i <= n - 1,
    ensures
        0 <= spec_extra(flex, l, n, i) <= l,
{
    match flex {
        FlexPolicy::SpaceBetween => {
            if n >= 2 {
                lemma_gap_diff(l, n - 1, i);
            }
        },
        FlexPolicy::SpaceAround => {
            lemma_gap_diff(l, n + 1, i + 1);
        },
        _ => {},
    }
}

proof fn lemma_lead_bound(flex: FlexPolicy, l: int, n: int)
    requires
        l >= 0,
        n >= 1,
    ensures
        0 <= spec_lead(flex, l, n) <= l,
{
    match flex {
        FlexPolicy::Center => {
            vstd::arithmetic::div_mod::lemma_div_pos_is_pos(l, 2);
            assert(l <= 2 * l);
            vstd::arithmetic::div_mod::lemma_div_is_ordered(l, 2 * l, 2);
            vstd::arithmetic::div_mod::lemma_div_multiples_vanish(l, 2);
        },
        FlexPolicy::SpaceAround => {
            vstd::arithmetic::div_mod::lemma_div_pos_is_pos(l, n + 1);
            assert(l <= (n + 1) * l) by (nonlinear_arith)
                requires
                    l >= 0,
                    n >= 1,
            ;
            vstd::arithmetic::div_mod::lemma_div_is_ordered(l, (n + 1) * l, n + 1);
            vstd::arithmetic::div_mod::lemma_div_multiples_vanish(l, n + 1);
        },
        _ => {},
    }
}

/// The closed form of the leading surplus plus the first `i` gap
/// surpluses: the cumulative-share formula telescopes.
proof fn lemma_gap_closed(flex: FlexPolicy, l: int, n: int, i: int)
    requires
        l >= 0,
        n >= 1,
        0 <= i <= n - 1,
    ensures
        spec_lead(flex, l, n) + gap_sum(flex, l, n, i) == (match flex {
            FlexPolicy::Start => 0,
            FlexPolicy::End => l,
            FlexPolicy::Center => l / 2,
            FlexPolicy::SpaceBetween => if n >= 2 {
                l * i / (n - 1)
            } else {
                0
            },
            FlexPolicy::SpaceAround => l * (i + 1) / (n + 1),
        }),
    decreases i,
{
    if i == 0 {
        match flex {
            FlexPolicy::SpaceBetween => {
                if n >= 2 {
                    assert(l * 0 == 0) by (nonlinear_arith);
                    vstd::arithmetic::div_mod::lemma_basic_div(0, n - 1);
                }
            },
            FlexPolicy::SpaceAround => {
                assert(l * 1 == l) by (nonlinear_arith);
            },
            _ => {},
        }
    } else {
        lemma_gap_closed(flex, l, n, i - 1);
    }
}

/// The leading surplus plus any prefix of the gap surpluses never
/// exceeds the whole surplus.
proof fn lemma_gap_bound(flex: FlexPolicy, l: int, n: int, i: int)
    requires
        l >= 0,
        n >= 1,
        0 <= i <= n - 1,
    ensures
        0 <= spec_lead(flex, l, n) + gap_sum(flex, l, n, i) <= l,
{
    lemma_gap_closed(flex, l, n, i);
    lemma_lead_bound(flex, l, n);
    match flex {
        FlexPolicy::SpaceBetween => {
            if n >= 2 {
                assert(0 <= l * i) by (nonlinear_arith)
                    requires
                        l >= 0,
                        i >= 0,
                ;
                vstd::arithmetic::div_mod::lemma_div_pos_is_pos(l * i, n - 1);
                assert(l * i <= (n - 1) * l) by (nonlinear_arith)
                    requires
                        l >= 0,
                        i <= n - 1,
                ;
                vstd::arithmetic::div_mod::lemma_div_is_ordered(l * i, (n - 1) * l, n - 1);
                vstd::arithmetic::div_mod::lemma_div_multiples_vanish(l, n - 1);
            }
        },
        FlexPolicy::SpaceAround => {
            assert(0 <= l * (i + 1)) by (nonlinear_arith)
                requires
                    l >= 0,
                    i >= 0,
            ;
            vstd::arithmetic::div_mod::lemma_div_pos_is_pos(l * (i + 1), n + 1);
            assert(l * (i + 1) <= (n + 1) * l) by (nonlinear_arith)
                requires
                    l >= 0,
                    i + 1 <= n + 1,
            ;
            vstd::arithmetic::div_mod::lemma_div_is_ordered(l * (i + 1), (n + 1) * l, n + 1);
            vstd::arithmetic::div_mod::lemma_div_multiples_vanish(l, n + 1);
        },
        _ => {},
    }
}

/// The running total of granted sizes grows with the prefix.
proof fn lemma_consumed_mono(cs: Seq<Constraint>, a: int, b: int, avail: int, rem: int)
    requires
        avail >= 0,
        rem >= 0,
        0 <= a <= b <= cs.len(),
    ensures
        consumed(cs, a, avail, rem) <= consumed(cs, b, avail, rem),
    decreases b - a,
{
    if a < b {
        lemma_consumed_mono(cs, a, b - 1, avail, rem);
        lemma_consumed_bounds(cs, b, avail, rem);
        assert(csize(cs, b - 1, avail, rem) >= 0);
    }
}

/// The start of item `i` lies at or after the content offset and at
/// or below the cumulative-share bound.
proof fn lemma_start_bound(
    cs: Seq<Constraint>,
    i: int,
    avail: int,
    rem: int,
    off: int,
    edge: int,
    sp: int,
    flex: FlexPolicy,
)
    requires
        avail >= 0,
        rem >= 0,
        sp >= 0,
        off <= edge,
        0 <= i < cs.len(),
    ensures
        off <= spec_start(cs, i, avail, rem, off, edge, sp, flex),
        spec_start(cs, i, avail, rem, off, edge, sp, flex) <= off + spec_lead(
            flex,
            spec_leftover(cs, avail, rem),
            cs.len() as int,
        ) + consumed(cs, i, avail, rem) + i * sp + gap_sum(
            flex,
            spec_leftover(cs, avail, rem),
            cs.len() as int,
            i,
        ),
    decreases i,
{
    let n = cs.len() as int;
    let left = spec_leftover(cs, avail, rem);
    lemma_consumed_bounds(cs, n, avail, rem);
    lemma_lead_bound(flex, left, n);
    if i == 0 {
    } else {
        lemma_start_bound(cs, i - 1, avail, rem, off, edge, sp, flex);
        lemma_consumed_bounds(cs, i, avail, rem);
        lemma_extra_nonneg(flex, left, n, i);
        assert((i - 1) * sp + sp == i * sp) by (nonlinear_arith);
    }
}

/// LAW: every area the solver assigns lies within the parent's
/// content box along the main axis: it starts at or after the content
/// offset and ends at or before the content edge.
pub proof fn lemma_partition_within(
    parent: Area,
    cs: Seq<Constraint>,
    dir: Direction,
    props: LayoutProperties,
    i: int,
)
    requires
        0 <= i < cs.len(),
    ensures
        ({
            let cx = solver_ctx(parent, cs, dir, props);
            let start = spec_start(cs, i, cx.avail, cx.rem, cx.off, cx.edge, cx.sp, props.flex);
            cx.off <= start && start + csize(cs, i, cx.avail, cx.rem) <= cx.edge
        }),
{
    let cx = solver_ctx(parent, cs, dir, props);
    let n = cs.len() as int;
    let avail = cx.avail;
    let rem = cx.rem;
    let sp = cx.sp;
    let left = spec_leftover(cs, avail, rem);
    let inner = spec_inner(dir_main_len(parent, dir), props.margin as int);
    assert(cx.edge == cx.off + inner);
    lemma_sum_fixed_nonneg(cs, avail);
    lemma_consumed_bounds(cs, n, avail, rem);
    lemma_start_bound(cs, i, avail, rem, cx.off, cx.edge, sp, props.flex);
    lemma_gap_bound(props.flex, left, n, i);
    lemma_consumed_mono(cs, i + 1, n, avail, rem);
    lemma_consumed_bounds(cs, i + 1, avail, rem);
    let start = spec_start(cs, i, avail, rem, cx.off, cx.edge, sp, props.flex);
    assert(consumed(cs, i, avail, rem) + csize(cs, i, avail, rem) == consumed(
        cs,
        i + 1,
        avail,
        rem,
    ));
    assert(start + csize(cs, i, avail, rem) <= cx.off + left + consumed(cs, n, avail, rem) + i
        * sp);
    assert(cx.off + left + consumed(cs, n, avail, rem) + i * sp == cx.off + avail + i * sp);
    if avail > 0 {
        assert(sp == props.spacing as int);
        assert(avail == inner - (n - 1) * sp);
        assert(i * sp <= (n - 1) * sp) by (nonlinear_arith)
            requires
                i <= n - 1,
                sp >= 0,
        ;
    } else {
        assert(sp == 0);
        assert(i * sp == 0) by (nonlinear_arith)
            requires
                sp == 0,
        ;
        assert(inner >= 0);
    }
}

/// LAW: a lone sibling receives exactly what its constraint denotes
/// on `avail` cells: a percentage up to one hundred rounds down from
/// `avail * p / 100`, a ratio with `a <= b` rounds down from
/// `avail * a / b`, a length that fits is granted whole, and a fill
/// with any weight takes the whole extent.
pub proof fn lemma_single_sibling_size(c: Constraint, avail: int)
    requires
        avail >= 0,
    ensures
        (match c {
            Constraint::Length(l) => l <= avail ==> csize(
                seq![c],
                0,
                avail,
                spec_rem(avail, sum_fixed(seq![c], avail)),
            ) == l,
            Constraint::Percentage(p) => p <= 100 ==> csize(
                seq![c],
                0,
                avail,
                spec_rem(avail, sum_fixed(seq![c], avail)),
            ) == avail * p / 100,
            Constraint::Ratio(a, b) => 0 < b && a <= b ==> csize(
                seq![c],
                0,
                avail,
                spec_rem(avail, sum_fixed(seq![c], avail)),
            ) == avail * a / (b as int),
            Constraint::Fill(w) => w >= 1 ==> csize(
                seq![c],
                0,
                avail,
                spec_rem(avail, sum_fixed(seq![c], avail)),
            ) == avail,
        }),
{
    let cs = seq![c];
    assert(cs.drop_last() =~= Seq::<Constraint>::empty());
    assert(cs.last() == c);
    assert(sum_fixed(Seq::<Constraint>::empty(), avail) == 0);
    assert(sum_weights(Seq::<Constraint>::empty()) == 0);
    assert(sum_fixed(cs, avail) == fixed_of(c, avail));
    assert(sum_weights(cs) == weight_of(c));
    let f = sum_fixed(cs, avail);
    let rem = spec_rem(avail, f);
    assert(f == fixed_of(c, avail));
    assert(consumed(cs, 0, avail, rem) == 0);
    lemma_fixed_nonneg(c, avail);
    match c {
        Constraint::Length(l) => {},
        Constraint::Percentage(p) => {
            if p <= 100 {
                assert(avail * p <= avail * 100) by (nonlinear_arith)
                    requires
                        avail >= 0,
                        p <= 100,
                ;
                vstd::arithmetic::div_mod::lemma_div_is_ordered(avail * p, avail * 100, 100);
                assert(avail * 100 == 100 * avail) by (nonlinear_arith);
                vstd::arithmetic::div_mod::lemma_div_multiples_vanish(avail, 100);
            }
        },
        Constraint::Ratio(a, b) => {
            if 0 < b && a <= b {
                assert(avail * a <= avail * b) by (nonlinear_arith)
                    requires
                        avail >= 0,
                        a <= b,
                ;
                vstd::arithmetic::div_mod::lemma_div_is_ordered(
                    avail * a,
                    avail * (b as int),
                    b as int,
                );
                assert(avail * (b as int) == (b as int) * avail) by (nonlinear_arith);
                vstd::arithmetic::div_mod::lemma_div_multiples_vanish(avail, b as int);
            }
        },
        Constraint::Fill(w) => {
            if w >= 1 {
                assert(rem == avail);
                assert(cs.take(1) =~= cs);
                assert(cs.take(0) =~= Seq::<Constraint>::empty());
                assert(sum_weights(cs) == w);
                assert(raw_of(cs, 0, avail, rem) == rem * (w as int) / (w as int) - rem * 0 / (
                w as int));
                assert(rem * 0 == 0) by (nonlinear_arith);
                vstd::arithmetic::div_mod::lemma_basic_div(0, w as int);
                assert(rem * (w as int) == (w as int) * rem) by (nonlinear_arith);
                vstd::arithmetic::div_mod::lemma_div_multiples_vanish(rem, w as int);
            }
        },
    }
}

/// Prefix weight sums never exceed the total.
proof fn lemma_weights_prefix_bound(cs: Seq<Constraint>, k: int)
    requires
        0 <= k <= cs.len(),
    ensures
        sum_weights(cs.take(k)) <= sum_weights(cs),
    decreases cs.len() - k,
{
    if k == cs.len() {
        assert(cs.take(k) =~= cs);
    } else {
        lemma_weights_prefix_bound(cs, k + 1);
        lemma_take_snoc(cs, k);
        assert(weight_of(cs[k]) >= 0);
    }
}

/// Only the first `/` of `s` can split it into two numerals: a numeral
/// holds no `/`, so a later split would have one on its left side.
proof fn lemma_first_slash_only_split(s: Seq<char>, k: int)
    requires
        0 <= k < s.len(),
        s[k] == '/',
        forall|j: int| 0 <= j < k ==> s[j] != '/',
    ensures
        forall|k2: int| #[trigger] ratio_split_at(s, k2) ==> k2 == k,
{
    assert(!crate::str_util::is_digit('/'));
    assert forall|k2: int| #[trigger] ratio_split_at(s, k2) implies k2 == k by {
        if k2 < k {
            assert(s[k2] == '/');
            assert(false);
        } else if k2 > k {
            assert(s.subrange(0, k2)[k] == s[k]);
            assert(is_numeral(s.subrange(0, k2)));
            assert(crate::str_util::is_digit(s.subrange(0, k2)[k]));
            assert(false);
        }
    }
}

} // verus!
