//! Paragraph line breaking for justified typesetting.
//!
//! A paragraph is a sequence of [`Item`]s: boxes of content, elastic glue and
//! penalties that mark possible breaks. A layout strategy picks where to break
//! the paragraph into lines and how much each line's glue must stretch or
//! shrink to fill the target width. Two strategies are offered: a greedy
//! single pass ([`FirstFit`]) and the globally optimal dynamic programming
//! search ([`KnuthPlass`]).
//!
//! A well-formed paragraph ends in exactly one mandatory break (a penalty of
//! cost −∞); the strategies rely on it and never append one themselves.
pub mod dominance;
pub mod first_fit;
pub mod knuth_plass;
pub mod math;



pub use first_fit::FirstFit;
pub use knuth_plass::KnuthPlass;
pub use math::{Fixed, Num};

use vstd::prelude::*;
use math::{FRAC_ONE, sat_add, sat_div, sat_mul, sat_sub};

verus! {

/// A single item in a paragraph.
#[derive(Clone, Copy, Debug, PartialEq, Eq, Structural)]
pub enum Item {
    /// Unbreakable content; lines are never broken at a box.
    Box {
        /// The width of the box.
        width: Fixed,
    },
    /// Elastic whitespace; a legal break when it directly follows a box.
    Glue {
        /// The natural width.
        width: Fixed,
        /// How much the glue grows, in proportion, when a line is stretched.
        stretch: Fixed,
        /// How much the glue gives, in proportion, when a line is shrunk.
        shrink: Fixed,
    },
    /// A possible break with an aesthetic cost. A cost of −∞ forces a break and
    /// a cost of +∞ forbids one.
    Penalty {
        /// The width added to a line that breaks here.
        width: Fixed,
        /// The cost of breaking here.
        cost: Fixed,
        /// Marks breaks (such as hyphens) that should not fall on consecutive lines.
        flagged: bool,
    },
}

/// The stand-in for +∞ in the representation.
pub open spec fn pos_inf() -> int {
    i32::MAX as int
}

/// The stand-in for −∞ in the representation.
pub open spec fn neg_inf() -> int {
    i32::MIN as int
}

/// The width an item contributes to a line.
pub open spec fn width_of(item: Item) -> int {
    match item {
        Item::Box { width } => width.val(),
        Item::Glue { width, .. } => width.val(),
        Item::Penalty { width, .. } => width.val(),
    }
}

/// The stretch an item contributes to a line.
pub open spec fn stretch_of(item: Item) -> int {
    match item {
        Item::Glue { stretch, .. } => stretch.val(),
        _ => 0,
    }
}

/// The shrink an item contributes to a line.
pub open spec fn shrink_of(item: Item) -> int {
    match item {
        Item::Glue { shrink, .. } => shrink.val(),
        _ => 0,
    }
}

/// The width a penalty adds to the line that breaks at it.
pub open spec fn break_width_of(item: Item) -> int {
    match item {
        Item::Penalty { width, .. } => width.val(),
        _ => 0,
    }
}

/// The cost of breaking at an item.
pub open spec fn cost_of(item: Item) -> int {
    match item {
        Item::Penalty { cost, .. } => cost.val(),
        _ => 0,
    }
}

/// Whether an item is a flagged penalty.
pub open spec fn flagged_of(item: Item) -> bool {
    match item {
        Item::Penalty { flagged, .. } => flagged,
        _ => false,
    }
}

/// Whether an item forces a break: a penalty of cost −∞.
pub open spec fn is_mandatory(item: Item) -> bool {
    match item {
        Item::Penalty { cost, .. } => cost.val() == neg_inf(),
        _ => false,
    }
}

/// Whether the paragraph may be broken at position `b`: never at a box, at
/// glue only right after a box, at a penalty unless its cost is +∞.
pub open spec fn is_legal_at(items: Seq<Item>, b: int) -> bool {
    &&& 0 <= b < items.len()
    &&& match items[b] {
        Item::Box { .. } => false,
        Item::Glue { .. } => b > 0 && items[b - 1] is Box,
        Item::Penalty { cost, .. } => cost.val() != pos_inf(),
    }
}

/// A paragraph that ends in a mandatory break.
pub open spec fn well_formed(items: Seq<Item>) -> bool {
    items.len() > 0 && is_mandatory(items.last())
}

/// The adjustment ratio of a line that breaks at `item`, whose content has the
/// given width, stretch and shrink, set in a line of `line_width`. Stretching
/// without stretch gives +∞; an overfull line without shrink gives −∞.
pub open spec fn ratio_spec(item: Item, width: int, stretch: int, shrink: int, line_width: int) -> int {
    let w = sat_add(width, break_width_of(item));
    if w < line_width {
        if stretch > 0 {
            sat_div(sat_sub(line_width, w), stretch)
        } else {
            pos_inf()
        }
    } else if w > line_width {
        if shrink > 0 {
            sat_div(sat_sub(line_width, w), shrink)
        } else {
            neg_inf()
        }
    } else {
        0
    }
}

impl Item {
    /// The cost of breaking here: a penalty's cost, zero otherwise.
    pub fn penalty_cost(&self) -> (r: Fixed)
        ensures
            r.val() == cost_of(*self),
    {
        match self {
            Item::Penalty { cost, .. } => *cost,
            _ => Fixed::from_num(0),
        }
    }

    /// Whether this is a flagged penalty.
    pub fn penalty_flag(&self) -> (r: bool)
        ensures
            r == flagged_of(*self),
    {
        match self {
            Item::Penalty { flagged, .. } => *flagged,
            _ => false,
        }
    }

    /// Whether this item forces a break.
    pub fn is_mandatory_break(&self) -> (r: bool)
        ensures
            r == is_mandatory(*self),
    {
        match self {
            Item::Penalty { cost, .. } => cost.bits == i32::MIN,
            _ => false,
        }
    }

    /// The width, stretch and shrink of this item, and whether a break is
    /// legal here given the item before it (`None` at the paragraph's start).
    pub fn is_legal_breakpoint(&self, pred: Option<&Item>) -> (r: (Fixed, Fixed, Fixed, bool))
        ensures
            r.0.val() == width_of(*self),
            r.1.val() == stretch_of(*self),
            r.2.val() == shrink_of(*self),
            r.3 == match *self {
                Item::Box { .. } => false,
                Item::Glue { .. } => pred is Some && *pred->0 is Box,
                Item::Penalty { cost, .. } => cost.val() != pos_inf(),
            },
    {
        match self {
            Item::Box { width } => (*width, Fixed::from_num(0), Fixed::from_num(0), false),
            Item::Glue { width, stretch, shrink } => {
                let legal = match pred {
                    Some(p) => match p {
                        Item::Box { .. } => true,
                        _ => false,
                    },
                    None => false,
                };
                (*width, *stretch, *shrink, legal)
            },
            Item::Penalty { width, cost, .. } => (
                *width,
                Fixed::from_num(0),
                Fixed::from_num(0),
                cost.bits != i32::MAX,
            ),
        }
    }

    /// The adjustment ratio for a line that breaks at this item, given the
    /// width, stretch and shrink of the line's content before the break.
    pub fn adjustment_ratio(&self, width: Fixed, stretch: Fixed, shrink: Fixed, line_width: Fixed) -> (r: Fixed)
        ensures
            r.val() == ratio_spec(*self, width.val(), stretch.val(), shrink.val(), line_width.val()),
    {
        let penalty_width = match self {
            Item::Penalty { width, .. } => *width,
            _ => Fixed::from_num(0),
        };
        let width = width.saturating_add(penalty_width);
        if width.lt(line_width) {
            if stretch.bits > 0 {
                line_width.saturating_sub(width).saturating_div(stretch)
            } else {
                Fixed::max_value()
            }
        } else if line_width.lt(width) {
            if shrink.bits > 0 {
                line_width.saturating_sub(width).saturating_div(shrink)
            } else {
                Fixed::min_value()
            }
        } else {
            Fixed::from_num(0)
        }
    }
}

/// Whether a break is legal at position `b` of the paragraph.
pub fn legal_at(items: &Vec<Item>, b: usize) -> (r: (Fixed, Fixed, Fixed, bool))
    requires
        b < items@.len(),
    ensures
        r.0.val() == width_of(items@[b as int]),
        r.1.val() == stretch_of(items@[b as int]),
        r.2.val() == shrink_of(items@[b as int]),
        r.3 == is_legal_at(items@, b as int),
{
    if b == 0 {
        items[b].is_legal_breakpoint(None)
    } else {
        items[b].is_legal_breakpoint(Some(&items[b - 1]))
    }
}

/// Lines whose breaks come in strictly increasing order.
pub open spec fn breaks_increasing(lines: Seq<Line>) -> bool {
    forall|i: int, j: int| 0 <= i < j < lines.len() ==> #[trigger] lines[i].break_at < #[trigger] lines[j].break_at
}

/// Each line breaks at a legal break, with a ratio between −1 and `threshold`.
pub open spec fn lines_admissible(items: Seq<Item>, threshold: int, lines: Seq<Line>) -> bool {
    forall|j: int| 0 <= j < lines.len() ==> {
        let l = #[trigger] lines[j];
        &&& is_legal_at(items, l.break_at as int)
        &&& -(FRAC_ONE as int) <= l.adjustment_ratio.val() <= threshold
    }
}

/// One line of a laid-out paragraph.
#[derive(Clone, Copy, Debug, PartialEq, Eq, Structural)]
pub struct Line {
    /// The index of the item at which the line breaks.
    pub break_at: usize,
    /// How much the line's glue is adjusted: a positive ratio stretches it by
    /// that multiple of its stretch, a negative one shrinks it by that multiple
    /// of its shrink, zero keeps its natural width.
    pub adjustment_ratio: Fixed,
}

/// The width of glue on a line with adjustment ratio `r`.
pub open spec fn glue_width_spec(r: int, width: int, stretch: int, shrink: int) -> int {
    if r < 0 {
        sat_add(width, sat_mul(shrink, r))
    } else if r > 0 {
        sat_add(width, sat_mul(stretch, r))
    } else {
        width
    }
}

impl Line {
    /// The width of a glue item of the given width, stretch and shrink once the
    /// line's adjustment ratio is applied.
    pub fn glue_width(&self, width: Fixed, stretch: Fixed, shrink: Fixed) -> (r: Fixed)
        ensures
            r.val() == glue_width_spec(self.adjustment_ratio.val(), width.val(), stretch.val(), shrink.val()),
    {
        if self.adjustment_ratio.bits < 0 {
            width.saturating_add(shrink.saturating_mul(self.adjustment_ratio))
        } else if self.adjustment_ratio.bits > 0 {
            width.saturating_add(stretch.saturating_mul(self.adjustment_ratio))
        } else {
            width
        }
    }
}

/// Breaks a paragraph into lines.
pub trait ParagraphLayout {
    /// The lines the strategy gives for `items` in lines of `line_width`: a
    /// function of the strategy's configuration and its arguments alone.
    spec fn layout_spec(&self, items: Seq<Item>, line_width: int) -> Seq<Line>;

    /// Lays out a paragraph of `items` in lines of `line_width`. An empty
    /// result means that no layout meets the strategy's constraints. The
    /// breaks of a well-formed paragraph increase and end at its final item.
    fn layout_paragraph(&self, items: &Vec<Item>, line_width: Fixed) -> (r: Vec<Line>)
        ensures
            r@ == self.layout_spec(items@, line_width.val()),
            well_formed(items@) && r@.len() > 0 ==> breaks_increasing(r@) && r@.last().break_at == items@.len() - 1,
    ;
}

} // verus!
