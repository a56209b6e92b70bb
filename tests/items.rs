use text_layout::math::FRAC_ONE;
use text_layout::{legal_at, Fixed, Item, Line};

fn fx(i: i16) -> Fixed {
    Fixed::from_num(i)
}

fn glue(w: i16, y: i16, z: i16) -> Item {
    Item::Glue { width: fx(w), stretch: fx(y), shrink: fx(z) }
}

#[test]
fn legal_breakpoints() {
    let b = Item::Box { width: fx(2) };
    let g = glue(1, 2, 3);
    let p = Item::Penalty { width: fx(0), cost: fx(50), flagged: false };
    let never = Item::Penalty { width: fx(0), cost: Fixed::max_value(), flagged: false };
    assert_eq!(b.is_legal_breakpoint(None), (fx(2), fx(0), fx(0), false));
    assert_eq!(g.is_legal_breakpoint(Some(&b)), (fx(1), fx(2), fx(3), true));
    assert_eq!(g.is_legal_breakpoint(Some(&g)), (fx(1), fx(2), fx(3), false));
    assert_eq!(g.is_legal_breakpoint(None), (fx(1), fx(2), fx(3), false));
    assert!(p.is_legal_breakpoint(Some(&g)).3);
    assert!(!never.is_legal_breakpoint(Some(&b)).3);
}

#[test]
fn legal_at_looks_at_predecessor() {
    let items = vec![Item::Box { width: fx(1) }, glue(1, 1, 0), glue(1, 1, 0)];
    assert!(!legal_at(&items, 0).3);
    assert!(legal_at(&items, 1).3);
    assert!(!legal_at(&items, 2).3);
}

#[test]
fn mandatory_breaks_and_penalty_fields() {
    let forced = Item::Penalty { width: fx(0), cost: Fixed::min_value(), flagged: true };
    let soft = Item::Penalty { width: fx(1), cost: fx(-20), flagged: false };
    assert!(forced.is_mandatory_break());
    assert!(!soft.is_mandatory_break());
    assert!(!glue(0, 1, 0).is_mandatory_break());
    assert!(forced.penalty_flag());
    assert!(!soft.penalty_flag());
    assert_eq!(soft.penalty_cost(), fx(-20));
    assert_eq!(glue(1, 1, 1).penalty_cost(), fx(0));
}

#[test]
fn ratio_stretches_and_shrinks() {
    let b = Item::Box { width: fx(1) };
    // two units short, four units of stretch: one half
    assert_eq!(b.adjustment_ratio(fx(8), fx(4), fx(0), fx(10)).bits, FRAC_ONE / 2);
    // two units over, four units of shrink: minus one half
    assert_eq!(b.adjustment_ratio(fx(12), fx(0), fx(4), fx(10)).bits, -FRAC_ONE / 2);
    assert_eq!(b.adjustment_ratio(fx(10), fx(4), fx(4), fx(10)), fx(0));
}

#[test]
fn ratio_saturates_without_elasticity() {
    let b = Item::Box { width: fx(1) };
    assert_eq!(b.adjustment_ratio(fx(8), fx(0), fx(4), fx(10)), Fixed::max_value());
    assert_eq!(b.adjustment_ratio(fx(12), fx(4), fx(0), fx(10)), Fixed::min_value());
}

#[test]
fn ratio_counts_penalty_width() {
    let p = Item::Penalty { width: fx(2), cost: fx(0), flagged: false };
    // 8 + 2 fills 10 exactly
    assert_eq!(p.adjustment_ratio(fx(8), fx(4), fx(4), fx(10)), fx(0));
    // glue width is not added
    assert_eq!(glue(2, 0, 0).adjustment_ratio(fx(8), fx(4), fx(4), fx(10)).bits, FRAC_ONE / 2);
}

#[test]
fn glue_width_follows_ratio() {
    let stretched = Line { break_at: 3, adjustment_ratio: Fixed::rat(1, 2) };
    let shrunk = Line { break_at: 3, adjustment_ratio: Fixed::rat(-1, 2) };
    let exact = Line { break_at: 3, adjustment_ratio: fx(0) };
    assert_eq!(stretched.glue_width(fx(2), fx(2), fx(1)), fx(3));
    assert_eq!(shrunk.glue_width(fx(2), fx(2), fx(1)).bits, 2 * FRAC_ONE - FRAC_ONE / 2);
    assert_eq!(exact.glue_width(fx(2), fx(2), fx(1)), fx(2));
}
