use text_layout::math::FRAC_ONE;
use text_layout::{FirstFit, Fixed, Item, KnuthPlass, Line, ParagraphLayout};

fn fx(i: i16) -> Fixed {
    Fixed::from_num(i)
}

fn word_box() -> Item {
    Item::Box { width: fx(1) }
}

fn end_glue() -> Item {
    Item::Glue { width: fx(0), stretch: Fixed::max_value(), shrink: fx(0) }
}

fn end_penalty() -> Item {
    Item::Penalty { width: fx(0), cost: Fixed::min_value(), flagged: true }
}

/// "aaa bbb" closed by infinite-stretch glue and a forced break.
fn two_words() -> Vec<Item> {
    vec![
        word_box(),
        word_box(),
        word_box(),
        Item::Glue { width: fx(1), stretch: fx(1), shrink: fx(0) },
        word_box(),
        word_box(),
        word_box(),
        end_glue(),
        end_penalty(),
    ]
}

/// Words of the given lengths separated by unit glue that stretches and shrinks.
fn words(lengths: &[usize]) -> Vec<Item> {
    let mut items = Vec::new();
    for (i, n) in lengths.iter().enumerate() {
        if i > 0 {
            items.push(Item::Glue { width: fx(1), stretch: fx(1), shrink: Fixed::rat(1, 2) });
        }
        for _ in 0..*n {
            items.push(word_box());
        }
    }
    items.push(end_glue());
    items.push(end_penalty());
    items
}

fn breaks(lines: &[Line]) -> Vec<usize> {
    lines.iter().map(|l| l.break_at).collect()
}

#[test]
fn greedy_breaks_at_the_glue() {
    let ff = FirstFit::new().with_threshold(Fixed::max_value());
    let lines = ff.layout(&two_words(), fx(3));
    assert_eq!(lines.len(), 2);
    assert_eq!(lines[0], Line { break_at: 3, adjustment_ratio: fx(0) });
    assert_eq!(lines[1].break_at, 8);
}

#[test]
fn greedy_keeps_one_line_when_it_fits() {
    let ff = FirstFit::new().with_threshold(Fixed::max_value());
    let lines = ff.layout(&two_words(), fx(7));
    assert_eq!(lines, vec![Line { break_at: 8, adjustment_ratio: fx(0) }]);
}

#[test]
fn greedy_through_the_trait() {
    let ff = FirstFit::new().with_threshold(Fixed::max_value());
    assert_eq!(ff.layout_paragraph(&two_words(), fx(7)), ff.layout(&two_words(), fx(7)));
}

#[test]
fn greedy_defaults() {
    let ff = FirstFit::new();
    assert_eq!(ff.threshold, fx(1));
    assert!(!ff.allow_overflow);
    let ff = ff.with_threshold(fx(3)).allow_overflow(true);
    assert_eq!(ff.threshold, fx(3));
    assert!(ff.allow_overflow);
}

#[test]
fn greedy_fails_on_overfull_word() {
    let items = vec![
        Item::Box { width: fx(5) },
        Item::Glue { width: fx(1), stretch: fx(1), shrink: fx(0) },
        word_box(),
        end_glue(),
        end_penalty(),
    ];
    let ff = FirstFit::new().with_threshold(Fixed::max_value());
    assert!(ff.layout(&items, fx(3)).is_empty());
}

#[test]
fn greedy_overflow_keeps_overfull_line() {
    let items = vec![
        Item::Box { width: fx(5) },
        Item::Glue { width: fx(1), stretch: fx(1), shrink: fx(0) },
        word_box(),
        end_glue(),
        end_penalty(),
    ];
    let ff = FirstFit::new().with_threshold(Fixed::max_value()).allow_overflow(true);
    let lines = ff.layout(&items, fx(3));
    assert_eq!(breaks(&lines), vec![1, 4]);
    assert_eq!(lines[0].adjustment_ratio, fx(0));
    // two units short against the end glue's (near) infinite stretch
    assert_eq!(lines[1].adjustment_ratio.bits, 4);
}

#[test]
fn greedy_fails_above_threshold() {
    // the first break leaves a line three units short with no stretch
    let items = vec![
        word_box(),
        Item::Glue { width: fx(1), stretch: fx(1), shrink: fx(0) },
        Item::Penalty { width: fx(0), cost: Fixed::min_value(), flagged: false },
    ];
    assert!(FirstFit::new().layout(&items, fx(4)).is_empty());
}

#[test]
fn greedy_fills_lines() {
    // "aa aa aa" in width 5: "aa aa" fills the first line exactly
    let items = words(&[2, 2, 2]);
    let ff = FirstFit::new().with_threshold(Fixed::max_value());
    let lines = ff.layout(&items, fx(5));
    assert_eq!(breaks(&lines), vec![5, 9]);
    assert_eq!(lines[0].adjustment_ratio, fx(0));
    assert_eq!(lines[1].adjustment_ratio.bits, 6);
}

#[test]
fn greedy_fails_on_a_loose_first_break_under_threshold() {
    let items = words(&[2, 2, 2]);
    assert!(FirstFit::new().layout(&items, fx(5)).is_empty());
}

#[test]
fn greedy_no_legal_break_gives_nothing() {
    let items = vec![word_box(), word_box()];
    assert!(FirstFit::new().layout(&items, fx(5)).is_empty());
    assert!(FirstFit::new().layout(&Vec::new(), fx(5)).is_empty());
}

#[test]
fn optimal_breaks_at_the_glue() {
    let kp = KnuthPlass::new().with_threshold(Fixed::max_value());
    let lines = kp.layout(&two_words(), fx(3));
    assert_eq!(
        lines,
        vec![
            Line { break_at: 3, adjustment_ratio: fx(0) },
            Line { break_at: 8, adjustment_ratio: fx(0) },
        ]
    );
}

#[test]
fn optimal_keeps_one_line_when_it_fits() {
    let kp = KnuthPlass::new().with_threshold(Fixed::max_value());
    let lines = kp.layout(&two_words(), fx(7));
    assert_eq!(lines, vec![Line { break_at: 8, adjustment_ratio: fx(0) }]);
}

#[test]
fn optimal_through_the_trait() {
    let kp = KnuthPlass::new();
    assert_eq!(kp.layout_paragraph(&two_words(), fx(3)), kp.layout(&two_words(), fx(3)));
}

#[test]
fn optimal_defaults() {
    let kp = KnuthPlass::new();
    assert_eq!(kp.flagged_demerit, fx(100));
    assert_eq!(kp.fitness_demerit, fx(100));
    assert_eq!(kp.threshold, fx(1));
    assert_eq!(kp.looseness, 0);
    let kp = kp
        .with_flagged_demerit(fx(5))
        .with_fitness_demerit(fx(6))
        .with_threshold(fx(2))
        .with_looseness(-1);
    assert_eq!(kp.flagged_demerit, fx(5));
    assert_eq!(kp.fitness_demerit, fx(6));
    assert_eq!(kp.threshold, fx(2));
    assert_eq!(kp.looseness, -1);
}

#[test]
fn optimal_infeasible_gives_nothing() {
    let items = vec![
        Item::Box { width: fx(5) },
        Item::Glue { width: fx(1), stretch: fx(1), shrink: fx(0) },
        word_box(),
        end_glue(),
        end_penalty(),
    ];
    assert!(KnuthPlass::new().layout(&items, fx(3)).is_empty());
}

#[test]
fn optimal_breaks_increase_and_end_at_last_item() {
    let items = words(&[3, 1, 4, 1, 5, 9, 2, 6, 5, 3, 5]);
    let kp = KnuthPlass::new().with_threshold(Fixed::max_value());
    let lines = kp.layout(&items, fx(12));
    assert!(!lines.is_empty());
    for w in lines.windows(2) {
        assert!(w[0].break_at < w[1].break_at);
    }
    assert_eq!(lines.last().unwrap().break_at, items.len() - 1);
}

#[test]
fn greedy_breaks_increase_and_end_at_last_item() {
    let items = words(&[3, 1, 4, 1, 5, 9, 2, 6, 5, 3, 5]);
    let ff = FirstFit::new().with_threshold(Fixed::max_value());
    let lines = ff.layout(&items, fx(12));
    assert!(!lines.is_empty());
    for w in lines.windows(2) {
        assert!(w[0].break_at < w[1].break_at);
    }
    assert_eq!(lines.last().unwrap().break_at, items.len() - 1);
}

#[test]
fn layouts_are_repeatable() {
    let items = words(&[3, 1, 4, 1, 5, 9, 2, 6]);
    let kp = KnuthPlass::new().with_threshold(Fixed::max_value());
    let ff = FirstFit::new().with_threshold(Fixed::max_value());
    assert_eq!(kp.layout(&items, fx(10)), kp.layout(&items, fx(10)));
    assert_eq!(ff.layout(&items, fx(10)), ff.layout(&items, fx(10)));
}

#[test]
fn greedy_unbounded_with_overflow_never_fails() {
    let items = words(&[8, 1, 9, 2]);
    let ff = FirstFit::new().with_threshold(Fixed::max_value()).allow_overflow(true);
    assert!(!ff.layout(&items, fx(4)).is_empty());
    let strict = FirstFit::new().with_threshold(Fixed::max_value());
    assert!(strict.layout(&items, fx(4)).is_empty());
}

#[test]
fn optimal_succeeds_where_greedy_does() {
    let items = words(&[3, 1, 4, 1, 5, 9, 2, 6]);
    let ff = FirstFit::new().with_threshold(Fixed::max_value());
    let kp = KnuthPlass::new().with_threshold(Fixed::max_value());
    assert!(!ff.layout(&items, fx(10)).is_empty());
    assert!(!kp.layout(&items, fx(10)).is_empty());
}

#[test]
fn optimal_discards_glue_after_a_penalty_break() {
    // The greedy pass counts the glue after a penalty break in the next line;
    // the optimal search discards it with its shrink, so here only the greedy
    // pass finds a layout.
    let items = vec![
        Item::Box { width: fx(5) },
        Item::Penalty { width: fx(0), cost: fx(0), flagged: false },
        Item::Glue { width: fx(0), stretch: fx(0), shrink: fx(2) },
        Item::Box { width: fx(6) },
        end_glue(),
        end_penalty(),
    ];
    let ff = FirstFit::new().with_threshold(Fixed::max_value());
    let kp = KnuthPlass::new().with_threshold(Fixed::max_value());
    let lines = ff.layout(&items, fx(5));
    assert_eq!(breaks(&lines), vec![1, 5]);
    assert_eq!(lines[0].adjustment_ratio, fx(0));
    assert_eq!(lines[1].adjustment_ratio.bits, -FRAC_ONE / 2);
    assert!(kp.layout(&items, fx(5)).is_empty());
}

#[test]
fn looseness_never_shortens_a_positive_request() {
    let items = words(&[3, 1, 4, 1, 5, 9, 2, 6, 5, 3, 5, 8, 9, 7]);
    let base = KnuthPlass::new().with_threshold(Fixed::max_value());
    let loose = base.with_looseness(1);
    let a = base.layout(&items, fx(16));
    let b = loose.layout(&items, fx(16));
    assert!(!a.is_empty());
    assert!(b.len() >= a.len());
}

#[test]
fn optimal_ratios_match_line_content() {
    // "aa aa aa" in width 5 with default threshold: lines "aa aa" exactly fit
    let items = words(&[2, 2, 2]);
    let lines = KnuthPlass::new().layout(&items, fx(5));
    assert_eq!(breaks(&lines), vec![5, 9]);
    assert_eq!(lines[0].adjustment_ratio, fx(0));
    assert_eq!(lines[1].adjustment_ratio.bits, 6);
}

#[test]
fn optimal_reports_the_ratio_it_accepted() {
    // the glue after the penalty break is discarded with the break, so the
    // second line holds one unit and fits exactly
    let items = vec![
        word_box(),
        Item::Penalty { width: fx(0), cost: fx(0), flagged: false },
        Item::Glue { width: fx(5), stretch: fx(0), shrink: fx(0) },
        word_box(),
        Item::Penalty { width: fx(0), cost: Fixed::min_value(), flagged: false },
    ];
    let lines = KnuthPlass::new().layout(&items, fx(1));
    assert_eq!(
        lines,
        vec![
            Line { break_at: 1, adjustment_ratio: fx(0) },
            Line { break_at: 4, adjustment_ratio: fx(0) },
        ]
    );
}
