use text_layout::knuth_plass::{demerits_and_fitness, Fitness, Node};
use text_layout::math::FRAC_ONE;
use text_layout::{FirstFit, Fixed, Item, KnuthPlass};

fn fx(i: i16) -> Fixed {
    Fixed::from_num(i)
}

fn node(position: usize, fitness: Fitness, demerits: i32) -> Node {
    Node {
        position,
        line: 1,
        fitness,
        total_width: fx(0),
        total_stretch: fx(0),
        total_shrink: fx(0),
        total_demerits: Fixed { bits: demerits },
        ratio: fx(0),
        previous: 0,
    }
}

fn items() -> Vec<Item> {
    vec![
        Item::Box { width: fx(1) },
        Item::Penalty { width: fx(0), cost: fx(0), flagged: true },
        Item::Glue { width: fx(1), stretch: fx(1), shrink: fx(0) },
        Item::Penalty { width: fx(0), cost: fx(10), flagged: true },
        Item::Penalty { width: fx(0), cost: fx(-5), flagged: false },
        Item::Penalty { width: fx(0), cost: Fixed::min_value(), flagged: false },
    ]
}

#[test]
fn fitness_distance_and_index() {
    assert_eq!(Fitness::Zero.distance(&Fitness::Three), 3);
    assert_eq!(Fitness::Two.distance(&Fitness::One), 1);
    assert_eq!(Fitness::One.distance(&Fitness::One), 0);
    assert_eq!(Fitness::Three.index(), 3);
    assert_eq!(Fitness::from_index(2), Fitness::Two);
}

#[test]
fn demerits_of_a_half_stretched_line() {
    let cfg = KnuthPlass::new();
    // (1 + 100 * 0.5^3)^2 = 182.25
    let (d, c) = demerits_and_fitness(&cfg, &items(), Fixed::rat(1, 2), &node(0, Fitness::Zero, 0), true, 2);
    assert_eq!(d.bits, 11943936);
    assert_eq!(d.bits, 182 * FRAC_ONE + FRAC_ONE / 4);
    assert_eq!(c, Fitness::One);
}

#[test]
fn demerits_add_fitness_jump_and_predecessor() {
    let cfg = KnuthPlass::new();
    let r = Fixed { bits: -3 * FRAC_ONE / 4 };
    let (d, c) = demerits_and_fitness(&cfg, &items(), r, &node(0, Fitness::Three, FRAC_ONE), true, 2);
    assert_eq!(c, Fitness::Zero);
    assert_eq!(d.bits, 122235136 + 100 * FRAC_ONE + FRAC_ONE);
}

#[test]
fn demerits_by_penalty_cost() {
    let cfg = KnuthPlass::new();
    let start = node(0, Fitness::One, 0);
    // positive cost: (1 + 10)^2
    assert_eq!(demerits_and_fitness(&cfg, &items(), fx(0), &start, true, 3).0, fx(121));
    // negative cost: 1 - 5^2
    assert_eq!(demerits_and_fitness(&cfg, &items(), fx(0), &start, true, 4).0, fx(-24));
    // forced break: the cost is left out
    assert_eq!(demerits_and_fitness(&cfg, &items(), fx(0), &start, true, 5).0, fx(1));
}

#[test]
fn demerits_for_consecutive_flagged_breaks() {
    let cfg = KnuthPlass::new().with_flagged_demerit(fx(7));
    let flagged_pred = node(1, Fitness::One, 0);
    // both the break at 3 and its predecessor at 1 are flagged
    assert_eq!(demerits_and_fitness(&cfg, &items(), fx(0), &flagged_pred, false, 3).0, fx(128));
    // the paragraph's start is never a flagged break
    assert_eq!(demerits_and_fitness(&cfg, &items(), fx(0), &flagged_pred, true, 3).0, fx(121));
}

#[test]
fn defaults_match_new() {
    let ff = FirstFit::default();
    assert_eq!(ff.threshold, FirstFit::new().threshold);
    assert_eq!(ff.allow_overflow, FirstFit::new().allow_overflow);
    let kp = KnuthPlass::default();
    assert_eq!(kp.flagged_demerit, fx(100));
    assert_eq!(kp.fitness_demerit, fx(100));
    assert_eq!(kp.threshold, fx(1));
    assert_eq!(kp.looseness, 0);
}

#[test]
fn demerits_of_an_unshrinkable_line_saturate() {
    let cfg = KnuthPlass::new();
    let (d, c) = demerits_and_fitness(&cfg, &items(), Fixed::min_value(), &node(0, Fitness::One, 0), true, 2);
    assert_eq!(d, Fixed::max_value());
    assert_eq!(c, Fitness::Zero);
}
