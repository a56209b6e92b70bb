//! The optimal line breaker: a dynamic programming search over feasible breaks.
use vstd::prelude::*;
use crate::math::{Fixed, FRAC_ONE, clamp32, sat_add, sat_sub, sat_mul, sat_pow};
use crate::{Item, Line, ParagraphLayout, legal_at, is_legal_at, width_of, stretch_of, shrink_of,
    ratio_spec, is_mandatory, well_formed, neg_inf, cost_of, flagged_of, breaks_increasing, lines_admissible};

verus! {

/// The optimal line breaker: a dynamic programming search over feasible
/// breaks that minimises the paragraph's total demerits.
#[derive(Clone, Copy, Debug)]
pub struct KnuthPlass {
    /// Demerits added when a flagged break follows a flagged break.
    pub flagged_demerit: Fixed,
    /// Demerits added when a line's fitness class differs from the previous
    /// line's by more than one; also the margin within which candidates of
    /// other classes are kept.
    pub fitness_demerit: Fixed,
    /// The largest adjustment ratio a line may have.
    pub threshold: Fixed,
    /// How many lines more (positive) or fewer (negative) than the optimum to
    /// aim for, as far as feasible breaks allow.
    pub looseness: isize,
}

impl KnuthPlass {
    /// An optimal layout with demerits 100 for flagged pairs and fitness
    /// jumps, threshold 1 and looseness 0.
    pub fn new() -> (r: KnuthPlass)
        ensures
            r.flagged_demerit.val() == 100 * FRAC_ONE,
            r.fitness_demerit.val() == 100 * FRAC_ONE,
            r.threshold.val() == FRAC_ONE as int,
            r.looseness == 0,
    {
        KnuthPlass {
            flagged_demerit: Fixed::from_num(100),
            fitness_demerit: Fixed::from_num(100),
            threshold: Fixed::from_num(1),
            looseness: 0,
        }
    }

    /// Sets the demerits for consecutive flagged breaks.
    pub fn with_flagged_demerit(self, flagged_demerit: Fixed) -> (r: KnuthPlass)
        ensures
            r == (KnuthPlass { flagged_demerit, ..self }),
    {
        KnuthPlass { flagged_demerit, ..self }
    }

    /// Sets the demerits for a jump of more than one fitness class.
    pub fn with_fitness_demerit(self, fitness_demerit: Fixed) -> (r: KnuthPlass)
        ensures
            r == (KnuthPlass { fitness_demerit, ..self }),
    {
        KnuthPlass { fitness_demerit, ..self }
    }

    /// Sets the largest adjustment ratio a line may have.
    pub fn with_threshold(self, threshold: Fixed) -> (r: KnuthPlass)
        ensures
            r == (KnuthPlass { threshold, ..self }),
    {
        KnuthPlass { threshold, ..self }
    }

    /// Sets the looseness.
    pub fn with_looseness(self, looseness: isize) -> (r: KnuthPlass)
        ensures
            r == (KnuthPlass { looseness, ..self }),
    {
        KnuthPlass { looseness, ..self }
    }
}

/// One of four bins of looseness of a line, from tight to very loose.
#[derive(Clone, Copy, Debug, PartialEq, Eq, Structural)]
pub enum Fitness {
    Zero,
    One,
    Two,
    Three,
}

/// The ordinal of a fitness class.
pub open spec fn fitness_rank(f: Fitness) -> int {
    match f {
        Fitness::Zero => 0,
        Fitness::One => 1,
        Fitness::Two => 2,
        Fitness::Three => 3,
    }
}

/// The fitness class of ordinal `c`.
pub open spec fn fitness_of_rank(c: int) -> Fitness {
    if c == 0 { Fitness::Zero } else if c == 1 { Fitness::One } else if c == 2 { Fitness::Two } else { Fitness::Three }
}

impl Fitness {
    /// The ordinal of this class.
    pub fn index(&self) -> (r: usize)
        ensures
            r as int == fitness_rank(*self),
    {
        match self {
            Fitness::Zero => 0,
            Fitness::One => 1,
            Fitness::Two => 2,
            Fitness::Three => 3,
        }
    }

    /// The class of ordinal `c`, the last class for any ordinal past it.
    pub fn from_index(c: usize) -> (r: Fitness)
        ensures
            r == fitness_of_rank(c as int),
    {
        if c == 0 {
            Fitness::Zero
        } else if c == 1 {
            Fitness::One
        } else if c == 2 {
            Fitness::Two
        } else {
            Fitness::Three
        }
    }

    /// How many classes apart two classes are.
    pub fn distance(&self, other: &Fitness) -> (r: usize)
        ensures
            r as int == (if fitness_rank(*self) >= fitness_rank(*other) {
                fitness_rank(*self) - fitness_rank(*other)
            } else {
                fitness_rank(*other) - fitness_rank(*self)
            }),
    {
        let a = self.index();
        let b = other.index();
        if a >= b {
            a - b
        } else {
            b - a
        }
    }
}

/// The fitness class of a line with ratio `r`: below −1/2, up to 1/2, up to 1, beyond.
pub open spec fn fitness_spec(r: int) -> Fitness {
    if r < -(FRAC_ONE as int) / 2 {
        Fitness::Zero
    } else if r <= (FRAC_ONE as int) / 2 {
        Fitness::One
    } else if r <= FRAC_ONE as int {
        Fitness::Two
    } else {
        Fitness::Three
    }
}

/// The badness of a line with ratio `r`: 1 + 100·|r|³, where |−∞| is +∞.
pub open spec fn badness_spec(r: int) -> int {
    let a = clamp32(if r < 0 { -r } else { r });
    sat_add(FRAC_ONE as int, sat_mul(100 * FRAC_ONE, sat_pow(a, 3)))
}

/// The demerits of a line with ratio `r` that breaks at a penalty of cost `cost`,
/// before the additions for flagged pairs and fitness jumps.
pub open spec fn line_demerits_spec(r: int, cost: int) -> int {
    let bad = badness_spec(r);
    if cost >= 0 {
        sat_pow(sat_add(bad, cost), 2)
    } else if cost != neg_inf() {
        sat_sub(sat_pow(bad, 2), sat_pow(cost, 2))
    } else {
        sat_pow(bad, 2)
    }
}

/// A feasible break found by the search.
#[derive(Clone, Copy, Debug)]
pub struct Node {
    /// The position of the break.
    pub position: usize,
    /// The number of lines up to and including the one ending here.
    pub line: usize,
    /// The fitness class of the line ending here.
    pub fitness: Fitness,
    /// The width of the paragraph up to the start of the next line.
    pub total_width: Fixed,
    /// The stretch of the paragraph up to the start of the next line.
    pub total_stretch: Fixed,
    /// The shrink of the paragraph up to the start of the next line.
    pub total_shrink: Fixed,
    /// The least total demerits of a path to this break.
    pub total_demerits: Fixed,
    /// The adjustment ratio of the line that ends here on that path.
    pub ratio: Fixed,
    /// The arena index of the best previous break.
    pub previous: usize,
}

/// The demerits of a path that ends with the line from `a` to a break at
/// `item`, with ratio `r`.
pub open spec fn path_demerits_spec(cfg: KnuthPlass, items: Seq<Item>, a: Node, a_is_start: bool, item: Item, r: int) -> int {
    let d = line_demerits_spec(r, cost_of(item));
    let d1 = if flagged_of(item) && !a_is_start && flagged_of(items[a.position as int]) {
        sat_add(d, cfg.flagged_demerit.val())
    } else {
        d
    };
    let jump = fitness_rank(fitness_spec(r)) - fitness_rank(a.fitness);
    let d2 = if jump > 1 || jump < -1 { sat_add(d1, cfg.fitness_demerit.val()) } else { d1 };
    sat_add(d2, a.total_demerits.val())
}

/// The arena's shape: node 0 is the start of the paragraph; every other node
/// sits at a legal break past its predecessor's, one line further on.
pub open spec fn arena_ok(items: Seq<Item>, nodes: Seq<Node>) -> bool {
    &&& nodes.len() >= 1
    &&& nodes[0].line == 0
    &&& forall|i: int| 0 < i < nodes.len() ==> #[trigger] node_ok(items, nodes, i)
    &&& forall|i: int| 0 <= i < nodes.len() ==> (#[trigger] nodes[i]).line <= i
}

/// Node `i` sits at a legal break past its predecessor's, one line further on.
pub open spec fn node_ok(items: Seq<Item>, nodes: Seq<Node>, i: int) -> bool {
    let n = nodes[i];
    &&& n.previous < i
    &&& n.line == nodes[n.previous as int].line + 1
    &&& is_legal_at(items, n.position as int)
    &&& (n.previous == 0 || nodes[n.previous as int].position < n.position)
}

/// Active nodes all lie in the arena.
pub open spec fn active_ok(nodes: Seq<Node>, active: Seq<usize>) -> bool {
    forall|k: int| 0 <= k < active.len() ==> (#[trigger] active[k]) < nodes.len()
}

/// Every node but the start ends a line whose ratio is between −1 and the threshold.
pub open spec fn ratios_ok(cfg: KnuthPlass, nodes: Seq<Node>) -> bool {
    forall|i: int| 0 < i < nodes.len() ==>
        -(FRAC_ONE as int) <= (#[trigger] nodes[i]).ratio.val() <= cfg.threshold.val()
}

/// The widths, stretches and shrinks from `i` on that a break at `b` discards:
/// the glue and penalties up to the next box or the next mandatory break.
pub open spec fn totals_after_spec(items: Seq<Item>, b: int, i: int, t: (int, int, int)) -> (int, int, int)
    decreases items.len() - i,
{
    if i >= items.len() || i < b {
        t
    } else {
        match items[i] {
            Item::Box { .. } => t,
            Item::Glue { width, stretch, shrink } => totals_after_spec(items, b, i + 1,
                (sat_add(t.0, width.val()), sat_add(t.1, stretch.val()), sat_add(t.2, shrink.val()))),
            Item::Penalty { cost, .. } => if cost.val() == neg_inf() && i > b {
                t
            } else {
                totals_after_spec(items, b, i + 1, t)
            },
        }
    }
}

/// The demerits of the path through `a` that ends with a line of ratio `r`
/// breaking at `b`, and that line's fitness class. `a_is_start` tells that `a`
/// stands for the paragraph's start, which is no flagged break.
pub fn demerits_and_fitness(cfg: &KnuthPlass, items: &Vec<Item>, r: Fixed, a: &Node, a_is_start: bool, b: usize)
    -> (res: (Fixed, Fitness))
    requires
        b < items@.len(),
        a_is_start || a.position < items@.len(),
    ensures
        res.0.val() == path_demerits_spec(*cfg, items@, *a, a_is_start, items@[b as int], r.val()),
        res.1 == fitness_spec(r.val()),
{
    let item = &items[b];
    let cost = item.penalty_cost();
    let zero = Fixed::from_num(0);
    let magnitude = if r.bits == i32::MIN { Fixed::max_value() } else { r.abs() };
    let badness = Fixed::from_num(1).saturating_add(Fixed::from_num(100).saturating_mul(magnitude.powi(3)));
    let d = if zero.le(cost) {
        badness.saturating_add(cost).powi(2)
    } else if cost.bits != i32::MIN {
        badness.powi(2).saturating_sub(cost.powi(2))
    } else {
        badness.powi(2)
    };
    let d = if item.penalty_flag() && !a_is_start && items[a.position].penalty_flag() {
        d.saturating_add(cfg.flagged_demerit)
    } else {
        d
    };
    let neg_half = Fixed::rat(-1, 2);
    let half = Fixed::rat(1, 2);
    assert(neg_half.val() == -(FRAC_ONE as int) / 2);
    assert(half.val() == (FRAC_ONE as int) / 2);
    let c = if r.lt(neg_half) {
        Fitness::Zero
    } else if r.le(half) {
        Fitness::One
    } else if r.le(Fixed::from_num(1)) {
        Fitness::Two
    } else {
        Fitness::Three
    };
    let d = if c.distance(&a.fitness) > 1 {
        d.saturating_add(cfg.fitness_demerit)
    } else {
        d
    };
    (d.saturating_add(a.total_demerits), c)
}

/// The totals up to the start of the line that follows a break at `b`: the
/// running totals plus what the break discards.
fn total_after(items: &Vec<Item>, b: usize, tw: Fixed, ty: Fixed, tz: Fixed) -> (r: (Fixed, Fixed, Fixed))
    requires
        b < items@.len(),
    ensures
        (r.0.val(), r.1.val(), r.2.val()) == totals_after_spec(items@, b as int, b as int, (tw.val(), ty.val(), tz.val())),
{
    let mut w = tw;
    let mut y = ty;
    let mut z = tz;
    let mut i: usize = b;
    while i < items.len()
        invariant
            b <= i <= items@.len(),
            totals_after_spec(items@, b as int, b as int, (tw.val(), ty.val(), tz.val()))
                == totals_after_spec(items@, b as int, i as int, (w.val(), y.val(), z.val())),
        decreases items@.len() - i,
    {
        match items[i] {
            Item::Box { .. } => {
                return (w, y, z);
            },
            Item::Glue { width, stretch, shrink } => {
                w = w.saturating_add(width);
                y = y.saturating_add(stretch);
                z = z.saturating_add(shrink);
            },
            Item::Penalty { cost, .. } => {
                if cost.bits == i32::MIN && i > b {
                    return (w, y, z);
                }
            },
        }
        i = i + 1;
    }
    (w, y, z)
}


/// The search's bookkeeping while it scans the active nodes for one break:
/// per fitness class the best predecessor found, whether one was found, its
/// demerits and the ratio of its line; the least demerits of all; whether any path reached the break;
/// and the active nodes that stay active.
pub struct Scan {
    pub class_a: Seq<usize>,
    pub class_set: Seq<bool>,
    pub class_d: Seq<Fixed>,
    pub class_r: Seq<Fixed>,
    pub min_d: Fixed,
    pub any: bool,
    pub kept: Seq<usize>,
}

/// The adjustment ratio of the line from node `a` to the break at `b`, where
/// `t` holds the totals of the items before `b`.
pub open spec fn node_ratio(items: Seq<Item>, lw: int, a: Node, b: int, t: (int, int, int)) -> int {
    ratio_spec(
        items[b],
        sat_sub(t.0, a.total_width.val()),
        sat_sub(t.1, a.total_stretch.val()),
        sat_sub(t.2, a.total_shrink.val()),
        lw,
    )
}

/// The bookkeeping once the active node `a` has been scanned.
pub open spec fn scan_step(cfg: KnuthPlass, items: Seq<Item>, lw: int, b: int, t: (int, int, int),
    nodes: Seq<Node>, s: Scan, a: usize) -> Scan
{
    let node = nodes[a as int];
    let r = node_ratio(items, lw, node, b, t);
    let kept = if !(r < -(FRAC_ONE as int) || is_mandatory(items[b])) { s.kept.push(a) } else { s.kept };
    if -(FRAC_ONE as int) <= r && r <= cfg.threshold.val() {
        let d = path_demerits_spec(cfg, items, node, a == 0, items[b], r);
        let c = fitness_rank(fitness_spec(r));
        if !s.class_set[c] || d < s.class_d[c].val() {
            Scan {
                class_a: s.class_a.update(c, a),
                class_set: s.class_set.update(c, true),
                class_d: s.class_d.update(c, Fixed { bits: d as i32 }),
                class_r: s.class_r.update(c, Fixed { bits: r as i32 }),
                min_d: if d < s.min_d.val() { Fixed { bits: d as i32 } } else { s.min_d },
                any: true,
                kept,
            }
        } else {
            Scan { kept, ..s }
        }
    } else {
        Scan { kept, ..s }
    }
}

/// The bookkeeping once the first `k` active nodes have been scanned.
pub open spec fn scan_spec(cfg: KnuthPlass, items: Seq<Item>, lw: int, b: int, t: (int, int, int),
    nodes: Seq<Node>, active: Seq<usize>, k: nat) -> Scan
    decreases k,
{
    if k == 0 {
        Scan {
            class_a: seq![0usize, 0usize, 0usize, 0usize],
            class_set: seq![false, false, false, false],
            class_d: seq![Fixed { bits: i32::MAX }, Fixed { bits: i32::MAX }, Fixed { bits: i32::MAX }, Fixed { bits: i32::MAX }],
            class_r: seq![Fixed { bits: 0 }, Fixed { bits: 0 }, Fixed { bits: 0 }, Fixed { bits: 0 }],
            min_d: Fixed { bits: i32::MAX },
            any: false,
            kept: Seq::empty(),
        }
    } else {
        scan_step(cfg, items, lw, b, t, nodes, scan_spec(cfg, items, lw, b, t, nodes, active, (k - 1) as nat), active[k - 1])
    }
}

/// The arena and the active nodes once the classes before `c` have been
/// considered for new nodes at the break `b`, whose totals after the break are `ta`.
pub open spec fn create_spec(items: Seq<Item>, b: int, ta: (int, int, int), s: Scan, limit: int,
    nodes: Seq<Node>, kept: Seq<usize>, c: nat) -> (Seq<Node>, Seq<usize>)
    decreases c,
{
    if c == 0 {
        (nodes, kept)
    } else {
        let (ns, ks) = create_spec(items, b, ta, s, limit, nodes, kept, (c - 1) as nat);
        let ci = c - 1;
        if s.class_set[ci] && s.class_d[ci].val() <= limit {
            let prev = s.class_a[ci];
            let n = Node {
                position: b as usize,
                line: (ns[prev as int].line + 1) as usize,
                fitness: fitness_of_rank(ci),
                total_width: Fixed { bits: ta.0 as i32 },
                total_stretch: Fixed { bits: ta.1 as i32 },
                total_shrink: Fixed { bits: ta.2 as i32 },
                total_demerits: s.class_d[ci],
                ratio: s.class_r[ci],
                previous: prev,
            };
            (ns.push(n), ks.push(ns.len() as usize))
        } else {
            (ns, ks)
        }
    }
}

/// The arena and the active nodes after the search handles the legal break `b`.
pub open spec fn breakpoint_spec(cfg: KnuthPlass, items: Seq<Item>, lw: int, b: int, t: (int, int, int),
    nodes: Seq<Node>, active: Seq<usize>) -> (Seq<Node>, Seq<usize>)
{
    let s = scan_spec(cfg, items, lw, b, t, nodes, active, active.len());
    if s.any {
        let ta = totals_after_spec(items, b, b, t);
        create_spec(items, b, ta, s, sat_add(s.min_d.val(), cfg.fitness_demerit.val()), nodes, s.kept, 4)
    } else {
        (nodes, s.kept)
    }
}

/// The state of the search between two items: the arena, the active nodes,
/// the totals of the items read, and whether the search has failed.
pub struct SearchState {
    pub nodes: Seq<Node>,
    pub active: Seq<usize>,
    pub tw: Fixed,
    pub ty: Fixed,
    pub tz: Fixed,
    pub failed: bool,
}

/// The node that stands for the start of the paragraph.
pub open spec fn start_node() -> Node {
    Node {
        position: 0,
        line: 0,
        fitness: Fitness::Zero,
        total_width: Fixed { bits: 0 },
        total_stretch: Fixed { bits: 0 },
        total_shrink: Fixed { bits: 0 },
        total_demerits: Fixed { bits: 0 },
        ratio: Fixed { bits: 0 },
        previous: 0,
    }
}

/// The state of the search once it has read the first `n` items. It fails
/// when no node stays active after a legal break.
pub open spec fn kp_run(cfg: KnuthPlass, items: Seq<Item>, lw: int, n: nat) -> SearchState
    decreases n,
{
    if n == 0 {
        SearchState {
            nodes: seq![start_node()],
            active: seq![0usize],
            tw: Fixed { bits: 0 },
            ty: Fixed { bits: 0 },
            tz: Fixed { bits: 0 },
            failed: false,
        }
    } else {
        let s = kp_run(cfg, items, lw, (n - 1) as nat);
        let b = n - 1;
        if s.failed {
            s
        } else {
            let (nodes, active) = if is_legal_at(items, b) {
                breakpoint_spec(cfg, items, lw, b, (s.tw.val(), s.ty.val(), s.tz.val()), s.nodes, s.active)
            } else {
                (s.nodes, s.active)
            };
            if active.len() == 0 {
                SearchState { nodes, active, failed: true, ..s }
            } else {
                SearchState {
                    nodes,
                    active,
                    tw: Fixed { bits: sat_add(s.tw.val(), width_of(items[b])) as i32 },
                    ty: Fixed { bits: sat_add(s.ty.val(), stretch_of(items[b])) as i32 },
                    tz: Fixed { bits: sat_add(s.tz.val(), shrink_of(items[b])) as i32 },
                    failed: false,
                }
            }
        }
    }
}

/// Whether `n1` beats `n0` as the end of the paragraph: strictly better by
/// `loose_le`'s order.
pub open spec fn loose_lt(n1: Node, n0: Node, k: int, q: int) -> bool {
    let d1 = n1.line - k;
    let d0 = n0.line - k;
    ||| abs_int(d1 - q) < abs_int(d0 - q)
    ||| (abs_int(d1 - q) == abs_int(d0 - q) && abs_int(d1) < abs_int(d0))
    ||| (abs_int(d1 - q) == abs_int(d0 - q) && abs_int(d1) == abs_int(d0)
        && n1.total_demerits.val() < n0.total_demerits.val())
}

/// The position among the first `k` active nodes of the first one that no
/// other beats.
pub open spec fn select_upto(nodes: Seq<Node>, active: Seq<usize>, kline: int, q: int, k: nat) -> int
    decreases k,
{
    if k <= 1 {
        0
    } else {
        let sel = select_upto(nodes, active, kline, q, (k - 1) as nat);
        if loose_lt(nodes[active[k - 1] as int], nodes[active[sel] as int], kline, q) {
            k - 1
        } else {
            sel
        }
    }
}

/// The position in `active` of the node that ends the paragraph.
pub open spec fn select_spec(nodes: Seq<Node>, active: Seq<usize>, q: int) -> int {
    select_upto(nodes, active, nodes[active[best_spec(nodes, active)] as int].line as int, q, active.len())
}

/// The lines of the path from the start to node `t`, in order: each breaks
/// at a node's position with the ratio the search accepted for it.
pub open spec fn path_spec(nodes: Seq<Node>, t: int) -> Seq<Line>
    decreases t,
{
    if t <= 0 || t >= nodes.len() || nodes[t].previous >= t {
        Seq::empty()
    } else {
        path_spec(nodes, nodes[t].previous as int).push(line_of_node(nodes[t]))
    }
}

/// The line that ends at a node.
pub open spec fn line_of_node(n: Node) -> Line {
    Line { break_at: n.position, adjustment_ratio: n.ratio }
}

/// The lines the optimal search gives: none if it failed, else those of the
/// path to the selected end node.
pub open spec fn knuth_plass_spec(cfg: KnuthPlass, items: Seq<Item>, lw: int) -> Seq<Line> {
    let s = kp_run(cfg, items, lw, items.len());
    if s.failed {
        Seq::empty()
    } else {
        path_spec(s.nodes, s.active[select_spec(s.nodes, s.active, cfg.looseness as int)] as int)
    }
}

/// Adding a node one line past an earlier one, at a legal break past it, keeps
/// the arena's shape.
proof fn lemma_arena_push(items: Seq<Item>, nodes: Seq<Node>, n: Node)
    requires
        arena_ok(items, nodes),
        n.previous < nodes.len(),
        n.line == nodes[n.previous as int].line + 1,
        is_legal_at(items, n.position as int),
        n.previous == 0 || nodes[n.previous as int].position < n.position,
    ensures
        arena_ok(items, nodes.push(n)),
{
    let s = nodes.push(n);
    assert forall|i: int| 0 < i < s.len() implies #[trigger] node_ok(items, s, i) by {
        if i < nodes.len() {
            assert(node_ok(items, nodes, i));
            assert(s[i] == nodes[i]);
            assert(s[nodes[i].previous as int] == nodes[nodes[i].previous as int]);
        } else {
            assert(s[n.previous as int] == nodes[n.previous as int]);
        }
    }
    assert forall|i: int| 0 <= i < s.len() implies (#[trigger] s[i]).line <= i by {
        if i < nodes.len() {
            assert(s[i] == nodes[i]);
        } else {
            assert(nodes[n.previous as int].line <= n.previous);
        }
    }
}

/// Handles the legal break at `b`: drops the active nodes that cannot reach
/// past it, and adds, for each fitness class, a node for the best path that
/// ends a line at `b`, when its demerits are within the fitness demerit of
/// the best of all. `tw`, `ty` and `tz` are the totals of the items before `b`.
/// Returns whether any node stays active.
fn layout_breakpoint(
    cfg: &KnuthPlass,
    items: &Vec<Item>,
    lw: Fixed,
    b: usize,
    tw: Fixed,
    ty: Fixed,
    tz: Fixed,
    nodes: &mut Vec<Node>,
    active: &mut Vec<usize>,
) -> (ok: bool)
    requires
        b < items@.len(),
        is_legal_at(items@, b as int),
        arena_ok(items@, old(nodes)@),
        ratios_ok(*cfg, old(nodes)@),
        active_ok(old(nodes)@, old(active)@),
        forall|i: int| 0 < i < old(nodes)@.len() ==> (#[trigger] old(nodes)@[i]).position < b,
    ensures
        arena_ok(items@, final(nodes)@),
        ratios_ok(*cfg, final(nodes)@),
        active_ok(final(nodes)@, final(active)@),
        final(nodes)@.len() >= old(nodes)@.len(),
        forall|i: int| 0 <= i < old(nodes)@.len() ==> final(nodes)@[i] == old(nodes)@[i],
        forall|i: int| old(nodes)@.len() <= i < final(nodes)@.len() ==> (#[trigger] final(nodes)@[i]).position == b,
        is_mandatory(items@[b as int]) ==> forall|k: int| 0 <= k < final(active)@.len()
            ==> #[trigger] final(active)@[k] >= old(nodes)@.len(),
        ok == (final(active)@.len() > 0),
        (final(nodes)@, final(active)@) == breakpoint_spec(*cfg, items@, lw.val(), b as int,
            (tw.val(), ty.val(), tz.val()), old(nodes)@, old(active)@),
{
    let ghost old_len = nodes@.len();
    let ghost t = (tw.val(), ty.val(), tz.val());
    let item = &items[b];
    let mandatory = item.is_mandatory_break();
    let neg_one = Fixed::from_num(-1);
    let mut class_a: Vec<usize> = vec![0, 0, 0, 0];
    let mut class_set: Vec<bool> = vec![false, false, false, false];
    let mut class_d: Vec<Fixed> = vec![Fixed::max_value(), Fixed::max_value(), Fixed::max_value(), Fixed::max_value()];
    let mut class_r: Vec<Fixed> = vec![Fixed::from_num(0), Fixed::from_num(0), Fixed::from_num(0), Fixed::from_num(0)];
    let mut min_d = Fixed::max_value();
    let mut any = false;
    let mut kept: Vec<usize> = Vec::new();
    let mut k: usize = 0;
    while k < active.len()
        invariant
            k <= active@.len(),
            nodes@.len() == old_len,
            active_ok(nodes@, active@),
            class_a@.len() == 4 && class_set@.len() == 4 && class_d@.len() == 4 && class_r@.len() == 4,
            forall|c: int| 0 <= c < 4 ==> #[trigger] class_set@[c] ==> class_a@[c] < nodes@.len(),
            forall|c: int| 0 <= c < 4 ==> #[trigger] class_set@[c] ==>
                -(FRAC_ONE as int) <= class_r@[c].val() <= cfg.threshold.val(),
            forall|k2: int| 0 <= k2 < kept@.len() ==> (#[trigger] kept@[k2]) < nodes@.len(),
            mandatory ==> kept@.len() == 0,
            mandatory == is_mandatory(items@[b as int]),
            neg_one.val() == -(FRAC_ONE as int),
            b < items@.len(),
            arena_ok(items@, nodes@),
            nodes@ == old(nodes)@,
            active@ == old(active)@,
            *item == items@[b as int],
            t == (tw.val(), ty.val(), tz.val()),
            (Scan { class_a: class_a@, class_set: class_set@, class_d: class_d@, class_r: class_r@, min_d, any, kept: kept@ })
                == scan_spec(*cfg, items@, lw.val(), b as int, t, nodes@, active@, k as nat),
        decreases active@.len() - k,
    {
        let a = active[k];
        let ghost s0 = scan_spec(*cfg, items@, lw.val(), b as int, t, nodes@, active@, k as nat);
        let node = nodes[a];
        proof {
            if a > 0 {
                assert(node_ok(items@, nodes@, a as int));
            }
        }
        let r = item.adjustment_ratio(
            tw.saturating_sub(node.total_width),
            ty.saturating_sub(node.total_stretch),
            tz.saturating_sub(node.total_shrink),
            lw,
        );
        if !(r.lt(neg_one) || mandatory) {
            kept.push(a);
        }
        if neg_one.le(r) && r.le(cfg.threshold) {
            let (d, c) = demerits_and_fitness(cfg, items, r, &node, a == 0, b);
            let ci = c.index();
            if !class_set[ci] || d.lt(class_d[ci]) {
                class_d.set(ci, d);
                class_r.set(ci, r);
                class_a.set(ci, a);
                class_set.set(ci, true);
                any = true;
                if d.lt(min_d) {
                    min_d = d;
                }
            }
        }
        proof {
            let s1 = scan_step(*cfg, items@, lw.val(), b as int, t, nodes@, s0, a);
            assert(s1 == scan_spec(*cfg, items@, lw.val(), b as int, t, nodes@, active@, (k + 1) as nat));
            assert(s1.kept == kept@);
            assert(s1.class_a == class_a@);
            assert(s1.class_set == class_set@);
            assert(s1.class_d == class_d@);
            assert(s1.class_r == class_r@);
            assert(s1.min_d == min_d);
            assert(s1.any == any);
        }
        k = k + 1;
    }
    let ghost s = scan_spec(*cfg, items@, lw.val(), b as int, t, old(nodes)@, old(active)@, old(active)@.len());
    let ghost kept0 = kept@;
    if any {
        let (aw, ay, az) = total_after(items, b, tw, ty, tz);
        let limit = min_d.saturating_add(cfg.fitness_demerit);
        let mut ci: usize = 0;
        while ci < 4
            invariant
                ci <= 4,
                nodes@.len() >= old_len,
                arena_ok(items@, nodes@),
                ratios_ok(*cfg, nodes@),
                forall|i: int| 0 <= i < old_len ==> nodes@[i] == old(nodes)@[i],
                forall|i: int| old_len <= i < nodes@.len() ==> (#[trigger] nodes@[i]).position == b,
                forall|i: int| 0 < i < old_len ==> (#[trigger] old(nodes)@[i]).position < b,
                old_len >= 1,
                class_a@.len() == 4 && class_set@.len() == 4 && class_d@.len() == 4 && class_r@.len() == 4,
                forall|c: int| 0 <= c < 4 ==> #[trigger] class_set@[c] ==> class_a@[c] < old_len,
                forall|c: int| 0 <= c < 4 ==> #[trigger] class_set@[c] ==>
                    -(FRAC_ONE as int) <= class_r@[c].val() <= cfg.threshold.val(),
                forall|k2: int| 0 <= k2 < kept@.len() ==> (#[trigger] kept@[k2]) < nodes@.len(),
                mandatory ==> forall|k2: int| 0 <= k2 < kept@.len() ==> (#[trigger] kept@[k2]) >= old_len,
                is_legal_at(items@, b as int),
                s.class_a == class_a@ && s.class_set == class_set@ && s.class_d == class_d@ && s.class_r == class_r@,
                kept0 == s.kept,
                (nodes@, kept@) == create_spec(items@, b as int, (aw.val(), ay.val(), az.val()), s,
                    limit.val(), old(nodes)@, kept0, ci as nat),
            decreases 4 - ci,
        {
            if class_set[ci] && class_d[ci].le(limit) {
                let prev = class_a[ci];
                let pnode = nodes[prev];
                assert(pnode.line <= prev);
                let idx = nodes.len();
                let n = Node {
                    position: b,
                    line: pnode.line + 1,
                    fitness: Fitness::from_index(ci),
                    total_width: aw,
                    total_stretch: ay,
                    total_shrink: az,
                    total_demerits: class_d[ci],
                    ratio: class_r[ci],
                    previous: prev,
                };
                proof {
                    lemma_arena_push(items@, nodes@, n);
                    assert forall|i: int| 0 < i < nodes@.push(n).len() implies
                        -(FRAC_ONE as int) <= (#[trigger] nodes@.push(n)[i]).ratio.val() <= cfg.threshold.val() by {
                        if i < nodes@.len() {
                            assert(nodes@.push(n)[i] == nodes@[i]);
                        }
                    }
                }
                nodes.push(n);
                kept.push(idx);
            }
            ci = ci + 1;
        }
    }
    *active = kept;
    active.len() > 0
}

/// The absolute value of an integer.
pub open spec fn abs_int(x: int) -> int {
    if x < 0 { -x } else { x }
}

/// Whether `n1` is at least as good an end of the paragraph as `n2` when the
/// optimum has `k` lines and `q` more are asked for: its line count is closer
/// to `k + q`, or as close and closer to `k`, or both and with no more demerits.
pub open spec fn loose_le(n1: Node, n2: Node, k: int, q: int) -> bool {
    let d1 = n1.line - k;
    let d2 = n2.line - k;
    ||| abs_int(d1 - q) < abs_int(d2 - q)
    ||| (abs_int(d1 - q) == abs_int(d2 - q) && abs_int(d1) < abs_int(d2))
    ||| (abs_int(d1 - q) == abs_int(d2 - q) && abs_int(d1) == abs_int(d2)
        && n1.total_demerits.val() <= n2.total_demerits.val())
}

/// The position in `active` of the first node with the fewest demerits.
fn best_node(nodes: &Vec<Node>, active: &Vec<usize>) -> (r: usize)
    requires
        active@.len() > 0,
        active_ok(nodes@, active@),
    ensures
        r < active@.len(),
        forall|k: int| 0 <= k < active@.len() ==>
            nodes@[active@[r as int] as int].total_demerits.val() <= (#[trigger] nodes@[active@[k] as int]).total_demerits.val(),
        forall|k: int| 0 <= k < r ==>
            nodes@[active@[r as int] as int].total_demerits.val() < (#[trigger] nodes@[active@[k] as int]).total_demerits.val(),
{
    let mut best: usize = 0;
    let mut k: usize = 1;
    while k < active.len()
        invariant
            1 <= k <= active@.len(),
            best < k,
            active_ok(nodes@, active@),
            forall|k2: int| 0 <= k2 < k ==>
                nodes@[active@[best as int] as int].total_demerits.val() <= (#[trigger] nodes@[active@[k2] as int]).total_demerits.val(),
            forall|k2: int| 0 <= k2 < best ==>
                nodes@[active@[best as int] as int].total_demerits.val() < (#[trigger] nodes@[active@[k2] as int]).total_demerits.val(),
        decreases active@.len() - k,
    {
        if nodes[active[k]].total_demerits.lt(nodes[active[best]].total_demerits) {
            best = k;
        }
        k = k + 1;
    }
    best
}

/// The position in `active` of the node that ends the paragraph: with
/// looseness `q`, the first node that is at least as good as every other by
/// `loose_le`, measured from the line count of the first node with the
/// fewest demerits.
fn select_terminal(nodes: &Vec<Node>, active: &Vec<usize>, q: isize) -> (r: usize)
    requires
        active@.len() > 0,
        active_ok(nodes@, active@),
    ensures
        r < active@.len(),
        r == select_spec(nodes@, active@, q as int),
        ({
            let b = best_spec(nodes@, active@);
            forall|k: int| 0 <= k < active@.len() ==>
                loose_le(nodes@[active@[r as int] as int], #[trigger] nodes@[active@[k] as int],
                    nodes@[active@[b] as int].line as int, q as int)
        }),
{
    let best = best_node(nodes, active);
    proof {
        lemma_best_unique(nodes@, active@, best as int);
    }
    let kline = nodes[active[best]].line as i128;
    let q128 = q as i128;
    let mut sel: usize = 0;
    let mut k: usize = 1;
    while k < active.len()
        invariant
            1 <= k <= active@.len(),
            sel < k,
            active_ok(nodes@, active@),
            kline == nodes@[active@[best_spec(nodes@, active@)] as int].line as int,
            q128 == q as int,
            sel == select_upto(nodes@, active@, kline as int, q as int, k as nat),
            forall|k2: int| 0 <= k2 < k ==>
                loose_le(nodes@[active@[sel as int] as int], #[trigger] nodes@[active@[k2] as int], kline as int, q as int),
        decreases active@.len() - k,
    {
        let n1 = nodes[active[k]];
        let n0 = nodes[active[sel]];
        let d1 = n1.line as i128 - kline;
        let d0 = n0.line as i128 - kline;
        let e1 = if d1 - q128 < 0 { q128 - d1 } else { d1 - q128 };
        let e0 = if d0 - q128 < 0 { q128 - d0 } else { d0 - q128 };
        let a1 = if d1 < 0 { -d1 } else { d1 };
        let a0 = if d0 < 0 { -d0 } else { d0 };
        if e1 < e0 || (e1 == e0 && a1 < a0) || (e1 == e0 && a1 == a0 && n1.total_demerits.lt(n0.total_demerits)) {
            sel = k;
        }
        k = k + 1;
    }
    sel
}

/// The position in `active` of the first node with the fewest demerits.
pub open spec fn best_spec(nodes: Seq<Node>, active: Seq<usize>) -> int {
    choose|r: int| #[trigger] is_first_best(nodes, active, r)
}

/// Whether position `r` of `active` holds the first node with the fewest demerits.
pub open spec fn is_first_best(nodes: Seq<Node>, active: Seq<usize>, r: int) -> bool {
    &&& 0 <= r < active.len()
    &&& forall|k: int| 0 <= k < active.len() ==>
        nodes[active[r] as int].total_demerits.val() <= (#[trigger] nodes[active[k] as int]).total_demerits.val()
    &&& forall|k: int| 0 <= k < r ==>
        nodes[active[r] as int].total_demerits.val() < (#[trigger] nodes[active[k] as int]).total_demerits.val()
}

/// The first node with the fewest demerits is the one that `best_spec` picks.
proof fn lemma_best_unique(nodes: Seq<Node>, active: Seq<usize>, r: int)
    requires
        0 <= r < active.len(),
        forall|k: int| 0 <= k < active.len() ==>
            nodes[active[r] as int].total_demerits.val() <= (#[trigger] nodes[active[k] as int]).total_demerits.val(),
        forall|k: int| 0 <= k < r ==>
            nodes[active[r] as int].total_demerits.val() < (#[trigger] nodes[active[k] as int]).total_demerits.val(),
    ensures
        best_spec(nodes, active) == r,
{
    assert(is_first_best(nodes, active, r));
    let s = best_spec(nodes, active);
    if s < r {
        assert(nodes[active[r] as int].total_demerits.val() < nodes[active[s] as int].total_demerits.val());
    } else if r < s {
        assert(nodes[active[s] as int].total_demerits.val() < nodes[active[r] as int].total_demerits.val());
    }
}

/// The lines of the path that ends at node `t`, from the paragraph's start:
/// one per node on the path, each with the ratio the search accepted for it.
fn lines_to(cfg: &KnuthPlass, items: &Vec<Item>, nodes: &Vec<Node>, t: usize) -> (r: Vec<Line>)
    requires
        arena_ok(items@, nodes@),
        ratios_ok(*cfg, nodes@),
        t < nodes@.len(),
    ensures
        r@ == path_spec(nodes@, t as int),
        r@.len() == nodes@[t as int].line,
        breaks_increasing(r@),
        lines_admissible(items@, cfg.threshold.val(), r@),
        r@.len() > 0 ==> r@.last().break_at == nodes@[t as int].position,
{
    let mut chain: Vec<usize> = Vec::new();
    let mut cur = t;
    while cur != 0
        invariant
            arena_ok(items@, nodes@),
            cur < nodes@.len(),
            t < nodes@.len(),
            chain@.len() + nodes@[cur as int].line == nodes@[t as int].line,
            forall|m: int| 0 <= m < chain@.len() ==> 0 < #[trigger] chain@[m] < nodes@.len(),
            forall|m: int| 0 <= m < chain@.len() - 1 ==> chain@[m + 1] == nodes@[#[trigger] chain@[m] as int].previous,
            chain@.len() > 0 ==> nodes@[chain@.last() as int].previous == cur,
            chain@.len() > 0 ==> chain@[0] == t,
            chain@.len() == 0 ==> cur == t,
            path_spec(nodes@, t as int) == path_spec(nodes@, cur as int) + chain_lines(nodes@, chain@),
        decreases cur,
    {
        proof {
            assert(node_ok(items@, nodes@, cur as int));
        }
        let ghost old_chain = chain@;
        chain.push(cur);
        proof {
            let prev = nodes@[cur as int].previous as int;
            let l = line_of_node(nodes@[cur as int]);
            assert(chain_lines(nodes@, chain@) =~= seq![l] + chain_lines(nodes@, old_chain));
            assert(path_spec(nodes@, cur as int) == path_spec(nodes@, prev).push(l));
            assert(path_spec(nodes@, prev).push(l) + chain_lines(nodes@, old_chain)
                =~= path_spec(nodes@, prev) + chain_lines(nodes@, chain@));
        }
        cur = nodes[cur].previous;
    }
    let ghost path = path_spec(nodes@, t as int);
    proof {
        assert(path_spec(nodes@, 0) == Seq::<Line>::empty());
        assert(path =~= chain_lines(nodes@, chain@));
    }
    let mut lines: Vec<Line> = Vec::new();
    let n = chain.len();
    let mut m: usize = 0;
    while m < n
        invariant
            arena_ok(items@, nodes@),
            ratios_ok(*cfg, nodes@),
            n == chain@.len(),
            m <= n,
            lines@.len() == m,
            forall|k: int| 0 <= k < chain@.len() ==> 0 < #[trigger] chain@[k] < nodes@.len(),
            forall|k: int| 0 <= k < chain@.len() - 1 ==> chain@[k + 1] == nodes@[#[trigger] chain@[k] as int].previous,
            path == chain_lines(nodes@, chain@),
            forall|j: int| 0 <= j < m ==> #[trigger] lines@[j] == path[j],
            breaks_increasing(lines@),
            lines_admissible(items@, cfg.threshold.val(), lines@),
        decreases n - m,
    {
        let node = nodes[chain[n - 1 - m]];
        proof {
            assert(node_ok(items@, nodes@, chain@[n - 1 - m] as int));
            if m > 0 {
                assert(node_ok(items@, nodes@, chain@[n - m] as int));
                assert(chain@[n - m] == nodes@[chain@[n - 1 - m] as int].previous);
            }
        }
        let ghost old_lines = lines@;
        lines.push(Line { break_at: node.position, adjustment_ratio: node.ratio });
        proof {
            assert(lines@[m as int] == path[m as int]);
            assert forall|j: int| 0 <= j <= m implies #[trigger] lines@[j] == path[j] by {
                if j < m {
                    assert(lines@[j] == old_lines[j]);
                }
            }
            assert forall|j: int| 0 <= j < lines@.len() implies {
                let l = #[trigger] lines@[j];
                &&& is_legal_at(items@, l.break_at as int)
                &&& -(FRAC_ONE as int) <= l.adjustment_ratio.val() <= cfg.threshold.val()
            } by {
                if j < m {
                    assert(lines@[j] == old_lines[j]);
                }
            }
            assert forall|i: int, j: int| 0 <= i < j < lines@.len() implies
                #[trigger] lines@[i].break_at < #[trigger] lines@[j].break_at by {
                if j < m {
                    assert(lines@[i] == old_lines[i] && lines@[j] == old_lines[j]);
                } else {
                    assert(lines@[i] == old_lines[i]);
                    assert(old_lines[m - 1].break_at < node.position);
                    if i < m - 1 {
                        assert(old_lines[i].break_at < old_lines[m - 1].break_at);
                    }
                }
            }
        }
        m = m + 1;
    }
    proof {
        assert(lines@ =~= path);
    }
    lines
}

/// The lines that end at the nodes of `chain`, last node first.
pub open spec fn chain_lines(nodes: Seq<Node>, chain: Seq<usize>) -> Seq<Line> {
    Seq::new(chain.len(), |i: int| line_of_node(nodes[chain[chain.len() - 1 - i] as int]))
}

/// Once the search has failed it stays failed.
proof fn lemma_kp_failed_stays(cfg: KnuthPlass, items: Seq<Item>, lw: int, m: nat, n: nat)
    requires
        m <= n,
        kp_run(cfg, items, lw, m).failed,
    ensures
        kp_run(cfg, items, lw, n).failed,
    decreases n,
{
    if m < n {
        lemma_kp_failed_stays(cfg, items, lw, m, (n - 1) as nat);
    }
}

/// The optimal layout is a function of its inputs alone: equal items, width
/// and configuration give equal lines.
pub proof fn lemma_knuth_plass_deterministic(
    cfg1: KnuthPlass, items1: Seq<Item>, lw1: int,
    cfg2: KnuthPlass, items2: Seq<Item>, lw2: int,
)
    requires
        cfg1 == cfg2,
        items1 == items2,
        lw1 == lw2,
    ensures
        knuth_plass_spec(cfg1, items1, lw1) == knuth_plass_spec(cfg2, items2, lw2),
{
}

/// A search that has not failed has an active node.
pub(crate) proof fn lemma_kp_active(cfg: KnuthPlass, items: Seq<Item>, lw: int, n: nat)
    requires
        !kp_run(cfg, items, lw, n).failed,
    ensures
        kp_run(cfg, items, lw, n).active.len() > 0,
{
}

/// The node selected among the first `k` active nodes is at least as good as
/// each of them.
pub(crate) proof fn lemma_select_upto(nodes: Seq<Node>, active: Seq<usize>, kline: int, q: int, k: nat)
    requires
        1 <= k <= active.len(),
    ensures
        0 <= select_upto(nodes, active, kline, q, k) < k,
        forall|j: int| 0 <= j < k ==> loose_le(nodes[active[select_upto(nodes, active, kline, q, k)] as int],
            #[trigger] nodes[active[j] as int], kline, q),
    decreases k,
{
    if k > 1 {
        lemma_select_upto(nodes, active, kline, q, (k - 1) as nat);
    }
}

/// With looseness `q`, the search ends the paragraph at the active node whose
/// line count is closest to the optimum's `k` plus `q`; among equally close
/// ones, at the one closest to `k`; then at the one with the fewest demerits.
/// The optimum is the first active node with the fewest demerits.
pub proof fn lemma_looseness_closest(cfg: KnuthPlass, items: Seq<Item>, lw: int)
    requires
        !kp_run(cfg, items, lw, items.len()).failed,
    ensures
        ({
            let s = kp_run(cfg, items, lw, items.len());
            let sel = select_spec(s.nodes, s.active, cfg.looseness as int);
            let k = s.nodes[s.active[best_spec(s.nodes, s.active)] as int].line as int;
            &&& 0 <= sel < s.active.len()
            &&& forall|j: int| 0 <= j < s.active.len() ==>
                loose_le(s.nodes[s.active[sel] as int], #[trigger] s.nodes[s.active[j] as int], k, cfg.looseness as int)
        }),
{
    lemma_kp_active(cfg, items, lw, items.len());
    let s = kp_run(cfg, items, lw, items.len());
    let k = s.nodes[s.active[best_spec(s.nodes, s.active)] as int].line as int;
    lemma_select_upto(s.nodes, s.active, k, cfg.looseness as int, s.active.len());
}

/// Whether the line from node `a` to the break at `b` is admissible: its
/// ratio lies between −1 and the threshold.
pub open spec fn reaches(cfg: KnuthPlass, items: Seq<Item>, lw: int, a: Node, b: int, t: (int, int, int)) -> bool {
    let r = node_ratio(items, lw, a, b, t);
    -(FRAC_ONE as int) <= r && r <= cfg.threshold.val()
}

/// While scanning, a path has reached the break exactly when some scanned node
/// reaches it; then some class holds the least demerits found.
pub(crate) proof fn lemma_scan_any(cfg: KnuthPlass, items: Seq<Item>, lw: int, b: int, t: (int, int, int),
    nodes: Seq<Node>, active: Seq<usize>, k: nat)
    requires
        k <= active.len(),
    ensures
        ({
            let s = scan_spec(cfg, items, lw, b, t, nodes, active, k);
            &&& s.class_set.len() == 4 && s.class_d.len() == 4 && s.class_a.len() == 4
            &&& s.any == exists|j: int| 0 <= j < k && #[trigger] reaches(cfg, items, lw, nodes[active[j] as int], b, t)
            &&& s.any ==> exists|c: int| 0 <= c < 4 && #[trigger] s.class_set[c] && s.class_d[c] == s.min_d
        }),
    decreases k,
{
    if k > 0 {
        lemma_scan_any(cfg, items, lw, b, t, nodes, active, (k - 1) as nat);
        let s0 = scan_spec(cfg, items, lw, b, t, nodes, active, (k - 1) as nat);
        let s = scan_spec(cfg, items, lw, b, t, nodes, active, k);
        let a = active[k - 1];
        let node = nodes[a as int];
        if !s0.any {
            lemma_scan_min_untouched(cfg, items, lw, b, t, nodes, active, (k - 1) as nat);
        }
        if reaches(cfg, items, lw, node, b, t) {
            let r = node_ratio(items, lw, node, b, t);
            let c = fitness_rank(fitness_spec(r));
            let d = path_demerits_spec(cfg, items, node, a == 0, items[b], r);
            assert(d <= i32::MAX);
            if !s0.any {
                assert(!s0.class_set[c]);
                assert(s.class_set[c]);
                if d < s0.min_d.val() {
                    assert(s.class_d[c] == s.min_d);
                } else {
                    assert(s.class_d[c].val() == s.min_d.val());
                }
                assert(s.class_set[c] && s.class_d[c] == s.min_d);
            } else {
                let c0 = choose|c0: int| 0 <= c0 < 4 && #[trigger] s0.class_set[c0] && s0.class_d[c0] == s0.min_d;
                if !s0.class_set[c] || d < s0.class_d[c].val() {
                    if d < s0.min_d.val() {
                        assert(s.class_set[c] && s.class_d[c] == s.min_d);
                    } else {
                        assert(c0 != c);
                        assert(s.class_set[c0] && s.class_d[c0] == s.min_d);
                    }
                } else {
                    assert(s.class_set[c0] && s.class_d[c0] == s.min_d);
                }
            }
            assert(reaches(cfg, items, lw, nodes[active[k - 1] as int], b, t));
            assert(s.any);
        } else {
            assert forall|j: int| 0 <= j < k && #[trigger] reaches(cfg, items, lw, nodes[active[j] as int], b, t)
                implies j < k - 1 by {
            }
            assert(s.any == s0.any);
        }
        assert(s.class_set.len() == 4 && s.class_d.len() == 4 && s.class_a.len() == 4);
    } else {
        let s = scan_spec(cfg, items, lw, b, t, nodes, active, k);
        assert(s.class_set.len() == 4 && s.class_d.len() == 4 && s.class_a.len() == 4);
        assert(!s.any);
    }
}

/// Until a path reaches the break, the least demerits stay at +∞.
proof fn lemma_scan_min_untouched(cfg: KnuthPlass, items: Seq<Item>, lw: int, b: int, t: (int, int, int),
    nodes: Seq<Node>, active: Seq<usize>, k: nat)
    requires
        k <= active.len(),
        !scan_spec(cfg, items, lw, b, t, nodes, active, k).any,
    ensures
        scan_spec(cfg, items, lw, b, t, nodes, active, k).min_d.val() == i32::MAX,
        forall|c: int| 0 <= c < 4 ==> !#[trigger] scan_spec(cfg, items, lw, b, t, nodes, active, k).class_set[c],
    decreases k,
{
    if k > 0 {
        lemma_scan_min_untouched(cfg, items, lw, b, t, nodes, active, (k - 1) as nat);
    }
}

/// Node creation keeps the active nodes it was given, and adds one for a
/// class that holds a path within the limit.
proof fn lemma_create_grows(items: Seq<Item>, b: int, ta: (int, int, int), s: Scan, limit: int,
    nodes: Seq<Node>, kept: Seq<usize>, c: nat)
    requires
        c <= 4,
        s.class_set.len() == 4 && s.class_d.len() == 4 && s.class_a.len() == 4,
    ensures
        create_spec(items, b, ta, s, limit, nodes, kept, c).1.len() >= kept.len(),
        (exists|ci: int| 0 <= ci < c && #[trigger] s.class_set[ci] && s.class_d[ci].val() <= limit)
            ==> create_spec(items, b, ta, s, limit, nodes, kept, c).1.len() > 0,
    decreases c,
{
    if c > 0 {
        lemma_create_grows(items, b, ta, s, limit, nodes, kept, (c - 1) as nat);
    }
}

/// The optimal search fails only at a legal break that no active node reaches
/// with a ratio between −1 and the threshold: whenever some active path can
/// be extended to a break, the search goes on past it. (This needs a fitness
/// demerit that is not negative, so that the best class is always kept.)
pub proof fn lemma_knuth_plass_fails_only_unreachable(cfg: KnuthPlass, items: Seq<Item>, lw: int)
    requires
        cfg.fitness_demerit.val() >= 0,
        kp_run(cfg, items, lw, items.len()).failed,
    ensures
        exists|b: int| 0 <= b < items.len() && #[trigger] is_legal_at(items, b) && ({
            let s = kp_run(cfg, items, lw, b as nat);
            &&& !s.failed
            &&& forall|k: int| 0 <= k < s.active.len() ==>
                !reaches(cfg, items, lw, #[trigger] s.nodes[s.active[k] as int], b, (s.tw.val(), s.ty.val(), s.tz.val()))
        }),
{
    lemma_kp_failure_point(cfg, items, lw, items.len());
    let b = choose|b: int| 0 <= b < items.len() && !(#[trigger] kp_run(cfg, items, lw, b as nat)).failed
        && kp_run(cfg, items, lw, (b + 1) as nat).failed;
    let s = kp_run(cfg, items, lw, b as nat);
    let t = (s.tw.val(), s.ty.val(), s.tz.val());
    lemma_kp_active(cfg, items, lw, b as nat);
    assert(is_legal_at(items, b));
    lemma_scan_any(cfg, items, lw, b, t, s.nodes, s.active, s.active.len());
    let sc = scan_spec(cfg, items, lw, b, t, s.nodes, s.active, s.active.len());
    if sc.any {
        let limit = sat_add(sc.min_d.val(), cfg.fitness_demerit.val());
        let c = choose|c: int| 0 <= c < 4 && #[trigger] sc.class_set[c] && sc.class_d[c] == sc.min_d;
        assert(sc.class_d[c].val() <= limit);
        lemma_create_grows(items, b, totals_after_spec(items, b, b, t), sc, limit, s.nodes, sc.kept, 4);
        assert(false);
    }
    assert forall|k: int| 0 <= k < s.active.len() implies
        !reaches(cfg, items, lw, #[trigger] s.nodes[s.active[k] as int], b, t) by {
        if reaches(cfg, items, lw, s.nodes[s.active[k] as int], b, t) {
            assert(sc.any);
        }
    }
}

/// A failed search failed at some item, reading which it failed.
proof fn lemma_kp_failure_point(cfg: KnuthPlass, items: Seq<Item>, lw: int, n: nat)
    requires
        kp_run(cfg, items, lw, n).failed,
    ensures
        exists|b: int| 0 <= b < n && !(#[trigger] kp_run(cfg, items, lw, b as nat)).failed
            && kp_run(cfg, items, lw, (b + 1) as nat).failed,
    decreases n,
{
    if kp_run(cfg, items, lw, (n - 1) as nat).failed {
        lemma_kp_failure_point(cfg, items, lw, (n - 1) as nat);
    } else {
        assert(!kp_run(cfg, items, lw, (n - 1) as nat).failed);
    }
}

impl KnuthPlass {
    /// Lays out the paragraph with the fewest total demerits over the
    /// feasible breaks that the search keeps; an empty result means failure.
    /// Every line breaks at a legal break and carries the ratio of its own
    /// content; the breaks increase, and a well-formed paragraph's last line
    /// ends at its final item.
    pub fn layout(&self, items: &Vec<Item>, line_width: Fixed) -> (r: Vec<Line>)
        ensures
            r@ == knuth_plass_spec(*self, items@, line_width.val()),
            breaks_increasing(r@),
            lines_admissible(items@, self.threshold.val(), r@),
            well_formed(items@) && r@.len() > 0 ==> r@.last().break_at == items@.len() - 1,
    {
        let mut nodes: Vec<Node> = Vec::new();
        nodes.push(Node {
            position: 0,
            line: 0,
            fitness: Fitness::Zero,
            total_width: Fixed::from_num(0),
            total_stretch: Fixed::from_num(0),
            total_shrink: Fixed::from_num(0),
            total_demerits: Fixed::from_num(0),
            ratio: Fixed::from_num(0),
            previous: 0,
        });
        let mut active: Vec<usize> = Vec::new();
        active.push(0);
        proof {
            assert(nodes@ =~= seq![start_node()]);
            assert(active@ =~= seq![0usize]);
        }
        let mut tw = Fixed::from_num(0);
        let mut ty = Fixed::from_num(0);
        let mut tz = Fixed::from_num(0);
        let mut b: usize = 0;
        while b < items.len()
            invariant
                b <= items@.len(),
                arena_ok(items@, nodes@),
                ratios_ok(*self, nodes@),
                active_ok(nodes@, active@),
                active@.len() > 0,
                forall|i: int| 0 < i < nodes@.len() ==> (#[trigger] nodes@[i]).position < b,
                b > 0 && is_mandatory(items@[b - 1]) ==> forall|k: int| 0 <= k < active@.len() ==>
                    #[trigger] active@[k] != 0 && nodes@[active@[k] as int].position == b - 1,
                (SearchState { nodes: nodes@, active: active@, tw, ty, tz, failed: false })
                    == kp_run(*self, items@, line_width.val(), b as nat),
            decreases items@.len() - b,
        {
            let (w, y, z, legal) = legal_at(items, b);
            proof {
                if is_mandatory(items@[b as int]) {
                    assert(legal);
                }
            }
            if legal {
                let ghost old_len = nodes@.len();
                if !layout_breakpoint(self, items, line_width, b, tw, ty, tz, &mut nodes, &mut active) {
                    proof {
                        lemma_kp_failed_stays(*self, items@, line_width.val(), (b + 1) as nat, items@.len());
                    }
                    return Vec::new();
                }
                proof {
                    assert forall|i: int| 0 < i < nodes@.len() implies (#[trigger] nodes@[i]).position < b + 1 by {
                        if i >= old_len {
                            assert(nodes@[i].position == b);
                        }
                    }
                    if is_mandatory(items@[b as int]) {
                        assert forall|k: int| 0 <= k < active@.len() implies
                            #[trigger] active@[k] != 0 && nodes@[active@[k] as int].position == b by {
                            assert(active@[k] >= old_len);
                        }
                    }
                }
            }
            tw = tw.saturating_add(w);
            ty = ty.saturating_add(y);
            tz = tz.saturating_add(z);
            b = b + 1;
        }
        let sel = select_terminal(&nodes, &active, self.looseness);
        let t = active[sel];
        proof {
            if well_formed(items@) {
                assert(is_mandatory(items@[b - 1]));
                assert(active@[sel as int] != 0 && nodes@[active@[sel as int] as int].position == b - 1);
            }
        }
        let r = lines_to(self, items, &nodes, t);
        r
    }
}

impl Default for KnuthPlass {
    fn default() -> (r: KnuthPlass)
        ensures
            r.flagged_demerit.val() == 100 * FRAC_ONE,
            r.fitness_demerit.val() == 100 * FRAC_ONE,
            r.threshold.val() == FRAC_ONE as int,
            r.looseness == 0,
    {
        KnuthPlass::new()
    }
}

impl ParagraphLayout for KnuthPlass {
    open spec fn layout_spec(&self, items: Seq<Item>, line_width: int) -> Seq<Line> {
        knuth_plass_spec(*self, items, line_width)
    }

    fn layout_paragraph(&self, items: &Vec<Item>, line_width: Fixed) -> Vec<Line> {
        self.layout(items, line_width)
    }
}

} // verus!
