//! The greedy line breaker.
use vstd::prelude::*;
use crate::math::{Fixed, FRAC_ONE, sat_add, sat_sub};
use crate::{Item, Line, ParagraphLayout, legal_at, is_legal_at, width_of, stretch_of, shrink_of,
    ratio_spec, is_mandatory, well_formed, pos_inf, breaks_increasing, lines_admissible};

verus! {

/// The greedy line breaker: one pass that breaks each line as late as the
/// threshold allows, holding a single candidate break at a time.
#[derive(Clone, Copy, Debug)]
pub struct FirstFit {
    /// The largest adjustment ratio a line may have.
    pub threshold: Fixed,
    /// Whether an overfull line is kept, with ratio zero, instead of failing.
    pub allow_overflow: bool,
}

/// The candidate break held by the greedy pass. Its totals run through the
/// break item itself, so that a line cut there consumes the item: the next
/// line starts after it.
#[derive(Clone, Copy, Debug)]
pub struct Break {
    /// The width of the paragraph up to and including the break.
    pub width: Fixed,
    /// The stretch of the paragraph up to and including the break.
    pub stretch: Fixed,
    /// The shrink of the paragraph up to and including the break.
    pub shrink: Fixed,
    /// The adjustment ratio of the line that ends here.
    pub adjustment_ratio: Fixed,
    /// Whether the break is mandatory.
    pub is_mandatory: bool,
    /// The position of the break.
    pub at: usize,
}

/// The state of the greedy pass between two items: the running width,
/// stretch and shrink of the open line, the held break, and whether the
/// layout has failed.
#[derive(Clone, Copy, Debug)]
pub struct Progress {
    pub width: Fixed,
    pub stretch: Fixed,
    pub shrink: Fixed,
    pub held: Option<Break>,
    pub failed: bool,
}

/// The ratio below which a line is overfull beyond its shrink: −1.
pub open spec fn minus_one() -> int {
    -(FRAC_ONE as int)
}

/// The line that a held break ends.
pub open spec fn line_of(b: Break) -> Line {
    Line { break_at: b.at, adjustment_ratio: b.adjustment_ratio }
}

/// The state once the held break is cut, if the ratio `r` of the break at hand
/// asks for it.
pub open spec fn ff_commit(cfg: FirstFit, p: Progress, lines: Seq<Line>, r: int) -> (Progress, Seq<Line>) {
    match p.held {
        Some(h) => if r < minus_one() || r > cfg.threshold.val() || h.is_mandatory {
            (Progress {
                width: Fixed { bits: sat_sub(p.width.val(), h.width.val()) as i32 },
                stretch: Fixed { bits: sat_sub(p.stretch.val(), h.stretch.val()) as i32 },
                shrink: Fixed { bits: sat_sub(p.shrink.val(), h.shrink.val()) as i32 },
                ..p
            }, lines.push(line_of(h)))
        } else {
            (p, lines)
        },
        None => (p, lines),
    }
}

/// The state after the greedy pass has read the first `n` items.
pub open spec fn ff_run(cfg: FirstFit, items: Seq<Item>, lw: int, n: nat) -> (Progress, Seq<Line>)
    decreases n,
{
    if n == 0 {
        (Progress {
            width: Fixed { bits: 0 },
            stretch: Fixed { bits: 0 },
            shrink: Fixed { bits: 0 },
            held: None,
            failed: false,
        }, Seq::empty())
    } else {
        let (p, lines) = ff_run(cfg, items, lw, (n - 1) as nat);
        ff_step(cfg, items, lw, p, lines, (n - 1) as int)
    }
}

/// The ratio of the break at `b` once any cut that it asks for is made.
pub open spec fn ff_held_ratio(cfg: FirstFit, items: Seq<Item>, lw: int, b: int) -> int {
    let (p, lines) = ff_run(cfg, items, lw, b as nat);
    let r = ratio_spec(items[b], p.width.val(), p.stretch.val(), p.shrink.val(), lw);
    let (pc, lines_c) = ff_commit(cfg, p, lines, r);
    ratio_spec(items[b], pc.width.val(), pc.stretch.val(), pc.shrink.val(), lw)
}

/// One step of the greedy pass: the item at `b` is read.
pub open spec fn ff_step(cfg: FirstFit, items: Seq<Item>, lw: int, p: Progress, lines: Seq<Line>, b: int) -> (Progress, Seq<Line>) {
    if p.failed {
        (p, lines)
    } else {
        let item = items[b];
        let (pc, lines_c) = if is_legal_at(items, b) {
            let r = ratio_spec(item, p.width.val(), p.stretch.val(), p.shrink.val(), lw);
            let (pc, lines_c) = ff_commit(cfg, p, lines, r);
            let r2 = ratio_spec(item, pc.width.val(), pc.stretch.val(), pc.shrink.val(), lw);
            let overfull = r2 < minus_one();
            let r3 = if overfull { 0 } else { r2 };
            if (overfull && !cfg.allow_overflow) || r3 > cfg.threshold.val() {
                (Progress { failed: true, ..pc }, lines_c)
            } else {
                (Progress {
                    held: Some(Break {
                        width: Fixed { bits: sat_add(pc.width.val(), width_of(item)) as i32 },
                        stretch: Fixed { bits: sat_add(pc.stretch.val(), stretch_of(item)) as i32 },
                        shrink: Fixed { bits: sat_add(pc.shrink.val(), shrink_of(item)) as i32 },
                        adjustment_ratio: Fixed { bits: r3 as i32 },
                        is_mandatory: is_mandatory(item),
                        at: b as usize,
                    }),
                    ..pc
                }, lines_c)
            }
        } else {
            (p, lines)
        };
        if pc.failed {
            (pc, lines_c)
        } else {
            (Progress {
                width: Fixed { bits: sat_add(pc.width.val(), width_of(item)) as i32 },
                stretch: Fixed { bits: sat_add(pc.stretch.val(), stretch_of(item)) as i32 },
                shrink: Fixed { bits: sat_add(pc.shrink.val(), shrink_of(item)) as i32 },
                ..pc
            }, lines_c)
        }
    }
}

/// The lines the greedy pass gives: none if it failed, else the lines cut
/// followed by the last held break.
pub open spec fn first_fit_spec(cfg: FirstFit, items: Seq<Item>, lw: int) -> Seq<Line> {
    let (p, lines) = ff_run(cfg, items, lw, items.len());
    if p.failed {
        Seq::empty()
    } else {
        match p.held {
            Some(h) => lines.push(line_of(h)),
            None => lines,
        }
    }
}

/// Once the greedy pass has failed it stays failed.
pub(crate) proof fn lemma_ff_failed_stays(cfg: FirstFit, items: Seq<Item>, lw: int, m: nat, n: nat)
    requires
        m <= n,
        ff_run(cfg, items, lw, m).0.failed,
    ensures
        ff_run(cfg, items, lw, n).0.failed,
    decreases n,
{
    if m < n {
        lemma_ff_failed_stays(cfg, items, lw, m, (n - 1) as nat);
    }
}

/// What holds of the greedy pass's state while it has not failed: the lines cut
/// so far come in order and before the held break, which precedes the next item.
proof fn lemma_ff_ordered(cfg: FirstFit, items: Seq<Item>, lw: int, n: nat)
    requires
        n <= items.len() <= usize::MAX,
    ensures
        ({
            let (p, lines) = ff_run(cfg, items, lw, n);
            !p.failed ==> {
                &&& breaks_increasing(lines)
                &&& lines_admissible(items, cfg.threshold.val(), lines)
                &&& match p.held {
                    Some(h) => h.at < n && forall|i: int| 0 <= i < lines.len() ==> #[trigger] lines[i].break_at < h.at,
                    None => lines.len() == 0,
                }
                &&& p.held matches Some(h) ==> lines_admissible(items, cfg.threshold.val(), seq![line_of(h)])
            }
        }),
    decreases n,
{
    if n > 0 {
        lemma_ff_ordered(cfg, items, lw, (n - 1) as nat);
        let (p, lines) = ff_run(cfg, items, lw, (n - 1) as nat);
        let (q, lines2) = ff_run(cfg, items, lw, n);
        let b = (n - 1) as int;
        assert((q, lines2) == ff_step(cfg, items, lw, p, lines, b));
        if !q.failed {
            assert(!p.failed);
            if is_legal_at(items, b) {
                let r = ratio_spec(items[b], p.width.val(), p.stretch.val(), p.shrink.val(), lw);
                let (pc, lc) = ff_commit(cfg, p, lines, r);
                if let Some(h) = p.held {
                    if r < minus_one() || r > cfg.threshold.val() || h.is_mandatory {
                        assert(lc == lines.push(line_of(h)));
                        assert forall|i: int, j: int| 0 <= i < j < lc.len() implies
                            #[trigger] lc[i].break_at < #[trigger] lc[j].break_at by {
                            assert(lc[i] == lines[i]);
                        }
                        assert forall|i: int| 0 <= i < lc.len() implies #[trigger] lc[i].break_at < b by {
                            if i < lines.len() {
                                assert(lc[i] == lines[i]);
                            }
                        }
                        assert(seq![line_of(h)][0] == line_of(h));
                        assert forall|j: int| 0 <= j < lc.len() implies {
                            let l = #[trigger] lc[j];
                            &&& is_legal_at(items, l.break_at as int)
                            &&& -(FRAC_ONE as int) <= l.adjustment_ratio.val() <= cfg.threshold.val()
                        } by {
                            if j < lines.len() {
                                assert(lc[j] == lines[j]);
                            }
                        }
                    }
                }
                assert(breaks_increasing(lc));
                assert(forall|i: int| 0 <= i < lc.len() ==> #[trigger] lc[i].break_at < b);
                assert(lines2 == lc);
                assert(q.held matches Some(h) && h.at == b);
                assert(lines_admissible(items, cfg.threshold.val(), seq![line_of(q.held->0)])) by {
                    assert(seq![line_of(q.held->0)][0] == line_of(q.held->0));
                }
            }
        }
    }
}

/// The break position held after a legal break is read without failing.
proof fn lemma_ff_holds_legal(cfg: FirstFit, items: Seq<Item>, lw: int, b: nat)
    requires
        b < items.len() <= usize::MAX,
        is_legal_at(items, b as int),
        !ff_run(cfg, items, lw, b + 1).0.failed,
    ensures
        ff_run(cfg, items, lw, b + 1).0.held matches Some(h) && h.at == b,
{
    let (p, lines) = ff_run(cfg, items, lw, b);
    assert(ff_run(cfg, items, lw, b + 1) == ff_step(cfg, items, lw, p, lines, b as int));
}

/// A failed pass failed at a legal break, reading which it failed.
proof fn lemma_ff_failure_point(cfg: FirstFit, items: Seq<Item>, lw: int, n: nat)
    requires
        n <= items.len(),
        ff_run(cfg, items, lw, n).0.failed,
    ensures
        exists|b: int| 0 <= b < n && is_legal_at(items, b) && !(#[trigger] ff_run(cfg, items, lw, b as nat)).0.failed
            && ff_run(cfg, items, lw, (b + 1) as nat).0.failed,
    decreases n,
{
    if ff_run(cfg, items, lw, (n - 1) as nat).0.failed {
        lemma_ff_failure_point(cfg, items, lw, (n - 1) as nat);
    } else {
        let b = (n - 1) as int;
        assert(is_legal_at(items, b));
        assert(!ff_run(cfg, items, lw, b as nat).0.failed);
    }
}

/// A ratio is never above the +∞ stand-in.
proof fn lemma_ratio_bounded(item: Item, width: int, stretch: int, shrink: int, lw: int)
    ensures
        ratio_spec(item, width, stretch, shrink, lw) <= pos_inf(),
{
}

/// When the greedy layout of a well-formed paragraph succeeds, its breaks
/// are strictly increasing and the last is the paragraph's final item.
pub proof fn lemma_first_fit_breaks_ordered(cfg: FirstFit, items: Seq<Item>, lw: int)
    requires
        well_formed(items),
        items.len() <= usize::MAX,
        first_fit_spec(cfg, items, lw).len() > 0,
    ensures
        breaks_increasing(first_fit_spec(cfg, items, lw)),
        first_fit_spec(cfg, items, lw).last().break_at == items.len() - 1,
{
    let n = items.len();
    lemma_ff_ordered(cfg, items, lw, n);
    assert(is_legal_at(items, n - 1));
    lemma_ff_holds_legal(cfg, items, lw, (n - 1) as nat);
    let (p, lines) = ff_run(cfg, items, lw, n);
    let h = p.held->0;
    let r = first_fit_spec(cfg, items, lw);
    assert(r == lines.push(line_of(h)));
    assert forall|i: int, j: int| 0 <= i < j < r.len() implies #[trigger] r[i].break_at < #[trigger] r[j].break_at by {
        if j < lines.len() {
            assert(r[i] == lines[i] && r[j] == lines[j]);
        } else {
            assert(r[i] == lines[i]);
        }
    }
}

/// With an infinite threshold, the greedy layout of a well-formed paragraph
/// fails only when overflow is disallowed and some held break is overfull: its
/// ratio, once the cut it asks for is made, is below −1.
pub proof fn lemma_first_fit_unbounded_fails_only_overfull(cfg: FirstFit, items: Seq<Item>, lw: int)
    requires
        well_formed(items),
        items.len() <= usize::MAX,
        cfg.threshold.val() == pos_inf(),
        first_fit_spec(cfg, items, lw).len() == 0,
    ensures
        !cfg.allow_overflow,
        exists|b: int| #[trigger] is_legal_at(items, b) && !ff_run(cfg, items, lw, b as nat).0.failed
            && ff_held_ratio(cfg, items, lw, b) < minus_one(),
{
    let n = items.len();
    let (p, lines) = ff_run(cfg, items, lw, n);
    if !p.failed {
        assert(is_legal_at(items, n - 1));
        lemma_ff_holds_legal(cfg, items, lw, (n - 1) as nat);
        assert(first_fit_spec(cfg, items, lw).len() > 0);
    }
    lemma_ff_failure_point(cfg, items, lw, n);
    let b = choose|b: int| 0 <= b < n && is_legal_at(items, b) && !(#[trigger] ff_run(cfg, items, lw, b as nat)).0.failed
        && ff_run(cfg, items, lw, (b + 1) as nat).0.failed;
    let (q, l) = ff_run(cfg, items, lw, b as nat);
    let r = ratio_spec(items[b], q.width.val(), q.stretch.val(), q.shrink.val(), lw);
    let (pc, lc) = ff_commit(cfg, q, l, r);
    lemma_ratio_bounded(items[b], pc.width.val(), pc.stretch.val(), pc.shrink.val(), lw);
    assert(ff_held_ratio(cfg, items, lw, b) < minus_one());
}

/// The greedy layout is a function of its inputs alone: equal items, width
/// and configuration give equal lines.
pub proof fn lemma_first_fit_deterministic(
    cfg1: FirstFit, items1: Seq<Item>, lw1: int,
    cfg2: FirstFit, items2: Seq<Item>, lw2: int,
)
    requires
        cfg1 == cfg2,
        items1 == items2,
        lw1 == lw2,
    ensures
        first_fit_spec(cfg1, items1, lw1) == first_fit_spec(cfg2, items2, lw2),
{
}

/// With an infinite threshold and overflow allowed, the greedy layout of a
/// well-formed paragraph never fails.
pub proof fn lemma_first_fit_unbounded_overflow_never_fails(cfg: FirstFit, items: Seq<Item>, lw: int)
    requires
        well_formed(items),
        items.len() <= usize::MAX,
        cfg.threshold.val() == pos_inf(),
        cfg.allow_overflow,
    ensures
        first_fit_spec(cfg, items, lw).len() > 0,
{
    if first_fit_spec(cfg, items, lw).len() == 0 {
        lemma_first_fit_unbounded_fails_only_overfull(cfg, items, lw);
    }
}

/// With an infinite threshold and overflow disallowed, the greedy layout of a
/// well-formed paragraph fails exactly when some legal break, reached before
/// any failure, is overfull once held: its ratio is below −1.
pub proof fn lemma_first_fit_unbounded_fails_iff_overfull(cfg: FirstFit, items: Seq<Item>, lw: int)
    requires
        well_formed(items),
        items.len() <= usize::MAX,
        cfg.threshold.val() == pos_inf(),
        !cfg.allow_overflow,
    ensures
        (first_fit_spec(cfg, items, lw).len() == 0) == (exists|b: int| 0 <= b < items.len()
            && #[trigger] is_legal_at(items, b) && !ff_run(cfg, items, lw, b as nat).0.failed
            && ff_held_ratio(cfg, items, lw, b) < minus_one()),
{
    if first_fit_spec(cfg, items, lw).len() == 0 {
        lemma_first_fit_unbounded_fails_only_overfull(cfg, items, lw);
    }
    if exists|b: int| 0 <= b < items.len() && #[trigger] is_legal_at(items, b)
        && !ff_run(cfg, items, lw, b as nat).0.failed && ff_held_ratio(cfg, items, lw, b) < minus_one() {
        let b = choose|b: int| 0 <= b < items.len() && #[trigger] is_legal_at(items, b)
            && !ff_run(cfg, items, lw, b as nat).0.failed && ff_held_ratio(cfg, items, lw, b) < minus_one();
        let (p, lines) = ff_run(cfg, items, lw, b as nat);
        assert(ff_run(cfg, items, lw, (b + 1) as nat) == ff_step(cfg, items, lw, p, lines, b));
        assert(ff_run(cfg, items, lw, (b + 1) as nat).0.failed);
        lemma_ff_failed_stays(cfg, items, lw, (b + 1) as nat, items.len());
    }
}

/// Every line of the greedy layout breaks at a legal break, with a ratio
/// between −1 and the threshold (an overfull line kept by overflow has ratio 0).
pub proof fn lemma_first_fit_lines_admissible(cfg: FirstFit, items: Seq<Item>, lw: int)
    requires
        items.len() <= usize::MAX,
    ensures
        lines_admissible(items, cfg.threshold.val(), first_fit_spec(cfg, items, lw)),
{
    lemma_ff_ordered(cfg, items, lw, items.len());
    let (p, lines) = ff_run(cfg, items, lw, items.len());
    let r = first_fit_spec(cfg, items, lw);
    if !p.failed {
        if let Some(h) = p.held {
            assert(r == lines.push(line_of(h)));
            assert(seq![line_of(h)][0] == line_of(h));
            assert forall|j: int| 0 <= j < r.len() implies {
                let l = #[trigger] r[j];
                &&& is_legal_at(items, l.break_at as int)
                &&& -(FRAC_ONE as int) <= l.adjustment_ratio.val() <= cfg.threshold.val()
            } by {
                if j < lines.len() {
                    assert(r[j] == lines[j]);
                }
            }
        }
    }
}

impl FirstFit {
    /// A greedy layout with threshold 1 that does not allow overfull lines.
    pub fn new() -> (r: FirstFit)
        ensures
            r.threshold.val() == FRAC_ONE as int,
            !r.allow_overflow,
    {
        FirstFit { threshold: Fixed::from_num(1), allow_overflow: false }
    }

    /// Sets the largest adjustment ratio a line may have.
    pub fn with_threshold(self, threshold: Fixed) -> (r: FirstFit)
        ensures
            r.threshold == threshold,
            r.allow_overflow == self.allow_overflow,
    {
        FirstFit { threshold, ..self }
    }

    /// Sets whether an overfull line is kept, with ratio zero, instead of failing.
    pub fn allow_overflow(self, allow_overflow: bool) -> (r: FirstFit)
        ensures
            r.threshold == self.threshold,
            r.allow_overflow == allow_overflow,
    {
        FirstFit { allow_overflow, ..self }
    }

    /// Lays out the paragraph greedily; an empty result means failure.
    pub fn layout(&self, items: &Vec<Item>, line_width: Fixed) -> (r: Vec<Line>)
        ensures
            r@ == first_fit_spec(*self, items@, line_width.val()),
            lines_admissible(items@, self.threshold.val(), r@),
            well_formed(items@) && r@.len() > 0 ==> breaks_increasing(r@) && r@.last().break_at == items@.len() - 1,
    {
        let mut p = Progress {
            width: Fixed::from_num(0),
            stretch: Fixed::from_num(0),
            shrink: Fixed::from_num(0),
            held: None,
            failed: false,
        };
        let mut lines: Vec<Line> = Vec::new();
        let neg_one = Fixed::from_num(-1);
        let zero = Fixed::from_num(0);
        let mut b: usize = 0;
        while b < items.len()
            invariant
                b <= items@.len(),
                (p, lines@) == ff_run(*self, items@, line_width.val(), b as nat),
                !p.failed,
                neg_one.val() == minus_one(),
                zero.val() == 0,
            decreases items@.len() - b,
        {
            let item = &items[b];
            let (width, stretch, shrink, is_legal) = legal_at(items, b);
            if is_legal {
                let r = item.adjustment_ratio(p.width, p.stretch, p.shrink, line_width);
                match p.held {
                    Some(h) => {
                        if r.lt(neg_one) || self.threshold.lt(r) || h.is_mandatory {
                            lines.push(Line { break_at: h.at, adjustment_ratio: h.adjustment_ratio });
                            p.width = p.width.saturating_sub(h.width);
                            p.stretch = p.stretch.saturating_sub(h.stretch);
                            p.shrink = p.shrink.saturating_sub(h.shrink);
                        }
                    },
                    None => {},
                }
                let r2 = item.adjustment_ratio(p.width, p.stretch, p.shrink, line_width);
                let r3 = if r2.lt(neg_one) {
                    if !self.allow_overflow {
                        proof {
                            lemma_ff_failed_stays(*self, items@, line_width.val(), (b + 1) as nat, items@.len());
                        }
                        return Vec::new();
                    }
                    zero
                } else {
                    r2
                };
                if self.threshold.lt(r3) {
                    proof {
                        lemma_ff_failed_stays(*self, items@, line_width.val(), (b + 1) as nat, items@.len());
                    }
                    return Vec::new();
                }
                p.held = Some(Break {
                    width: p.width.saturating_add(width),
                    stretch: p.stretch.saturating_add(stretch),
                    shrink: p.shrink.saturating_add(shrink),
                    adjustment_ratio: r3,
                    is_mandatory: item.is_mandatory_break(),
                    at: b,
                });
            }
            p.width = p.width.saturating_add(width);
            p.stretch = p.stretch.saturating_add(stretch);
            p.shrink = p.shrink.saturating_add(shrink);
            b = b + 1;
        }
        match p.held {
            Some(h) => lines.push(Line { break_at: h.at, adjustment_ratio: h.adjustment_ratio }),
            None => {},
        }
        proof {
            lemma_first_fit_lines_admissible(*self, items@, line_width.val());
            if well_formed(items@) && lines@.len() > 0 {
                lemma_first_fit_breaks_ordered(*self, items@, line_width.val());
            }
        }
        lines
    }
}

impl Default for FirstFit {
    fn default() -> (r: FirstFit)
        ensures
            r.threshold.val() == FRAC_ONE as int,
            !r.allow_overflow,
    {
        FirstFit::new()
    }
}

impl ParagraphLayout for FirstFit {
    open spec fn layout_spec(&self, items: Seq<Item>, line_width: int) -> Seq<Line> {
        first_fit_spec(*self, items, line_width)
    }

    fn layout_paragraph(&self, items: &Vec<Item>, line_width: Fixed) -> Vec<Line> {
        self.layout(items, line_width)
    }
}

} // verus!
