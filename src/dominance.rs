//! How the two strategies relate: on plain paragraphs the optimal search
//! succeeds wherever the greedy pass does.
use vstd::prelude::*;
use crate::math::{Fixed, FRAC_ONE, sat_add, sat_sub, sat_div, clamp32, div_toward_zero};
use crate::first_fit::{FirstFit, ff_run, ff_step, ff_commit, first_fit_spec, minus_one, lemma_ff_failed_stays};
use crate::{well_formed, Item, is_legal_at, width_of, stretch_of, shrink_of, break_width_of, ratio_spec, is_mandatory, pos_inf};
use crate::knuth_plass::{KnuthPlass, Node, Scan, scan_spec, scan_step, fitness_rank, fitness_spec, create_spec, totals_after_spec, node_ratio, active_ok,
    reaches, lemma_scan_any, lemma_kp_active, kp_run, breakpoint_spec, knuth_plass_spec, select_spec, select_upto,
    lemma_select_upto, path_spec, best_spec};

verus! {

/// Exact running sums of width and shrink of `items[..n]`.
pub open spec fn prefix_wz(items: Seq<Item>, n: nat) -> (int, int)
    decreases n,
{
    if n == 0 {
        (0, 0)
    } else {
        let (w, z) = prefix_wz(items, (n - 1) as nat);
        (w + width_of(items[n - 1]), z + shrink_of(items[n - 1]))
    }
}

/// A plain paragraph: widths and shrinks are not negative and their totals
/// fit the representation, penalties have no width, and every glue item
/// directly follows a box.
pub open spec fn plain(items: Seq<Item>) -> bool {
    &&& forall|i: int| 0 <= i < items.len() ==> 0 <= #[trigger] width_of(items[i]) && 0 <= shrink_of(items[i])
    &&& forall|i: int| 0 <= i < items.len() ==> #[trigger] break_width_of(items[i]) == 0
    &&& forall|i: int| 0 <= i < items.len() && (#[trigger] items[i] is Glue) ==> i > 0 && items[i - 1] is Box
    &&& prefix_wz(items, items.len()).0 <= i32::MAX
    &&& prefix_wz(items, items.len()).1 <= i32::MAX
}

/// Running sums are not negative.
proof fn lemma_prefix_nonneg(items: Seq<Item>, n: nat)
    requires
        plain(items),
        n <= items.len(),
    ensures
        0 <= prefix_wz(items, n).0,
        0 <= prefix_wz(items, n).1,
    decreases n,
{
    if n > 0 {
        lemma_prefix_nonneg(items, (n - 1) as nat);
        assert(0 <= width_of(items[n - 1]) && 0 <= shrink_of(items[n - 1]));
    }
}

/// Running sums grow with `n`.
proof fn lemma_prefix_mono(items: Seq<Item>, n: nat, m: nat)
    requires
        plain(items),
        n <= m <= items.len(),
    ensures
        prefix_wz(items, n).0 <= prefix_wz(items, m).0,
        prefix_wz(items, n).1 <= prefix_wz(items, m).1,
    decreases m,
{
    if n < m {
        lemma_prefix_mono(items, n, (m - 1) as nat);
        assert(0 <= width_of(items[m - 1]) && 0 <= shrink_of(items[m - 1]));
    }
}

/// Running sums stay between zero and the totals.
proof fn lemma_prefix_bounds(items: Seq<Item>, n: nat, m: nat)
    requires
        plain(items),
        n <= m <= items.len(),
    ensures
        0 <= prefix_wz(items, n).0 <= prefix_wz(items, m).0 <= i32::MAX,
        0 <= prefix_wz(items, n).1 <= prefix_wz(items, m).1 <= i32::MAX,
{
    lemma_prefix_nonneg(items, n);
    lemma_prefix_mono(items, n, m);
    lemma_prefix_mono(items, m, items.len());
}

/// Whether a line's ratio stays at or above −1 does not depend on its stretch.
proof fn lemma_fits_ignores_stretch(item: Item, w: int, y1: int, y2: int, z: int, lw: int)
    ensures
        (ratio_spec(item, w, y1, z, lw) >= -(FRAC_ONE as int)) == (ratio_spec(item, w, y2, z, lw) >= -(FRAC_ONE as int)),
{
    let ww = sat_add(w, break_width_of(item));
    if ww < lw {
        let d = sat_sub(lw, ww);
        assert(d >= 0);
        if y1 > 0 {
            assert(d * (FRAC_ONE as int) >= 0) by (nonlinear_arith) requires d >= 0;
            assert(div_toward_zero(d * (FRAC_ONE as int), y1) >= 0) by (nonlinear_arith)
                requires d * (FRAC_ONE as int) >= 0, y1 > 0;
        }
        if y2 > 0 {
            assert(d * (FRAC_ONE as int) >= 0) by (nonlinear_arith) requires d >= 0;
            assert(div_toward_zero(d * (FRAC_ONE as int), y2) >= 0) by (nonlinear_arith)
                requires d * (FRAC_ONE as int) >= 0, y2 > 0;
        }
    }
}

/// Past a break, the search discards nothing more of a plain paragraph:
/// no glue can come before the next box.
proof fn lemma_after_skips(items: Seq<Item>, b: int, i: int, t: (int, int, int))
    requires
        plain(items),
        0 <= b < i <= items.len(),
        !(items[i - 1] is Box),
    ensures
        totals_after_spec(items, b, i, t) == t,
    decreases items.len() - i,
{
    if i < items.len() {
        if items[i] is Glue {
            assert(items[i - 1] is Box);
        }
        if items[i] is Penalty {
            lemma_after_skips(items, b, i + 1, t);
        }
    }
}

/// What a break at `b` of a plain paragraph discards is the break item itself.
proof fn lemma_after_is_item(items: Seq<Item>, b: int, t: (int, int, int))
    requires
        plain(items),
        0 <= b < items.len(),
        !(items[b] is Box),
        i32::MIN <= t.0 <= i32::MAX,
        i32::MIN <= t.2 <= i32::MAX,
    ensures
        totals_after_spec(items, b, b, t).0 == sat_add(t.0, width_of(items[b])),
        totals_after_spec(items, b, b, t).2 == sat_add(t.2, shrink_of(items[b])),
{
    let it = items[b];
    assert(break_width_of(items[b]) == 0);
    match it {
        Item::Glue { width, stretch, shrink } => {
            lemma_after_skips(items, b, b + 1,
                (sat_add(t.0, width.val()), sat_add(t.1, stretch.val()), sat_add(t.2, shrink.val())));
        },
        Item::Penalty { .. } => {
            lemma_after_skips(items, b, b + 1, t);
        },
        Item::Box { .. } => {},
    }
}

/// The scan keeps every active node whose line to `b` is not overfull, unless
/// `b` forces a break; it keeps nothing but active nodes.
proof fn lemma_scan_kept(cfg: KnuthPlass, items: Seq<Item>, lw: int, b: int, t: (int, int, int),
    nodes: Seq<Node>, active: Seq<usize>, k: nat)
    requires
        k <= active.len(),
        active_ok(nodes, active),
    ensures
        ({
            let kept = scan_spec(cfg, items, lw, b, t, nodes, active, k).kept;
            &&& forall|m: int| 0 <= m < kept.len() ==> #[trigger] kept[m] < nodes.len()
            &&& forall|j: int| 0 <= j < k && !(node_ratio(items, lw, nodes[(#[trigger] active[j]) as int], b, t)
                < -(FRAC_ONE as int) || is_mandatory(items[b])) ==> kept.contains(active[j])
            &&& is_mandatory(items[b]) ==> kept.len() == 0
            &&& forall|c: int| 0 <= c < 4 && #[trigger] scan_spec(cfg, items, lw, b, t, nodes, active, k).class_set[c]
                ==> scan_spec(cfg, items, lw, b, t, nodes, active, k).class_a[c] < nodes.len()
        }),
    decreases k,
{
    lemma_scan_any(cfg, items, lw, b, t, nodes, active, k);
    if k > 0 {
        lemma_scan_kept(cfg, items, lw, b, t, nodes, active, (k - 1) as nat);
        lemma_scan_any(cfg, items, lw, b, t, nodes, active, (k - 1) as nat);
        let s0 = scan_spec(cfg, items, lw, b, t, nodes, active, (k - 1) as nat);
        let s1 = scan_spec(cfg, items, lw, b, t, nodes, active, k);
        let a = active[k - 1];
        assert(a < nodes.len());
        assert(s1 == scan_step(cfg, items, lw, b, t, nodes, s0, a));
        let r = node_ratio(items, lw, nodes[a as int], b, t);
        let cc = fitness_rank(fitness_spec(r));
        assert(0 <= cc < 4);
        assert forall|c: int| 0 <= c < 4 && #[trigger] s1.class_set[c] implies s1.class_a[c] < nodes.len() by {
            if s1.class_a != s0.class_a {
                assert(s1.class_a == s0.class_a.update(cc, a));
                assert(s1.class_set == s0.class_set.update(cc, true));
                if c != cc {
                    assert(s1.class_a[c] == s0.class_a[c]);
                    assert(s1.class_set[c] == s0.class_set[c]);
                }
            } else {
                if s1.class_set != s0.class_set {
                    assert(s1.class_set == s0.class_set.update(cc, true));
                    if c == cc {
                        assert(s1.class_a == s0.class_a.update(cc, a));
                        assert(s1.class_a[c] == a);
                    } else {
                        assert(s1.class_set[c] == s0.class_set[c]);
                    }
                }
            }
        }
        let k0 = s0.kept;
        let k1 = s1.kept;
        assert(k1 == k0 || k1 == k0.push(active[k - 1]));
        assert forall|j: int| 0 <= j < k && !(node_ratio(items, lw, nodes[(#[trigger] active[j]) as int], b, t)
            < -(FRAC_ONE as int) || is_mandatory(items[b])) implies k1.contains(active[j]) by {
            if j < k - 1 {
                if k1 != k0 {
                    assert(k1[k0.index_of(active[j])] == active[j]);
                }
            } else {
                assert(k1[k1.len() - 1] == active[j]);
            }
        }
    } else {
        let s0 = scan_spec(cfg, items, lw, b, t, nodes, active, 0);
        assert forall|c: int| 0 <= c < 4 implies !#[trigger] s0.class_set[c] by {
            assert(s0.class_set == seq![false, false, false, false]);
        }
    }
}

/// Node creation only appends to the arena, with nodes at `b` carrying the
/// totals after it; it keeps the active nodes it is given, and adds one for a
/// class that holds a path within the limit.
proof fn lemma_create_props(items: Seq<Item>, b: int, ta: (int, int, int), s: Scan, limit: int,
    nodes: Seq<Node>, kept: Seq<usize>, c: nat)
    requires
        c <= 4,
        nodes.len() + c <= usize::MAX,
        s.class_set.len() == 4 && s.class_d.len() == 4 && s.class_a.len() == 4,
        forall|m: int| 0 <= m < kept.len() ==> #[trigger] kept[m] < nodes.len(),
        forall|cc: int| 0 <= cc < 4 && #[trigger] s.class_set[cc] ==> s.class_a[cc] < nodes.len(),
    ensures
        ({
            let (ns, ks) = create_spec(items, b, ta, s, limit, nodes, kept, c);
            &&& nodes.len() <= ns.len() <= nodes.len() + c
            &&& forall|i: int| nodes.len() <= i < ns.len() ==> (#[trigger] ns[i]).previous < nodes.len()
            &&& kept.len() == 0 ==> forall|m: int| 0 <= m < ks.len() ==> #[trigger] ks[m] >= nodes.len()
            &&& forall|i: int| 0 <= i < nodes.len() ==> #[trigger] ns[i] == nodes[i]
            &&& forall|i: int| nodes.len() <= i < ns.len() ==> (#[trigger] ns[i]).position == b as usize
                && ns[i].total_width == (Fixed { bits: ta.0 as i32 }) && ns[i].total_shrink == (Fixed { bits: ta.2 as i32 })
            &&& forall|m: int| 0 <= m < ks.len() ==> #[trigger] ks[m] < ns.len()
            &&& forall|x: usize| kept.contains(x) ==> #[trigger] ks.contains(x)
            &&& (exists|ci: int| 0 <= ci < c && #[trigger] s.class_set[ci] && s.class_d[ci].val() <= limit)
                ==> exists|m: int| 0 <= m < ks.len() && #[trigger] ks[m] >= nodes.len()
        }),
    decreases c,
{
    if c > 0 {
        lemma_create_props(items, b, ta, s, limit, nodes, kept, (c - 1) as nat);
        let (n0, k0) = create_spec(items, b, ta, s, limit, nodes, kept, (c - 1) as nat);
        let (ns, ks) = create_spec(items, b, ta, s, limit, nodes, kept, c);
        let ci = c - 1;
        if s.class_set[ci] && s.class_d[ci].val() <= limit {
            assert(ns == n0.push(ns[n0.len() as int]));
            assert(ks == k0.push(n0.len() as usize));
            assert forall|x: usize| kept.contains(x) implies #[trigger] ks.contains(x) by {
                assert(k0.contains(x));
                assert(ks[k0.index_of(x)] == x);
            }
            assert(ks[ks.len() - 1] >= nodes.len());
            assert(ns[n0.len() as int].previous == s.class_a[ci]);
            assert forall|i: int| 0 <= i < nodes.len() implies #[trigger] ns[i] == nodes[i] by {
                assert(ns[i] == n0[i]);
            }
        } else {
            if exists|cj: int| 0 <= cj < c && #[trigger] s.class_set[cj] && s.class_d[cj].val() <= limit {
                let cj = choose|cj: int| 0 <= cj < c && #[trigger] s.class_set[cj] && s.class_d[cj].val() <= limit;
                assert(cj < ci);
            }
        }
    }
}

/// Node `x` of the arena has totals `(w, z)` of width and shrink.
pub open spec fn node_at(nodes: Seq<Node>, x: usize, w: int, z: int) -> bool {
    &&& x < nodes.len()
    &&& nodes[x as int].total_width.val() == w
    &&& nodes[x as int].total_shrink.val() == z
}

/// Some active node has totals `(w, z)` of width and shrink.
pub open spec fn has_node(nodes: Seq<Node>, active: Seq<usize>, w: int, z: int) -> bool {
    exists|x: usize| active.contains(x) && #[trigger] node_at(nodes, x, w, z)
}

/// The search's facts about a plain paragraph after `n` items.
pub open spec fn search_ok(cfg: KnuthPlass, items: Seq<Item>, lw: int, n: nat) -> bool {
    let s = kp_run(cfg, items, lw, n);
    &&& !s.failed
    &&& active_ok(s.nodes, s.active)
    &&& 1 <= s.nodes.len() <= 1 + 4 * n
    &&& s.tw.val() == prefix_wz(items, n).0
    &&& s.tz.val() == prefix_wz(items, n).1
}

/// A legal break of a plain paragraph that some active node reaches: the
/// search goes on, keeps every active node whose line is not overfull (unless
/// the break is forced), and adds a node whose totals run through the break.
proof fn lemma_kp_legal_step(cfg: KnuthPlass, items: Seq<Item>, lw: int, b: nat, x0: usize)
    requires
        plain(items),
        b < items.len(),
        4 * items.len() + 5 <= usize::MAX,
        is_legal_at(items, b as int),
        cfg.threshold.val() == pos_inf(),
        cfg.fitness_demerit.val() >= 0,
        search_ok(cfg, items, lw, b),
        kp_run(cfg, items, lw, b).active.contains(x0),
        node_ratio(items, lw, kp_run(cfg, items, lw, b).nodes[x0 as int], b as int,
            (kp_run(cfg, items, lw, b).tw.val(), kp_run(cfg, items, lw, b).ty.val(), kp_run(cfg, items, lw, b).tz.val()))
            >= -(FRAC_ONE as int),
    ensures
        search_ok(cfg, items, lw, b + 1),
        ({
            let s = kp_run(cfg, items, lw, b);
            let s1 = kp_run(cfg, items, lw, b + 1);
            let t = (s.tw.val(), s.ty.val(), s.tz.val());
            &&& forall|i: int| 0 <= i < s.nodes.len() ==> #[trigger] s1.nodes[i] == s.nodes[i]
            &&& has_node(s1.nodes, s1.active, prefix_wz(items, b + 1).0, prefix_wz(items, b + 1).1)
            &&& forall|x: usize| s.active.contains(x) && !is_mandatory(items[b as int])
                && node_ratio(items, lw, s.nodes[x as int], b as int, t) >= -(FRAC_ONE as int)
                ==> #[trigger] s1.active.contains(x)
            &&& is_mandatory(items[b as int]) ==> forall|m: int| 0 <= m < s1.active.len() ==>
                s.nodes.len() <= #[trigger] s1.active[m] && s1.nodes[s1.active[m] as int].previous < s.nodes.len()
        }),
{
    let s = kp_run(cfg, items, lw, b);
    let t = (s.tw.val(), s.ty.val(), s.tz.val());
    let bi = b as int;
    lemma_prefix_bounds(items, b, b + 1);
    let k0 = s.active.index_of(x0);
    let n0 = s.nodes[x0 as int];
    lemma_ratio_at_most_inf(items[bi], sat_sub(t.0, n0.total_width.val()), sat_sub(t.1, n0.total_stretch.val()),
        sat_sub(t.2, n0.total_shrink.val()), lw);
    assert(reaches(cfg, items, lw, s.nodes[s.active[k0] as int], bi, t));
    lemma_scan_any(cfg, items, lw, bi, t, s.nodes, s.active, s.active.len());
    lemma_scan_kept(cfg, items, lw, bi, t, s.nodes, s.active, s.active.len());
    let sc = scan_spec(cfg, items, lw, bi, t, s.nodes, s.active, s.active.len());
    assert(sc.any);
    let limit = sat_add(sc.min_d.val(), cfg.fitness_demerit.val());
    let c = choose|c: int| 0 <= c < 4 && #[trigger] sc.class_set[c] && sc.class_d[c] == sc.min_d;
    assert(sc.class_d[c].val() <= limit);
    let ta = totals_after_spec(items, bi, bi, t);
    lemma_after_is_item(items, bi, t);
    lemma_create_props(items, bi, ta, sc, limit, s.nodes, sc.kept, 4);
    let (ns, ks) = create_spec(items, bi, ta, sc, limit, s.nodes, sc.kept, 4);
    assert(breakpoint_spec(cfg, items, lw, bi, t, s.nodes, s.active) == (ns, ks));
    let s1 = kp_run(cfg, items, lw, b + 1);
    assert(s1.nodes == ns && s1.active == ks);
    let m = choose|m: int| 0 <= m < ks.len() && #[trigger] ks[m] >= s.nodes.len();
    assert(ks.contains(ks[m]));
    assert(node_at(s1.nodes, ks[m], prefix_wz(items, b + 1).0, prefix_wz(items, b + 1).1));
    assert forall|x: usize| s.active.contains(x) && !is_mandatory(items[b as int])
        && node_ratio(items, lw, s.nodes[x as int], b as int, t) >= -(FRAC_ONE as int)
        implies #[trigger] s1.active.contains(x) by {
        let j = s.active.index_of(x);
        assert(sc.kept.contains(s.active[j]));
    }
}

/// A ratio is never above the +∞ stand-in.
proof fn lemma_ratio_at_most_inf(item: Item, w: int, y: int, z: int, lw: int)
    ensures
        ratio_spec(item, w, y, z, lw) <= pos_inf(),
{
}

/// A step of the search at an item where no break is legal changes only the totals.
proof fn lemma_kp_plain_step(cfg: KnuthPlass, items: Seq<Item>, lw: int, b: nat)
    requires
        plain(items),
        b < items.len(),
        !is_legal_at(items, b as int),
        search_ok(cfg, items, lw, b),
    ensures
        search_ok(cfg, items, lw, b + 1),
        kp_run(cfg, items, lw, b + 1).nodes == kp_run(cfg, items, lw, b).nodes,
        kp_run(cfg, items, lw, b + 1).active == kp_run(cfg, items, lw, b).active,
{
    lemma_kp_active(cfg, items, lw, b);
    lemma_prefix_bounds(items, b, b + 1);
}

/// While the greedy pass has not failed on a plain paragraph, the search has
/// not failed either, and holds active nodes where the greedy pass's open line
/// starts and at its held break. The greedy pass's running totals are those of
/// its open line; subtracted from the paragraph's, they give where it starts.
pub open spec fn greedy_tracked(ff: FirstFit, kp: KnuthPlass, items: Seq<Item>, lw: int, n: nat) -> bool {
    let p = ff_run(ff, items, lw, n).0;
    let s = kp_run(kp, items, lw, n);
    let w = prefix_wz(items, n).0;
    let z = prefix_wz(items, n).1;
    !p.failed ==> {
        &&& search_ok(kp, items, lw, n)
        &&& 0 <= p.width.val() <= w
        &&& 0 <= p.shrink.val() <= z
        &&& (p.held is None || !p.held->0.is_mandatory)
            ==> has_node(s.nodes, s.active, w - p.width.val(), z - p.shrink.val())
        &&& p.held is Some ==> {
            let h = p.held->0;
            &&& 0 <= h.width.val() <= p.width.val()
            &&& 0 <= h.shrink.val() <= p.shrink.val()
            &&& has_node(s.nodes, s.active, w - p.width.val() + h.width.val(), z - p.shrink.val() + h.shrink.val())
        }
    }
}

/// The simulation goes on past an item where no break is legal.
proof fn lemma_track_plain(ff: FirstFit, kp: KnuthPlass, items: Seq<Item>, lw: int, n: nat)
    requires
        plain(items),
        n < items.len(),
        !is_legal_at(items, n as int),
        greedy_tracked(ff, kp, items, lw, n),
    ensures
        greedy_tracked(ff, kp, items, lw, n + 1),
{
    let (p, lines) = ff_run(ff, items, lw, n);
    if !p.failed {
        lemma_kp_plain_step(kp, items, lw, n);
        lemma_prefix_bounds(items, n, n + 1);
        assert(0 <= width_of(items[n as int]) && 0 <= shrink_of(items[n as int]));
        assert(ff_run(ff, items, lw, n + 1) == ff_step(ff, items, lw, p, lines, n as int));
    }
}

/// The simulation goes on past a legal break; after a forced break every
/// active node is a fresh one that ends a line.
#[verifier::rlimit(100)]
#[verifier::spinoff_prover]
proof fn lemma_track_legal(ff: FirstFit, kp: KnuthPlass, items: Seq<Item>, lw: int, n: nat)
    requires
        plain(items),
        n < items.len(),
        4 * items.len() + 5 <= usize::MAX,
        is_legal_at(items, n as int),
        ff.threshold.val() == pos_inf(),
        !ff.allow_overflow,
        kp.threshold.val() == pos_inf(),
        kp.fitness_demerit.val() >= 0,
        greedy_tracked(ff, kp, items, lw, n),
    ensures
        greedy_tracked(ff, kp, items, lw, n + 1),
        !ff_run(ff, items, lw, n + 1).0.failed && is_mandatory(items[n as int]) ==> {
            let s1 = kp_run(kp, items, lw, n + 1);
            forall|m: int| 0 <= m < s1.active.len() ==>
                0 < #[trigger] s1.active[m] && s1.nodes[s1.active[m] as int].previous < s1.active[m]
        },
{
    let (p, lines) = ff_run(ff, items, lw, n);
    let (q, lines2) = ff_run(ff, items, lw, n + 1);
    assert((q, lines2) == ff_step(ff, items, lw, p, lines, n as int));
    if !q.failed {
        let b = n as int;
        let item = items[b];
        let s = kp_run(kp, items, lw, n);
        let t = (s.tw.val(), s.ty.val(), s.tz.val());
        let w = prefix_wz(items, n).0;
        let z = prefix_wz(items, n).1;
        lemma_prefix_bounds(items, n, n + 1);
        lemma_prefix_bounds(items, n, items.len());
        assert(0 <= width_of(item) && 0 <= shrink_of(item));
        let r = ratio_spec(item, p.width.val(), p.stretch.val(), p.shrink.val(), lw);
        let (pc, lc) = ff_commit(ff, p, lines, r);
        let r2 = ratio_spec(item, pc.width.val(), pc.stretch.val(), pc.shrink.val(), lw);
        lemma_ratio_at_most_inf(item, p.width.val(), p.stretch.val(), p.shrink.val(), lw);
        assert(r2 >= minus_one());
        // the node where the line that ends here starts
        let committed = p.held is Some && (r < minus_one() || r > ff.threshold.val() || p.held->0.is_mandatory);
        let (lw0, lz0) = if !committed {
            (w - p.width.val(), z - p.shrink.val())
        } else {
            let h = p.held->0;
            (w - p.width.val() + h.width.val(), z - p.shrink.val() + h.shrink.val())
        };
        if committed {
            let h = p.held->0;
            assert(pc.width.val() == p.width.val() - h.width.val());
            assert(pc.shrink.val() == p.shrink.val() - h.shrink.val());
        } else {
            assert(p.held is None || !p.held->0.is_mandatory);
        }
        assert(has_node(s.nodes, s.active, lw0, lz0));
        let x0 = choose|x: usize| s.active.contains(x) && #[trigger] node_at(s.nodes, x, lw0, lz0);
        let nx = s.nodes[x0 as int];
        assert(sat_sub(t.0, nx.total_width.val()) == pc.width.val());
        assert(sat_sub(t.2, nx.total_shrink.val()) == pc.shrink.val());
        lemma_fits_ignores_stretch(item, pc.width.val(), pc.stretch.val(), sat_sub(t.1, nx.total_stretch.val()),
            pc.shrink.val(), lw);
        assert(node_ratio(items, lw, nx, b, t) >= -(FRAC_ONE as int));
        lemma_kp_legal_step(kp, items, lw, n, x0);
        let s1 = kp_run(kp, items, lw, n + 1);
        if !is_mandatory(item) {
            assert(s1.active.contains(x0));
            assert(s1.nodes[x0 as int] == s.nodes[x0 as int]);
            assert(node_at(s1.nodes, x0, lw0, lz0));
        }
        assert(q.width.val() == pc.width.val() + width_of(item));
        assert(q.shrink.val() == pc.shrink.val() + shrink_of(item));
        assert(prefix_wz(items, n + 1).0 == w + width_of(item));
    }
}

/// The simulation holds after every item.
proof fn lemma_track_all(ff: FirstFit, kp: KnuthPlass, items: Seq<Item>, lw: int, n: nat)
    requires
        plain(items),
        n <= items.len(),
        4 * items.len() + 5 <= usize::MAX,
        ff.threshold.val() == pos_inf(),
        !ff.allow_overflow,
        kp.threshold.val() == pos_inf(),
        kp.fitness_demerit.val() >= 0,
    ensures
        greedy_tracked(ff, kp, items, lw, n),
    decreases n,
{
    if n == 0 {
        let s = kp_run(kp, items, lw, 0);
        assert(s.active[0] == 0usize);
        assert(s.active.contains(0usize));
        assert(node_at(s.nodes, 0usize, 0, 0));
    } else {
        lemma_track_all(ff, kp, items, lw, (n - 1) as nat);
        if is_legal_at(items, n - 1) {
            lemma_track_legal(ff, kp, items, lw, (n - 1) as nat);
        } else {
            lemma_track_plain(ff, kp, items, lw, (n - 1) as nat);
        }
    }
}

/// With an infinite threshold, the optimal layout of a plain well-formed
/// paragraph finds lines whenever the greedy layout, without overflow, does;
/// whatever the looseness, as long as the fitness demerit is not negative.
/// (A plain paragraph has widths and shrinks that are not negative and fit the
/// representation in total, penalties without width, and glue only right after
/// a box: the two strategies then measure every line alike.)
pub proof fn lemma_optimal_finds_what_greedy_finds(ff: FirstFit, kp: KnuthPlass, items: Seq<Item>, lw: int)
    requires
        plain(items),
        well_formed(items),
        4 * items.len() + 5 <= usize::MAX,
        ff.threshold.val() == pos_inf(),
        !ff.allow_overflow,
        kp.threshold.val() == pos_inf(),
        kp.fitness_demerit.val() >= 0,
        first_fit_spec(ff, items, lw).len() > 0,
    ensures
        knuth_plass_spec(kp, items, lw).len() > 0,
{
    let n = items.len();
    if ff_run(ff, items, lw, (n - 1) as nat).0.failed {
        lemma_ff_failed_stays(ff, items, lw, (n - 1) as nat, n);
    }
    assert(is_legal_at(items, n - 1));
    lemma_track_all(ff, kp, items, lw, (n - 1) as nat);
    lemma_track_legal(ff, kp, items, lw, (n - 1) as nat);
    let s = kp_run(kp, items, lw, n);
    assert(!s.failed);
    let kline = s.nodes[s.active[best_spec(s.nodes, s.active)] as int].line as int;
    lemma_select_upto(s.nodes, s.active, kline, kp.looseness as int, s.active.len());
    let sel = select_spec(s.nodes, s.active, kp.looseness as int);
    let t = s.active[sel];
    assert(0 < t && s.nodes[t as int].previous < t);
    assert(path_spec(s.nodes, t as int).len() > 0);
}

} // verus!
