//! Outline of a piece: contiguous line groups sharing one border width,
//! chosen by dynamic programming to minimise the outlined area.
use vstd::prelude::*;
use super::types::{Piece, line_widths};

verus! {

/// A contiguous group of lines sharing one border width.
#[derive(Debug, Clone, Copy)]
pub struct OutlineGroup {
    /// First line of the group.
    pub start: usize,
    /// Last line of the group (inclusive).
    pub end: usize,
    pub border_width: usize,
}

pub open spec fn max_nat(a: nat, b: nat) -> nat {
    if a >= b { a } else { b }
}

/// The largest of `w[j..m]` (0 for an empty range).
pub open spec fn gmax(w: Seq<usize>, j: int, m: int) -> nat
    decreases m - j,
{
    if j >= m || j < 0 {
        0
    } else {
        max_nat(w[j] as nat, gmax(w, j + 1, m))
    }
}

/// The cost of one group holding lines `j..m`: its padded area, plus one
/// step row of its width when it is not the first group.
pub open spec fn gcost(w: Seq<usize>, j: int, m: int) -> nat {
    gmax(w, j, m) * ((m - j) as nat) + if j > 0 { gmax(w, j, m) } else { 0 }
}

/// The least cost of outlining the first `m` lines (`best`), and the least
/// cost over the candidate last groups `j..m` for `j` in `k..m` (`min_cand`).
pub open spec fn best(w: Seq<usize>, m: int) -> nat
    decreases m, m + 1,
{
    if m <= 0 {
        0
    } else {
        min_cand(w, m, 0)
    }
}

pub open spec fn min_cand(w: Seq<usize>, m: int, k: int) -> nat
    decreases m, m - k,
{
    if m <= 0 || k < 0 {
        0
    } else if k >= m - 1 {
        best(w, m - 1) + gcost(w, m - 1, m)
    } else {
        let here = best(w, k) + gcost(w, k, m);
        let rest = min_cand(w, m, k + 1);
        if here < rest {
            here
        } else {
            rest
        }
    }
}

/// The start of the last group in an optimal outline of the first `m` lines,
/// searching `k..m`: the largest start of least cost.
pub open spec fn arg_cand(w: Seq<usize>, m: int, k: int) -> int
    decreases m - k,
{
    if k >= m - 1 {
        m - 1
    } else if best(w, k) + gcost(w, k, m) < min_cand(w, m, k + 1) {
        k
    } else {
        arg_cand(w, m, k + 1)
    }
}

pub open spec fn choice(w: Seq<usize>, m: int) -> int {
    arg_cand(w, m, 0)
}

/// The border width of group `j..m`: its widest line, at least 1.
pub open spec fn border(w: Seq<usize>, j: int, m: int) -> nat {
    max_nat(gmax(w, j, m), 1)
}

/// The optimal outline of the first `m` lines, first group first.
pub open spec fn outline_of(w: Seq<usize>, m: int) -> Seq<OutlineGroup>
    decreases m,
{
    if m <= 0 {
        Seq::empty()
    } else {
        let s = choice(w, m);
        if 0 <= s < m {
            outline_of(w, s).push(
                OutlineGroup { start: s as usize, end: (m - 1) as usize, border_width: border(w, s, m) as usize },
            )
        } else {
            Seq::empty()
        }
    }
}

/// Lines `0..n` split into contiguous, non-empty groups given as
/// `(first, last)` pairs, in order.
pub open spec fn is_partition(gs: Seq<(int, int)>, n: int) -> bool {
    &&& n == 0 ==> gs.len() == 0
    &&& n > 0 ==> gs.len() > 0 && gs[0].0 == 0 && gs.last().1 == n - 1
    &&& forall|k: int| 0 <= k < gs.len() ==> #[trigger] gs[k].0 <= gs[k].1
    &&& forall|k: int| 0 < k < gs.len() ==> #[trigger] gs[k].0 == gs[k - 1].1 + 1
}

/// The cost of outlining with the given groups.
pub open spec fn partition_cost(w: Seq<usize>, gs: Seq<(int, int)>) -> nat
    decreases gs.len(),
{
    if gs.len() == 0 {
        0
    } else {
        partition_cost(w, gs.drop_last()) + gcost(w, gs.last().0, gs.last().1 + 1)
    }
}

pub open spec fn group_bounds(gs: Seq<OutlineGroup>) -> Seq<(int, int)> {
    gs.map_values(|g: OutlineGroup| (g.start as int, g.end as int))
}

/// Widths small enough that no cost overflows a `usize`.
pub open spec fn widths_fit(w: Seq<usize>) -> bool {
    gmax(w, 0, w.len() as int) * (w.len() + 1) <= usize::MAX
}

proof fn lemma_min_cand_le(w: Seq<usize>, m: int, k: int, j: int)
    requires
        0 <= k <= j < m,
    ensures
        min_cand(w, m, k) <= best(w, j) + gcost(w, j, m),
    decreases m - k,
{
    if k < m - 1 && k < j {
        lemma_min_cand_le(w, m, k + 1, j);
    }
}

proof fn lemma_arg_cand(w: Seq<usize>, m: int, k: int)
    requires
        0 <= k < m,
    ensures
        k <= arg_cand(w, m, k) < m,
        best(w, arg_cand(w, m, k)) + gcost(w, arg_cand(w, m, k), m) == min_cand(w, m, k),
    decreases m - k,
{
    if k < m - 1 {
        lemma_arg_cand(w, m, k + 1);
    }
}

proof fn lemma_gmax_sub(w: Seq<usize>, j: int, m: int, j2: int, m2: int)
    requires
        0 <= j2 <= j,
        m <= m2 <= w.len(),
    ensures
        gmax(w, j, m) <= gmax(w, j2, m2),
    decreases m2 - j2,
{
    if j >= m {
    } else if j2 < j {
        lemma_gmax_sub(w, j, m, j2 + 1, m2);
    } else if j < m {
        if m < m2 {
            lemma_gmax_drop_right(w, j, m2);
            lemma_gmax_sub(w, j, m, j, m2 - 1);
        }
    }
}

proof fn lemma_gmax_drop_right(w: Seq<usize>, j: int, m: int)
    requires
        0 <= j < m <= w.len(),
    ensures
        gmax(w, j, m - 1) <= gmax(w, j, m),
        gmax(w, j, m) == max_nat(gmax(w, j, m - 1), w[m - 1] as nat),
    decreases m - j,
{
    if j < m - 1 {
        lemma_gmax_drop_right(w, j + 1, m);
        assert(gmax(w, j, m - 1) == max_nat(w[j] as nat, gmax(w, j + 1, m - 1)));
    } else {
        assert(gmax(w, j + 1, m) == 0);
        assert(gmax(w, j, m - 1) == 0);
    }
}

proof fn lemma_gmax_le_usize(w: Seq<usize>, j: int, m: int)
    ensures
        gmax(w, j, m) <= usize::MAX,
    decreases m - j,
{
    if 0 <= j < m {
        lemma_gmax_le_usize(w, j + 1, m);
    }
}

proof fn lemma_best_bound(w: Seq<usize>, m: int)
    requires
        0 <= m,
    ensures
        best(w, m) <= gmax(w, 0, m) * (m as nat),
{
    if m > 0 {
        lemma_min_cand_le(w, m, 0, 0);
    }
}

/// The cost of the optimal outline is `best`, and its groups partition the lines.
pub proof fn lemma_outline_of(w: Seq<usize>, m: int)
    requires
        0 <= m <= usize::MAX,
    ensures
        is_partition(group_bounds(outline_of(w, m)), m),
        partition_cost(w, group_bounds(outline_of(w, m))) == best(w, m),
        forall|k: int|
            0 <= k < outline_of(w, m).len() ==> #[trigger] outline_of(w, m)[k].border_width
                == border(w, outline_of(w, m)[k].start as int, outline_of(w, m)[k].end + 1),
        forall|k: int|
            0 <= k < outline_of(w, m).len() ==> (#[trigger] outline_of(w, m)[k]).end < m,
    decreases m,
{
    if m > 0 {
        lemma_arg_cand(w, m, 0);
        let s = choice(w, m);
        lemma_outline_of(w, s);
        lemma_gmax_le_usize(w, s, m);
        let prev = outline_of(w, s);
        let cur = outline_of(w, m);
        let g = OutlineGroup { start: s as usize, end: (m - 1) as usize, border_width: border(w, s, m) as usize };
        assert(cur == prev.push(g));
        assert(group_bounds(cur).drop_last() =~= group_bounds(prev));
        assert(group_bounds(cur) =~= group_bounds(prev).push((s, m - 1)));
        let gb = group_bounds(cur);
        assert forall|k: int| 0 < k < gb.len() implies #[trigger] gb[k].0 == gb[k - 1].1 + 1 by {
            if k < gb.len() - 1 {
                assert(gb[k] == group_bounds(prev)[k]);
                assert(gb[k - 1] == group_bounds(prev)[k - 1]);
            } else if s > 0 {
                assert(gb[k - 1] == group_bounds(prev)[k - 1]);
            }
        }
        assert forall|k: int| 0 <= k < gb.len() implies #[trigger] gb[k].0 <= gb[k].1 by {
            if k < gb.len() - 1 {
                assert(gb[k] == group_bounds(prev)[k]);
            }
        }
        if s == 0 {
            assert(prev.len() == 0);
        }
    }
}

/// The optimal outline is optimal: no partition of the lines into
/// contiguous groups costs less than `best`.
pub proof fn lemma_best_is_least(w: Seq<usize>, gs: Seq<(int, int)>, n: int)
    requires
        0 <= n,
        is_partition(gs, n),
    ensures
        best(w, n) <= partition_cost(w, gs),
    decreases gs.len(),
{
    if gs.len() > 0 {
        let last = gs.last();
        let rest = gs.drop_last();
        assert(last.1 == n - 1);
        if gs.len() == 1 {
            assert(last.0 == 0);
            assert(rest.len() == 0);
        } else {
            assert(is_partition(rest, last.0)) by {
                assert(rest.last() == gs[gs.len() - 2]);
                assert(gs[gs.len() - 1].0 == gs[gs.len() - 2].1 + 1);
                assert forall|k: int| 0 <= k < rest.len() implies #[trigger] rest[k].0 <= rest[k].1 by {
                    assert(rest[k] == gs[k]);
                }
                assert forall|k: int| 0 < k < rest.len() implies #[trigger] rest[k].0 == rest[k - 1].1 + 1 by {
                    assert(rest[k] == gs[k]);
                    assert(rest[k - 1] == gs[k - 1]);
                }
                // the first group starts at 0 and starts never decrease
                lemma_partition_starts(gs, gs.len() - 1);
            }
        }
        lemma_partition_starts(gs, gs.len() - 1);
        lemma_best_is_least(w, rest, last.0);
        lemma_min_cand_le(w, n, 0, last.0);
    }
}

proof fn lemma_partition_starts(gs: Seq<(int, int)>, k: int)
    requires
        gs.len() > 0,
        gs[0].0 == 0,
        0 <= k < gs.len(),
        forall|i: int| 0 <= i < gs.len() ==> #[trigger] gs[i].0 <= gs[i].1,
        forall|i: int| 0 < i < gs.len() ==> #[trigger] gs[i].0 == gs[i - 1].1 + 1,
    ensures
        0 <= gs[k].0,
        k > 0 ==> gs[k].0 > 0,
    decreases k,
{
    if k > 0 {
        lemma_partition_starts(gs, k - 1);
        assert(gs[k].0 == gs[k - 1].1 + 1);
        assert(gs[k - 1].0 <= gs[k - 1].1);
    }
}

/// The DP table: `dp[i]` is the least cost of the first `i + 1` lines and
/// `choice[i]` the start of the last group in it.
fn compute_dp(widths: &Vec<usize>) -> (res: (Vec<usize>, Vec<usize>))
    requires
        widths_fit(widths@),
    ensures
        res.0.len() == widths.len(),
        res.1.len() == widths.len(),
        forall|i: int| 0 <= i < widths.len() ==> #[trigger] res.0[i] == best(widths@, i + 1),
        forall|i: int| 0 <= i < widths.len() ==> #[trigger] res.1[i] == choice(widths@, i + 1),
{
    let ghost w = widths@;
    let n = widths.len();
    let ghost bound = gmax(w, 0, n as int) * ((n + 1) as nat);
    let mut dp: Vec<usize> = Vec::new();
    let mut choice_v: Vec<usize> = Vec::new();
    let mut i: usize = 0;
    while i < n
        invariant
            n == widths.len(),
            w == widths@,
            widths_fit(w),
            bound == gmax(w, 0, n as int) * ((n + 1) as nat),
            i <= n,
            dp.len() == i,
            choice_v.len() == i,
            forall|k: int| 0 <= k < i ==> #[trigger] dp[k] == best(w, k + 1),
            forall|k: int| 0 <= k < i ==> #[trigger] choice_v[k] == choice(w, k + 1),
        decreases n - i,
    {
        let m: Ghost<int> = Ghost(i + 1);
        let mut cur: usize = usize::MAX;
        let mut cur_choice: usize = 0;
        let mut group_max: usize = 0;
        let mut j: usize = i + 1;
        while j > 0
            invariant
                n == widths.len(),
                w == widths@,
                widths_fit(w),
                bound == gmax(w, 0, n as int) * ((n + 1) as nat),
                i < n,
                m@ == i + 1,
                j <= i + 1,
                dp.len() == i,
                forall|k: int| 0 <= k < i ==> #[trigger] dp[k] == best(w, k + 1),
                group_max == gmax(w, j as int, m@),
                j == i + 1 ==> cur == usize::MAX,
                j <= i ==> cur == min_cand(w, m@, j as int),
                j <= i ==> (cur < usize::MAX ==> cur_choice == arg_cand(w, m@, j as int)),
            decreases j,
        {
            j -= 1;
            proof {
                lemma_gmax_sub(w, j as int, m@, 0, n as int);
            }
            if widths[j] > group_max {
                group_max = widths[j];
            }
            let ghost gm = gmax(w, j as int, m@);
            assert(group_max == gm);
            proof {
                assert(gm <= gmax(w, 0, n as int));
                assert(gm * ((i - j + 1) as nat) + gm <= gmax(w, 0, n as int) * ((n + 1) as nat)) by (nonlinear_arith)
                    requires
                        gm <= gmax(w, 0, n as int),
                        j <= i < n,
                ;
            }
            let group_area = group_max * (i - j + 1);
            let step_cost = if j > 0 { group_max } else { 0 };
            let prev_cost = if j > 0 { dp[j - 1] } else { 0 };
            proof {
                if j > 0 {
                    lemma_best_bound(w, j as int);
                    lemma_gmax_sub(w, 0, j as int, 0, n as int);
                    let a = gmax(w, 0, j as int);
                    let b = gmax(w, 0, n as int);
                    assert(a * (j as nat) + gm * ((i - j + 1) as nat) + gm <= b * ((n + 1) as nat)) by (nonlinear_arith)
                        requires
                            a <= b,
                            gm <= b,
                            0 < j <= i < n,
                    ;
                    assert(a * (j as nat) < b * ((n + 1) as nat) || b == 0) by (nonlinear_arith)
                        requires
                            a <= b,
                            0 < j <= i < n,
                    ;
                }
            }
            if prev_cost == usize::MAX {
                continue;
            }
            let total = prev_cost + group_area + step_cost;
            assert(total == best(w, j as int) + gcost(w, j as int, m@));
            if total < cur {
                cur = total;
                cur_choice = j;
            }
        }
        proof {
            lemma_min_cand_le(w, m@, 0, 0);
            lemma_gmax_sub(w, 0, m@, 0, n as int);
            let g = gmax(w, 0, m@);
            let b = gmax(w, 0, n as int);
            assert(g * (m@ as nat) < b * ((n + 1) as nat) || b == 0) by (nonlinear_arith)
                requires
                    g <= b,
                    0 < m@ <= n,
            ;
            if b == 0 {
                assert(g == 0);
                assert(g * (m@ as nat) == 0) by (nonlinear_arith)
                    requires
                        g == 0,
                ;
            }
            assert(cur < usize::MAX);
        }
        dp.push(cur);
        choice_v.push(cur_choice);
        i += 1;
    }
    (dp, choice_v)
}

/// Reads the groups back from the choice table, first group first.
fn backtrack_groups(widths: &Vec<usize>, choice_v: &Vec<usize>) -> (gs: Vec<OutlineGroup>)
    requires
        choice_v.len() == widths.len(),
        forall|i: int| 0 <= i < widths.len() ==> #[trigger] choice_v[i] == choice(widths@, i + 1),
    ensures
        gs@ == outline_of(widths@, widths.len() as int),
{
    let ghost w = widths@;
    let n = widths.len();
    let mut rev: Vec<OutlineGroup> = Vec::new();
    let mut i: usize = n;
    while i > 0
        invariant
            w == widths@,
            n == widths.len(),
            i <= n,
            choice_v.len() == n,
            forall|k: int| 0 <= k < n ==> #[trigger] choice_v[k] == choice(w, k + 1),
            outline_of(w, n as int) == outline_of(w, i as int) + rev@.reverse(),
        decreases i,
    {
        proof {
            lemma_arg_cand(w, i as int, 0);
        }
        let start = choice_v[i - 1];
        let end = i - 1;
        let mut bw: usize = 0;
        let mut k: usize = i;
        while k > start
            invariant
                w == widths@,
                start < i <= n,
                n == widths.len(),
                start <= k <= i,
                bw == gmax(w, k as int, i as int),
            decreases k,
        {
            k -= 1;
            if widths[k] > bw {
                bw = widths[k];
            }
        }
        if bw < 1 {
            bw = 1;
        }
        let g = OutlineGroup { start, end, border_width: bw };
        proof {
            assert(outline_of(w, i as int) == outline_of(w, start as int).push(g));
            assert(rev@.push(g).reverse() =~= seq![g] + rev@.reverse());
        }
        rev.push(g);
        i = start;
    }
    assert(outline_of(w, 0) =~= Seq::<OutlineGroup>::empty());
    let mut gs: Vec<OutlineGroup> = Vec::new();
    let mut k: usize = rev.len();
    while k > 0
        invariant
            k <= rev.len(),
            gs@ == rev@.skip(k as int).reverse(),
        decreases k,
    {
        k -= 1;
        proof {
            assert(rev@.skip(k as int) =~= seq![rev@[k as int]] + rev@.skip(k + 1));
            assert(rev@.skip(k as int).reverse() =~= rev@.skip(k + 1).reverse().push(rev@[k as int]));
        }
        gs.push(rev[k]);
    }
    assert(rev@.skip(0) =~= rev@);
    assert(outline_of(w, n as int) =~= rev@.reverse());
    gs
}

impl Piece {
    /// The outline of this piece: its lines split into contiguous groups,
    /// each padded to the group's widest line (at least 1), chosen to
    /// minimise the padded area plus one step row per group change.
    pub fn outline_groups(&self) -> (gs: Vec<OutlineGroup>)
        requires
            widths_fit(line_widths(self.lines@)),
        ensures
            gs@ == outline_of(line_widths(self.lines@), self.lines.len() as int),
    {
        let widths = self.widths();
        let n = widths.len();
        if n == 0 {
            return Vec::new();
        }
        let (_dp, choice_v) = compute_dp(&widths);
        backtrack_groups(&widths, &choice_v)
    }
}

/// Whether the outline of lines of widths `w` can be computed without
/// overflow.
pub fn widths_fit_check(w: &Vec<usize>) -> (b: bool)
    ensures
        b == widths_fit(w@),
{
    let n = w.len();
    let mut m: usize = 0;
    let mut i: usize = n;
    while i > 0
        invariant
            i <= n,
            n == w.len(),
            m == gmax(w@, i as int, n as int),
        decreases i,
    {
        i -= 1;
        if w[i] > m {
            m = w[i];
        }
    }
    if m == 0 {
        return true;
    }
    match n.checked_add(1) {
        None => {
            assert(m * (n + 1) >= n + 1) by (nonlinear_arith)
                requires
                    m >= 1,
            ;
            false
        },
        Some(k) => m.checked_mul(k).is_some(),
    }
}

impl Piece {
    /// Whether this piece's outline can be computed without overflow.
    pub fn outline_fits(&self) -> (b: bool)
        ensures
            b == widths_fit(line_widths(self.lines@)),
    {
        let w = self.widths();
        widths_fit_check(&w)
    }
}

/// The outline groups of a piece (see `Piece::outline_groups`).
pub fn compute_outline_groups(piece: &Piece) -> (gs: Vec<OutlineGroup>)
    requires
        widths_fit(line_widths(piece.lines@)),
    ensures
        gs@ == outline_of(line_widths(piece.lines@), piece.lines.len() as int),
{
    piece.outline_groups()
}

} // verus!

verus! {

/// Every line lies inside the border of its group: a group's border width
/// is at least 1 and at least the width of each of its lines.
pub proof fn outline_covers_lines(w: Seq<usize>)
    requires
        w.len() <= usize::MAX,
    ensures
        forall|k: int, li: int|
            0 <= k < outline_of(w, w.len() as int).len() && #[trigger] outline_of(w, w.len() as int)[k].start
                <= li <= outline_of(w, w.len() as int)[k].end ==> {
                &&& 0 <= li < w.len()
                &&& #[trigger] w[li] <= outline_of(w, w.len() as int)[k].border_width
                &&& outline_of(w, w.len() as int)[k].border_width >= 1
            },
{
    let n = w.len() as int;
    lemma_outline_of(w, n);
    let gs = outline_of(w, n);
    assert forall|k: int, li: int|
        0 <= k < gs.len() && #[trigger] gs[k].start <= li <= gs[k].end implies {
            &&& 0 <= li < w.len()
            &&& #[trigger] w[li] <= gs[k].border_width
            &&& gs[k].border_width >= 1
        } by {
        let g = gs[k];
        assert(g.end < n);
        lemma_gmax_sub(w, li, li + 1, g.start as int, g.end + 1);
        assert(gmax(w, li + 1, li + 1) == 0);
        assert(gmax(w, li, li + 1) == w[li] as nat);
        assert(g.border_width == border(w, g.start as int, g.end + 1));
    }
}

/// The outline of a piece splits its lines into contiguous groups, and no
/// other split into contiguous groups has a smaller cost (padded area plus
/// one step row per group after the first).
pub proof fn outline_is_optimal(w: Seq<usize>, gs: Seq<(int, int)>)
    requires
        w.len() <= usize::MAX,
        is_partition(gs, w.len() as int),
    ensures
        is_partition(group_bounds(outline_of(w, w.len() as int)), w.len() as int),
        partition_cost(w, group_bounds(outline_of(w, w.len() as int))) <= partition_cost(w, gs),
{
    lemma_outline_of(w, w.len() as int);
    lemma_best_is_least(w, gs, w.len() as int);
}

} // verus!
