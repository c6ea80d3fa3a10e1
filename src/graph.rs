use vstd::prelude::*;
use vstd::arithmetic::div_mod::{lemma_fundamental_div_mod, lemma_mod_pos_bound};
use crate::atom::{ATree, Atom};
use crate::term::{NameV, Term};
use crate::screen::{Screen, bar_spec, line_spec, cell_set, grows};

verus! {

/// The abstract value of an open binder: its name, the row of its horizontal
/// line and the column that line currently reaches.
pub struct BarV {
    pub name: Seq<char>,
    pub y: int,
    pub end: int,
}

/// The abstract state of the layout engine.
pub struct LayState {
    pub bars: Seq<BarV>,
    pub leaders: Seq<int>,
    pub grid: Seq<Seq<bool>>,
    pub offset: int,
    pub handle: int,
    pub y: int,
    pub fun_offset: Option<int>,
    pub fe: int,
    pub ce: int,
}

/// The index of the innermost open binder named `name`.
pub open spec fn last_bar(bars: Seq<BarV>, name: Seq<char>) -> Option<int>
    decreases bars.len(),
{
    if bars.len() == 0 {
        None
    } else if bars.last().name == name {
        Some(bars.len() - 1)
    } else {
        last_bar(bars.drop_last(), name)
    }
}

/// The largest end among the binders from index `i` to the top of the stack.
pub open spec fn max_end_from(bars: Seq<BarV>, i: int) -> int
    decreases bars.len() - i,
{
    if i + 1 >= bars.len() {
        bars[i].end
    } else {
        let m = max_end_from(bars, i + 1);
        if bars[i].end > m { bars[i].end } else { m }
    }
}

/// The binders from index `li` up all set to their largest end.
pub open spec fn synced(bars: Seq<BarV>, li: int) -> Seq<BarV> {
    Seq::new(
        bars.len(),
        |i: int| if i >= li { BarV { end: max_end_from(bars, li), ..bars[i] } } else { bars[i] },
    )
}

/// The binders after aligning the current curried group, if any is open.
pub open spec fn sync_bars(bars: Seq<BarV>, leaders: Seq<int>) -> Seq<BarV> {
    if leaders.len() > 0 { synced(bars, leaders.last()) } else { bars }
}

/// Every binder raised to the largest end of the binders nested in it.
pub open spec fn raised(bars: Seq<BarV>) -> Seq<BarV> {
    Seq::new(bars.len(), |i: int| BarV { end: max_end_from(bars, i), ..bars[i] })
}

/// The larger of two integers.
pub open spec fn imax(a: int, b: int) -> int {
    if a > b { a } else { b }
}

/// The column at which the next abstraction of a curried run starts.
pub open spec fn start(s: LayState) -> int {
    match s.fun_offset {
        Some(f) => f,
        None => s.offset,
    }
}

/// The layout of a tree from a given engine state: the state afterwards, or
/// the first variable met that no open binder names.
pub open spec fn lay(s: LayState, a: ATree) -> Result<LayState, NameV>
    decreases a,
{
    match a {
        ATree::Var(n) => match last_bar(s.bars, n.text) {
            None => Err(n),
            Some(k) => Ok(LayState {
                fun_offset: None,
                handle: s.offset,
                bars: s.bars.update(k, BarV { end: s.offset + 1, ..s.bars[k] }),
                grid: bar_spec(s.grid, s.bars[k].y, s.offset, s.y - s.bars[k].y),
                ..s
            }),
        },
        ATree::App(f, x) => match lay(s, *f) {
            Err(e) => Err(e),
            Ok(s1) => {
                let s2 = LayState { offset: s1.offset + 2 + s1.ce, fun_offset: None, y: s.y, ..s1 };
                match lay(s2, *x) {
                    Err(e) => Err(e),
                    Ok(s3) => {
                        let ny = imax(s3.y, s1.y);
                        let lh = s1.handle;
                        let rh = s3.handle;
                        let g1 = line_spec(s3.grid, ny, lh, rh - lh + 1);
                        let g2 = bar_spec(g1, s1.y, lh, ny - s1.y);
                        let g3 = bar_spec(g2, s3.y, rh, ny - s3.y);
                        let g4 = bar_spec(g3, ny, lh, 2);
                        Ok(LayState { y: ny + 2, handle: lh, grid: g4, ..s3 })
                    },
                }
            },
        },
        ATree::Lam(n, b) => {
            let leader = s.fun_offset is None;
            let x = start(s);
            let s1 = LayState {
                leaders: if leader { s.leaders.push(s.bars.len() as int) } else { s.leaders },
                bars: s.bars.push(BarV { name: n.text, y: s.y, end: x }),
                fun_offset: Some(x),
                offset: x + 1,
                y: s.y + 2,
                ..s
            };
            match lay(s1, *b) {
                Err(e) => Err(e),
                Ok(s2) => {
                    let b2 = raised(sync_bars(s2.bars, s2.leaders));
                    let end = imax(b2.last().end, x + 2);
                    Ok(LayState {
                        bars: b2.drop_last(),
                        leaders: if leader { s2.leaders.drop_last() } else { s2.leaders },
                        offset: imax(s2.offset, end + s2.fe),
                        grid: line_spec(s2.grid, s.y, x, end - x + 1),
                        ..s2
                    })
                },
            }
        },
    }
}

/// The states the engine passes through: coordinates not negative, binders
/// above the cursor row, group leaders inside the binder stack, and a pending
/// abstraction column just left of the cursor.
pub open spec fn wf(s: LayState) -> bool {
    &&& s.fe >= 0
    &&& s.ce >= 0
    &&& s.offset >= 0
    &&& s.handle >= 0
    &&& s.y >= 0
    &&& (forall|i: int| 0 <= i < s.bars.len() ==> 0 <= #[trigger] s.bars[i].y <= s.y)
    &&& (forall|i: int| 0 <= i < s.bars.len() ==> 0 <= #[trigger] s.bars[i].end)
    &&& (forall|i: int| 0 <= i < s.leaders.len() ==> 0 <= #[trigger] s.leaders[i] < s.bars.len())
    &&& (s.fun_offset matches Some(f) ==> f >= 0 && s.offset == f + 1)
}

/// Every coordinate of the state is at most `b`.
pub open spec fn all_le(s: LayState, b: int) -> bool {
    &&& s.offset <= b
    &&& s.handle <= b
    &&& s.y <= b
    &&& (forall|i: int| 0 <= i < s.bars.len() ==> #[trigger] s.bars[i].end <= b)
    &&& (s.fun_offset matches Some(f) ==> f <= b)
}

/// The growth of the coordinates per node of a tree.
pub open spec fn step(s: LayState) -> int {
    4 + s.ce + s.fe
}

/// The binders keep their names and rows, and the stack its height.
pub open spec fn same_frame(s: LayState, t: LayState) -> bool {
    &&& t.bars.len() == s.bars.len()
    &&& (forall|i: int| 0 <= i < s.bars.len() ==> (#[trigger] t.bars[i]).name == s.bars[i].name
        && t.bars[i].y == s.bars[i].y)
    &&& t.leaders == s.leaders
    &&& t.fe == s.fe
    &&& t.ce == s.ce
}

proof fn lemma_last_bar(bars: Seq<BarV>, name: Seq<char>)
    ensures
        last_bar(bars, name) matches Some(k) ==> 0 <= k < bars.len() && bars[k].name == name,
    decreases bars.len(),
{
    if bars.len() > 0 && bars.last().name != name {
        lemma_last_bar(bars.drop_last(), name);
    }
}

proof fn lemma_max_end_bounds(bars: Seq<BarV>, i: int, b: int)
    requires
        0 <= i < bars.len(),
    ensures
        max_end_from(bars, i) >= bars[i].end,
        (forall|j: int| i <= j < bars.len() ==> #[trigger] bars[j].end <= b) ==> max_end_from(bars, i) <= b,
        (forall|j: int| i <= j < bars.len() ==> 0 <= #[trigger] bars[j].end) ==> max_end_from(bars, i) >= 0,
    decreases bars.len() - i,
{
    if i + 1 < bars.len() {
        lemma_max_end_bounds(bars, i + 1, b);
    }
}

/// Where several binders are open, the line of an outer one reaches at least as
/// far as the line of every binder opened inside it.
pub proof fn lemma_max_end_monotone(bars: Seq<BarV>, i: int, j: int)
    requires
        0 <= i <= j < bars.len(),
    ensures
        max_end_from(bars, i) >= max_end_from(bars, j),
    decreases j - i,
{
    if i < j {
        lemma_max_end_monotone(bars, i + 1, j);
    }
}

proof fn lemma_raised_bounds(bars: Seq<BarV>, b: int)
    requires
        forall|j: int| 0 <= j < bars.len() ==> 0 <= #[trigger] bars[j].end <= b,
    ensures
        forall|j: int| 0 <= j < bars.len() ==> 0 <= #[trigger] raised(bars)[j].end <= b,
        forall|j: int| 0 <= j < bars.len() ==> (#[trigger] raised(bars)[j]).end >= bars[j].end,
{
    assert forall|j: int| 0 <= j < bars.len() implies 0 <= #[trigger] raised(bars)[j].end <= b
        && raised(bars)[j].end >= bars[j].end by {
        lemma_max_end_bounds(bars, j, b);
    }
}

proof fn lemma_sync_bounds(bars: Seq<BarV>, leaders: Seq<int>, b: int)
    requires
        forall|j: int| 0 <= j < bars.len() ==> 0 <= #[trigger] bars[j].end <= b,
        forall|j: int| 0 <= j < leaders.len() ==> 0 <= #[trigger] leaders[j] < bars.len(),
    ensures
        forall|j: int| 0 <= j < bars.len() ==> 0 <= #[trigger] sync_bars(bars, leaders)[j].end <= b,
        sync_bars(bars, leaders).len() == bars.len(),
        forall|j: int| 0 <= j < bars.len() ==> (#[trigger] sync_bars(bars, leaders)[j]).name == bars[j].name
            && sync_bars(bars, leaders)[j].y == bars[j].y,
{
    if leaders.len() > 0 {
        let li = leaders.last();
        assert(0 <= leaders[leaders.len() - 1] < bars.len());
        lemma_max_end_bounds(bars, li, b);
    }
}

/// What every layout that succeeds keeps or establishes: the binder stack and
/// leader stack come back as they were (but for the ends), no abstraction is
/// pending, the cursor does not move left or up, and the coordinates grow by at
/// most `step` per node.
pub proof fn lemma_lay(s: LayState, a: ATree, b: int)
    requires
        wf(s),
    ensures
        lay(s, a) matches Ok(t) ==> {
            &&& same_frame(s, t)
            &&& wf(t)
            &&& t.fun_offset is None
            &&& start(s) <= t.handle <= t.offset
            &&& t.offset >= s.offset
            &&& t.y >= s.y
            &&& (all_le(s, b) ==> all_le(t, b + a.size() * step(s)))
        },
    decreases a,
{
    let k = step(s);
    match a {
        ATree::Var(n) => {
            lemma_last_bar(s.bars, n.text);
            if lay(s, a) is Ok {
                let t = lay(s, a)->Ok_0;
                let j = last_bar(s.bars, n.text)->Some_0;
                assert(forall|i: int| 0 <= i < s.bars.len() ==> (#[trigger] t.bars[i]).name == s.bars[i].name);
                assert(a.size() == 1);
                assert(a.size() * k == k) by (nonlinear_arith)
                    requires a.size() == 1;
                assert(all_le(s, b) ==> all_le(t, b + a.size() * k)) by {
                    if all_le(s, b) {
                        assert forall|i: int| 0 <= i < t.bars.len() implies #[trigger] t.bars[i].end <= b + a.size() * k by {
                            if i != j {
                                assert(s.bars[i].end <= b);
                            }
                        }
                    }
                }
            }
        },
        ATree::App(f, x) => {
            lemma_lay(s, *f, b);
            if lay(s, *f) is Ok {
                let s1 = lay(s, *f)->Ok_0;
                let s2 = LayState { offset: s1.offset + 2 + s1.ce, fun_offset: None, y: s.y, ..s1 };
                let n1 = f.size();
                let n2 = x.size();
                let b2 = b + n1 * k + k - 2;
                assert(wf(s2)) by {
                    assert forall|i: int| 0 <= i < s2.bars.len() implies 0 <= #[trigger] s2.bars[i].y <= s2.y by {
                        assert(s1.bars[i].y == s.bars[i].y);
                    }
                }
                lemma_lay(s2, *x, b2);
                if lay(s2, *x) is Ok {
                    let s3 = lay(s2, *x)->Ok_0;
                    let t = lay(s, a)->Ok_0;
                    assert(a.size() * k == k + n1 * k + n2 * k) by (nonlinear_arith)
                        requires a.size() == 1 + n1 + n2;
                    assert(n1 * k >= 0 && n2 * k >= 0) by (nonlinear_arith)
                        requires n1 >= 0, n2 >= 0, k >= 0;
                    assert(same_frame(s, t));
                    assert(wf(t)) by {
                        assert forall|i: int| 0 <= i < t.bars.len() implies 0 <= #[trigger] t.bars[i].y <= t.y by {
                            assert(s3.bars[i].y == s2.bars[i].y);
                        }
                    }
                    if all_le(s, b) {
                        assert(all_le(s1, b + n1 * k));
                        assert(all_le(s2, b2)) by {
                            assert forall|i: int| 0 <= i < s2.bars.len() implies #[trigger] s2.bars[i].end <= b2 by {
                                assert(s1.bars[i].end <= b + n1 * k);
                            }
                        }
                        assert(all_le(s3, b2 + n2 * k));
                        assert(all_le(t, b + a.size() * k)) by {
                            assert forall|i: int| 0 <= i < t.bars.len() implies #[trigger] t.bars[i].end <= b + a.size() * k by {
                                assert(s3.bars[i].end <= b2 + n2 * k);
                            }
                        }
                    }
                }
            }
        },
        ATree::Lam(n, body) => {
            let leader = s.fun_offset is None;
            let x = start(s);
            let s1 = LayState {
                leaders: if leader { s.leaders.push(s.bars.len() as int) } else { s.leaders },
                bars: s.bars.push(BarV { name: n.text, y: s.y, end: x }),
                fun_offset: Some(x),
                offset: x + 1,
                y: s.y + 2,
                ..s
            };
            let nb = body.size();
            assert(wf(s1)) by {
                assert forall|i: int| 0 <= i < s1.bars.len() implies 0 <= #[trigger] s1.bars[i].y <= s1.y by {
                    if i < s.bars.len() {
                        assert(s1.bars[i] == s.bars[i]);
                    }
                }
                assert forall|i: int| 0 <= i < s1.bars.len() implies 0 <= #[trigger] s1.bars[i].end by {
                    if i < s.bars.len() {
                        assert(s1.bars[i] == s.bars[i]);
                    }
                }
                assert forall|i: int| 0 <= i < s1.leaders.len() implies 0 <= #[trigger] s1.leaders[i] < s1.bars.len() by {
                    if i < s.leaders.len() {
                        assert(s1.leaders[i] == s.leaders[i]);
                    }
                }
            }
            lemma_lay(s1, *body, b + 2);
            if lay(s1, *body) is Ok {
                let s2 = lay(s1, *body)->Ok_0;
                let t = lay(s, a)->Ok_0;
                let sb = sync_bars(s2.bars, s2.leaders);
                let b2 = raised(sb);
                assert(s2.bars.len() == s.bars.len() + 1);
                let big = if all_le(s, b) { b + 2 + nb * k } else { max_end_from(s2.bars, 0) };
                lemma_max_end_above(s2.bars);
                assert(forall|j: int| 0 <= j < s2.bars.len() ==> 0 <= #[trigger] s2.bars[j].end <= big) by {
                    if all_le(s, b) {
                        assert(all_le(s1, b + 2)) by {
                            assert forall|i: int| 0 <= i < s1.bars.len() implies #[trigger] s1.bars[i].end <= b + 2 by {
                                if i < s.bars.len() {
                                    assert(s1.bars[i] == s.bars[i]);
                                }
                            }
                        }
                    }
                }
                lemma_sync_bounds(s2.bars, s2.leaders, big);
                lemma_raised_bounds(sb, big);
                assert(b2.last() == b2[b2.len() - 1]);
                assert(same_frame(s, t)) by {
                    assert forall|i: int| 0 <= i < s.bars.len() implies (#[trigger] t.bars[i]).name == s.bars[i].name
                        && t.bars[i].y == s.bars[i].y by {
                        assert(s1.bars[i] == s.bars[i]);
                        assert(t.bars[i] == b2[i]);
                    }
                    if leader {
                        assert(t.leaders =~= s.leaders);
                    }
                }
                assert(wf(t)) by {
                    assert forall|i: int| 0 <= i < t.bars.len() implies 0 <= #[trigger] t.bars[i].y <= t.y by {
                        assert(s1.bars[i] == s.bars[i]);
                        assert(t.bars[i] == b2[i]);
                    }
                    assert forall|i: int| 0 <= i < t.bars.len() implies 0 <= #[trigger] t.bars[i].end by {
                        assert(t.bars[i] == b2[i]);
                    }
                }
                if all_le(s, b) {
                    assert(a.size() * k == k + nb * k) by (nonlinear_arith)
                        requires a.size() == 1 + nb;
                    assert(nb * k >= 0) by (nonlinear_arith)
                        requires nb >= 0, k >= 0;
                    assert(all_le(t, b + a.size() * k)) by {
                        assert forall|i: int| 0 <= i < t.bars.len() implies #[trigger] t.bars[i].end <= b + a.size() * k by {
                            assert(t.bars[i] == b2[i]);
                        }
                    }
                }
            }
        },
    }
}

proof fn lemma_max_end_above(bars: Seq<BarV>)
    requires
        bars.len() > 0,
    ensures
        forall|j: int| 0 <= j < bars.len() ==> #[trigger] bars[j].end <= max_end_from(bars, 0),
{
    assert forall|j: int| 0 <= j < bars.len() implies #[trigger] bars[j].end <= max_end_from(bars, 0) by {
        lemma_max_end_monotone(bars, 0, j);
        lemma_max_end_bounds(bars, j, 0);
    }
}

/// The names of the open binders, outermost first.
pub open spec fn bar_names(bars: Seq<BarV>) -> Seq<Seq<char>> {
    Seq::new(bars.len(), |i: int| bars[i].name)
}

/// The first variable, left to right, that no binder of `env` or of the tree
/// itself encloses.
pub open spec fn first_free(a: ATree, env: Seq<Seq<char>>) -> Option<NameV>
    decreases a,
{
    match a {
        ATree::Var(n) => if env.contains(n.text) { None } else { Some(n) },
        ATree::App(f, x) => match first_free(*f, env) {
            Some(n) => Some(n),
            None => first_free(*x, env),
        },
        ATree::Lam(n, b) => first_free(*b, env.push(n.text)),
    }
}

proof fn lemma_last_bar_contains(bars: Seq<BarV>, name: Seq<char>)
    ensures
        last_bar(bars, name) is None <==> !bar_names(bars).contains(name),
    decreases bars.len(),
{
    if bars.len() > 0 {
        let rest = bars.drop_last();
        lemma_last_bar_contains(rest, name);
        assert(bar_names(bars) =~= bar_names(rest).push(bars.last().name));
        if bar_names(bars).contains(name) && bars.last().name != name {
            let i = choose|i: int| 0 <= i < bar_names(bars).len() && bar_names(bars)[i] == name;
            assert(bar_names(rest)[i] == name);
        }
        if bar_names(rest).contains(name) {
            let i = choose|i: int| 0 <= i < bar_names(rest).len() && bar_names(rest)[i] == name;
            assert(bar_names(bars)[i] == name);
        }
        if bars.last().name == name {
            assert(bar_names(bars)[bars.len() - 1] == name);
        }
    }
}

/// Layout fails exactly when the tree holds a variable that no enclosing
/// abstraction (nor open binder) names, and the error names the first such
/// variable in left-to-right order.
pub proof fn lemma_free_variable_detected(s: LayState, a: ATree)
    requires
        wf(s),
    ensures
        lay(s, a) is Err <==> first_free(a, bar_names(s.bars)) is Some,
        lay(s, a) is Err ==> Some(lay(s, a)->Err_0) == first_free(a, bar_names(s.bars)),
    decreases a,
{
    lemma_lay(s, a, 0);
    match a {
        ATree::Var(n) => {
            lemma_last_bar_contains(s.bars, n.text);
        },
        ATree::App(f, x) => {
            lemma_free_variable_detected(s, *f);
            lemma_lay(s, *f, 0);
            if lay(s, *f) is Ok {
                let s1 = lay(s, *f)->Ok_0;
                let s2 = LayState { offset: s1.offset + 2 + s1.ce, fun_offset: None, y: s.y, ..s1 };
                assert(wf(s2)) by {
                    assert forall|i: int| 0 <= i < s2.bars.len() implies 0 <= #[trigger] s2.bars[i].y <= s2.y by {
                        assert(s1.bars[i].y == s.bars[i].y);
                    }
                }
                assert(bar_names(s2.bars) =~= bar_names(s.bars));
                lemma_free_variable_detected(s2, *x);
            }
        },
        ATree::Lam(n, body) => {
            let leader = s.fun_offset is None;
            let x = start(s);
            let s1 = LayState {
                leaders: if leader { s.leaders.push(s.bars.len() as int) } else { s.leaders },
                bars: s.bars.push(BarV { name: n.text, y: s.y, end: x }),
                fun_offset: Some(x),
                offset: x + 1,
                y: s.y + 2,
                ..s
            };
            assert(wf(s1)) by {
                assert forall|i: int| 0 <= i < s1.bars.len() implies 0 <= #[trigger] s1.bars[i].y <= s1.y by {
                    if i < s.bars.len() {
                        assert(s1.bars[i] == s.bars[i]);
                    }
                }
                assert forall|i: int| 0 <= i < s1.bars.len() implies 0 <= #[trigger] s1.bars[i].end by {
                    if i < s.bars.len() {
                        assert(s1.bars[i] == s.bars[i]);
                    }
                }
                assert forall|i: int| 0 <= i < s1.leaders.len() implies 0 <= #[trigger] s1.leaders[i] < s1.bars.len() by {
                    if i < s.leaders.len() {
                        assert(s1.leaders[i] == s.leaders[i]);
                    }
                }
            }
            assert(bar_names(s1.bars) =~= bar_names(s.bars).push(n.text));
            lemma_free_variable_detected(s1, *body);
        },
    }
}

/// Layout is a function of the engine state and the tree: two engines in the
/// same state given the same tree end in the same state, canvas included.
pub proof fn lemma_layout_deterministic(s1: LayState, s2: LayState, a1: ATree, a2: ATree)
    requires
        s1 == s2,
        a1 == a2,
    ensures
        lay(s1, a1) == lay(s2, a2),
{
}

proof fn lemma_line_sets(g: Seq<Seq<bool>>, y: int, x: int, n: int)
    requires
        y >= 0,
        x >= 0,
    ensures
        forall|i: int| 0 <= i < n ==> #[trigger] cell_set(line_spec(g, y, x, n), y, x + i),
    decreases n,
{
    if n > 0 {
        lemma_line_sets(g, y, x, n - 1);
        let h = line_spec(g, y, x, n - 1);
        assert forall|i: int| 0 <= i < n implies #[trigger] cell_set(line_spec(g, y, x, n), y, x + i) by {
            if i < n - 1 {
                assert(cell_set(h, y, x + i));
            }
        }
    }
}

/// The horizontal line of every abstraction covers at least three cells from
/// its column: its length is at least two.
pub proof fn lemma_binder_line(s: LayState, n: NameV, b: ATree)
    requires
        wf(s),
    ensures
        lay(s, ATree::Lam(n, Box::new(b))) matches Ok(t) ==> forall|i: int| 0 <= i <= 2
            ==> #[trigger] cell_set(t.grid, s.y, start(s) + i),
{
    let a = ATree::Lam(n, Box::new(b));
    let x = start(s);
    if lay(s, a) is Ok {
        let leader = s.fun_offset is None;
        let s1 = LayState {
            leaders: if leader { s.leaders.push(s.bars.len() as int) } else { s.leaders },
            bars: s.bars.push(BarV { name: n.text, y: s.y, end: x }),
            fun_offset: Some(x),
            offset: x + 1,
            y: s.y + 2,
            ..s
        };
        let s2 = lay(s1, b)->Ok_0;
        let b2 = raised(sync_bars(s2.bars, s2.leaders));
        let end = imax(b2.last().end, x + 2);
        lemma_line_sets(s2.grid, s.y, x, end - x + 1);
    }
}

/// After a curried group is aligned, every binder of the group reaches the
/// same column.
pub proof fn lemma_synced_aligned(bars: Seq<BarV>, li: int)
    requires
        0 <= li,
    ensures
        forall|i: int, j: int| li <= i < bars.len() && li <= j < bars.len()
            ==> #[trigger] synced(bars, li)[i].end == #[trigger] synced(bars, li)[j].end,
{
}

/// After raising, the line of an outer binder reaches at least as far as the
/// line of every binder opened inside it.
pub proof fn lemma_raised_ordered(bars: Seq<BarV>)
    ensures
        forall|i: int, j: int| 0 <= i < j < bars.len()
            ==> #[trigger] raised(bars)[i].end >= #[trigger] raised(bars)[j].end,
{
    assert forall|i: int, j: int| 0 <= i < j < bars.len()
        implies #[trigger] raised(bars)[i].end >= #[trigger] raised(bars)[j].end by {
        lemma_max_end_monotone(bars, i, j);
    }
}

/// The state of a fresh engine with the given spacing units.
pub open spec fn init_state(ce: int, fe: int) -> LayState {
    LayState {
        bars: Seq::empty(),
        leaders: Seq::empty(),
        grid: Seq::empty(),
        offset: 0,
        handle: 0,
        y: 0,
        fun_offset: None,
        fe,
        ce,
    }
}

/// Whether every coordinate that laying out `a` from `s` can reach fits in a
/// `usize`.
pub open spec fn fits(s: LayState, a: ATree) -> bool {
    all_le(s, usize::MAX - a.size() * step(s))
}

/// Why a layout stops.
#[derive(Debug, Clone)]
pub enum Error {
    UndefinedTerm(Term),
}

impl Error {
    /// The name that no binder encloses.
    pub open spec fn name(&self) -> NameV {
        match self {
            Error::UndefinedTerm(t) => t@,
        }
    }
}

#[derive(Debug)]
struct Bar {
    name: Term,
    y: usize,
    end: usize,
}

/// The layout engine: the open binders, the curried groups, the cursor and the
/// canvas it draws on.
#[derive(Debug)]
pub struct GraphCtx {
    bars: Vec<Bar>,
    leaders: Vec<usize>,
    pub screen: Screen,
    offset: usize,
    offset_handle: usize,
    y: usize,
    fun_offset: Option<usize>,
    pub func_extra_unit: usize,
    pub call_extra_unit: usize,
}

impl View for GraphCtx {
    type V = LayState;

    closed spec fn view(&self) -> LayState {
        LayState {
            bars: Seq::new(
                self.bars@.len(),
                |i: int| BarV {
                    name: self.bars@[i].name.0@,
                    y: self.bars@[i].y as int,
                    end: self.bars@[i].end as int,
                },
            ),
            leaders: Seq::new(self.leaders@.len(), |i: int| self.leaders@[i] as int),
            grid: self.screen@,
            offset: self.offset as int,
            handle: self.offset_handle as int,
            y: self.y as int,
            fun_offset: match self.fun_offset {
                Some(f) => Some(f as int),
                None => None,
            },
            fe: self.func_extra_unit as int,
            ce: self.call_extra_unit as int,
        }
    }
}

/// Raises `a` to `rhs` where `rhs` is larger.
pub fn max_to(a: &mut usize, rhs: usize)
    ensures
        *final(a) == if *old(a) < rhs { rhs } else { *old(a) },
{
    if *a < rhs {
        *a = rhs;
    }
}

impl Default for GraphCtx {
    fn default() -> (r: GraphCtx)
        ensures
            r@ == init_state(0, 0),
    {
        GraphCtx::new(0, 0)
    }
}

impl GraphCtx {
    /// A fresh engine with the given extra spacing after applications and
    /// after abstractions.
    pub fn new(call_extra_unit: usize, func_extra_unit: usize) -> (r: GraphCtx)
        ensures
            r@ == init_state(call_extra_unit as int, func_extra_unit as int),
    {
        let r = GraphCtx {
            bars: Vec::new(),
            leaders: Vec::new(),
            screen: Screen::new(),
            offset: 0,
            offset_handle: 0,
            y: 0,
            fun_offset: None,
            func_extra_unit,
            call_extra_unit,
        };
        assert(r@.bars =~= Seq::<BarV>::empty());
        assert(r@.leaders =~= Seq::<int>::empty());
        r
    }

    /// The canvas drawn so far.
    pub fn screen(&self) -> (r: &Screen)
        ensures
            r@ == self@.grid,
    {
        &self.screen
    }

    /// The extra spacing after the function part of an application.
    pub fn call_extra_unit(&self) -> (r: usize)
        ensures
            r == self@.ce,
    {
        self.call_extra_unit
    }

    /// The extra spacing after an abstraction.
    pub fn func_extra_unit(&self) -> (r: usize)
        ensures
            r == self@.fe,
    {
        self.func_extra_unit
    }

    /// The engine's states are well formed.
    pub closed spec fn inv(&self) -> bool {
        wf(self@)
    }

    /// A fresh engine is well formed.
    pub proof fn lemma_fresh(&self)
        requires
            self@ == init_state(self@.ce, self@.fe),
        ensures
            self.inv(),
    {
    }

    fn find_bar(&self, name: &Term) -> (r: Option<usize>)
        ensures
            r matches Some(k) ==> last_bar(self@.bars, name.0@) == Some(k as int),
            r is None ==> last_bar(self@.bars, name.0@) is None,
    {
        let ghost bs = self@.bars;
        let mut i: usize = self.bars.len();
        assert(bs.take(i as int) =~= bs);
        while i > 0
            invariant
                i <= self.bars@.len(),
                bs == self@.bars,
                last_bar(bs, name.0@) == last_bar(bs.take(i as int), name.0@),
            decreases i,
        {
            assert(bs.take(i as int).drop_last() =~= bs.take(i - 1));
            assert(bs.take(i as int).last() == bs[i - 1]);
            if self.bars[i - 1].name.same_name(name) {
                return Some(i - 1);
            }
            i -= 1;
        }
        None
    }

    fn add_bar(&mut self, name: Term, y: usize)
        ensures
            final(self)@ == (LayState {
                bars: old(self)@.bars.push(BarV { name: name.0@, y: y as int, end: old(self)@.offset }),
                ..old(self)@
            }),
    {
        let end = self.offset;
        self.bars.push(Bar { name, y, end });
        assert(self@.bars =~= old(self)@.bars.push(BarV { name: name.0@, y: y as int, end: old(self)@.offset }));
    }

    /// Sets every binder of the current curried group to the group's largest
    /// end, so that all parameters of one chain draw lines of one length.
    fn sync_leader(&mut self)
        requires
            forall|i: int| 0 <= i < old(self)@.leaders.len() ==> 0 <= #[trigger] old(self)@.leaders[i] < old(self)@.bars.len(),
        ensures
            final(self)@ == (LayState { bars: sync_bars(old(self)@.bars, old(self)@.leaders), ..old(self)@ }),
            old(self)@.leaders.len() > 0 ==> forall|i: int, j: int|
                old(self)@.leaders.last() <= i < final(self)@.bars.len() && old(self)@.leaders.last() <= j < final(self)@.bars.len()
                ==> #[trigger] final(self)@.bars[i].end == #[trigger] final(self)@.bars[j].end,
    {
        let ghost bs = self@.bars;
        if self.leaders.len() > 0 {
            let li = self.leaders[self.leaders.len() - 1];
            assert(self@.leaders[self@.leaders.len() - 1] == li);
            let n = self.bars.len();
            let mut i: usize = n - 1;
            let mut m: usize = self.bars[i].end;
            while i > li
                invariant
                    li <= i < n,
                    n == self.bars@.len(),
                    bs == self@.bars,
                    m as int == max_end_from(bs, i as int),
                decreases i,
            {
                i -= 1;
                if self.bars[i].end > m {
                    m = self.bars[i].end;
                }
            }
            let mut j: usize = li;
            while j < n
                invariant
                    li <= j <= n,
                    n == self.bars@.len(),
                    m as int == max_end_from(bs, li as int),
                    bs.len() == n,
                    self@.leaders == old(self)@.leaders,
                    self@ == (LayState { bars: self@.bars, ..old(self)@ }),
                    forall|k: int| 0 <= k < n ==> (#[trigger] self@.bars[k]) == if li <= k < j { BarV { end: m as int, ..bs[k] } } else { bs[k] },
                decreases n - j,
            {
                let name = self.bars[j].name.dup();
                let y = self.bars[j].y;
                let ghost before = self@.bars;
                self.bars.set(j, Bar { name, y, end: m });
                assert forall|k: int| 0 <= k < n implies (#[trigger] self@.bars[k]) == if k == j { BarV { end: m as int, ..bs[k] } } else { before[k] } by {
                    if k == j {
                        assert(before[k] == bs[k]);
                    }
                }
                j += 1;
            }
            assert(self@.bars =~= sync_bars(bs, old(self)@.leaders));
        } else {
            assert(self@.bars =~= sync_bars(bs, old(self)@.leaders));
        }
    }

    /// Raises each binder's end to the largest end of the binders inside it, so
    /// that no inner line runs past the line of a binder enclosing it.
    fn ext_end_from_subfunc(&mut self)
        ensures
            final(self)@ == (LayState { bars: raised(old(self)@.bars), ..old(self)@ }),
            forall|i: int, j: int| 0 <= i < j < final(self)@.bars.len()
                ==> #[trigger] final(self)@.bars[i].end >= #[trigger] final(self)@.bars[j].end,
    {
        let ghost bs = self@.bars;
        let n = self.bars.len();
        if n > 0 {
            let mut i: usize = n - 1;
            while i > 0
                invariant
                    i < n,
                    n == self.bars@.len(),
                    bs.len() == n,
                    self@ == (LayState { bars: self@.bars, ..old(self)@ }),
                    forall|k: int| 0 <= k < n ==> (#[trigger] self@.bars[k]) == if k >= i { BarV { end: max_end_from(bs, k), ..bs[k] } } else { bs[k] },
                decreases i,
            {
                let child = self.bars[i].end;
                let ghost before = self@.bars;
                assert(before[i as int].end == max_end_from(bs, i as int));
                assert(before[i - 1] == bs[i - 1]);
                if child > self.bars[i - 1].end {
                    let name = self.bars[i - 1].name.dup();
                    let y = self.bars[i - 1].y;
                    self.bars.set(i - 1, Bar { name, y, end: child });
                    assert forall|k: int| 0 <= k < n && k != i - 1 implies (#[trigger] self@.bars[k]) == before[k] by {
                    }
                }
                assert(self@.bars[i - 1] == BarV { end: max_end_from(bs, i - 1), ..bs[i - 1] });
                i -= 1;
            }
        }
        assert(self@.bars =~= raised(bs));
        assert forall|i: int, j: int| 0 <= i < j < self@.bars.len()
            implies #[trigger] self@.bars[i].end >= #[trigger] self@.bars[j].end by {
            lemma_max_end_monotone(bs, i, j);
        }
    }

    /// Lays out `atom` from the current state, drawing on the canvas: the state
    /// afterwards is the one `lay` gives, and the error names the first
    /// variable met that no enclosing abstraction binds.
    #[verifier::rlimit(100)]
    pub fn foo(&mut self, atom: &Atom) -> (r: Result<(), Error>)
        requires
            old(self).inv(),
            fits(old(self)@, atom@),
        ensures
            r is Ok <==> lay(old(self)@, atom@) is Ok,
            r is Ok ==> lay(old(self)@, atom@)->Ok_0 == final(self)@ && final(self).inv(),
            r matches Err(e) ==> lay(old(self)@, atom@)->Err_0 == e.name(),
            grows(old(self)@.grid, final(self)@.grid),
            final(self)@.ce == old(self)@.ce,
            final(self)@.fe == old(self)@.fe,
        decreases atom,
    {
        let ghost s = self@;
        let ghost k = step(s);
        let ghost b = usize::MAX - atom@.size() * k;
        assert(atom@.size() * k >= k) by (nonlinear_arith)
            requires atom@.size() >= 1, k >= 0;
        proof {
            lemma_lay(s, atom@, b);
        }
        match atom {
            Atom::Term(term) => {
                self.fun_offset = None;
                self.offset_handle = self.offset;
                proof {
                    lemma_last_bar(s.bars, term.0@);
                }
                match self.find_bar(term) {
                    None => {
                        return Err(Error::UndefinedTerm(term.dup()));
                    },
                    Some(i) => {
                        let x = self.offset;
                        let by = self.bars[i].y;
                        assert(s.bars[i as int].y == by);
                        let name = self.bars[i].name.dup();
                        let ghost before = self@.bars;
                        self.bars.set(i, Bar { name, y: by, end: x + 1 });
                        assert(self@.bars =~= before.update(i as int, BarV { end: x + 1, ..before[i as int] }));
                        self.screen.bar(by, x, self.y - by);
                        assert(self@ == lay(s, atom@)->Ok_0);
                    },
                }
            },
            Atom::Call(fun, arg) => {
                let ghost n1 = (**fun)@.size();
                let ghost n2 = (**arg)@.size();
                assert(atom@.size() * k == k + n1 * k + n2 * k) by (nonlinear_arith)
                    requires atom@.size() == 1 + n1 + n2;
                assert(n1 * k >= 0 && n2 * k >= 0) by (nonlinear_arith)
                    requires n1 >= 0, n2 >= 0, k >= 0;
                let base_y = self.y;
                proof {
                    lemma_lay(s, (**fun)@, b);
                }
                match self.foo(fun) {
                    Err(e) => {
                        return Err(e);
                    },
                    Ok(()) => {},
                }
                let ghost s1 = self@;
                assert(all_le(s1, b + n1 * k));
                self.offset = self.offset + 2 + self.call_extra_unit;
                self.fun_offset = None;
                let left_y = self.y;
                self.y = base_y;
                let left_handle = self.offset_handle;
                let ghost s2 = self@;
                assert(s2 == LayState { offset: s1.offset + 2 + s1.ce, fun_offset: None, y: s.y, ..s1 });
                let ghost b2 = b + n1 * k + k - 2;
                assert(wf(s2)) by {
                    assert forall|i: int| 0 <= i < s2.bars.len() implies 0 <= #[trigger] s2.bars[i].y <= s2.y by {
                        assert(s1.bars[i].y == s.bars[i].y);
                    }
                }
                assert(all_le(s2, b2)) by {
                    assert forall|i: int| 0 <= i < s2.bars.len() implies #[trigger] s2.bars[i].end <= b2 by {
                        assert(s1.bars[i].end <= b + n1 * k);
                    }
                }
                proof {
                    lemma_lay(s2, (**arg)@, b2);
                }
                match self.foo(arg) {
                    Err(e) => {
                        return Err(e);
                    },
                    Ok(()) => {},
                }
                let ghost s3 = self@;
                assert(all_le(s3, b2 + n2 * k));
                let right_y = self.y;
                let right_handle = self.offset_handle;
                let ny = if right_y > left_y { right_y } else { left_y };
                self.y = ny;
                self.screen.line(ny, left_handle, right_handle - left_handle + 1);
                self.offset_handle = left_handle;
                self.screen.bar(left_y, left_handle, ny - left_y);
                self.screen.bar(right_y, right_handle, ny - right_y);
                self.screen.bar(ny, left_handle, 2);
                self.y = ny + 2;
                assert(self@ == lay(s, atom@)->Ok_0);
            },
            Atom::Func(name, body) => {
                let ghost nb = (**body)@.size();
                assert(atom@.size() * k == k + nb * k) by (nonlinear_arith)
                    requires atom@.size() == 1 + nb;
                assert(nb * k >= 0) by (nonlinear_arith)
                    requires nb >= 0, k >= 0;
                let is_leader = self.fun_offset.is_none();
                match self.fun_offset {
                    Some(o) => {
                        self.offset = o;
                    },
                    None => {},
                }
                self.fun_offset = None;
                if is_leader {
                    let h = self.bars.len();
                    self.leaders.push(h);
                }
                let y = self.y;
                let x = self.offset;
                self.add_bar(name.dup(), y);
                self.fun_offset = Some(self.offset);
                self.offset = self.offset + 1;
                self.y = self.y + 2;
                let ghost s1 = self@;
                assert(s1.leaders =~= if is_leader { s.leaders.push(s.bars.len() as int) } else { s.leaders });
                assert(s1 == LayState {
                    leaders: if is_leader { s.leaders.push(s.bars.len() as int) } else { s.leaders },
                    bars: s.bars.push(BarV { name: name.0@, y: s.y, end: x as int }),
                    fun_offset: Some(x as int),
                    offset: x + 1,
                    y: s.y + 2,
                    ..s
                });
                assert(wf(s1)) by {
                    assert forall|i: int| 0 <= i < s1.bars.len() implies 0 <= #[trigger] s1.bars[i].y <= s1.y by {
                        if i < s.bars.len() {
                            assert(s1.bars[i] == s.bars[i]);
                        }
                    }
                    assert forall|i: int| 0 <= i < s1.bars.len() implies 0 <= #[trigger] s1.bars[i].end by {
                        if i < s.bars.len() {
                            assert(s1.bars[i] == s.bars[i]);
                        }
                    }
                    assert forall|i: int| 0 <= i < s1.leaders.len() implies 0 <= #[trigger] s1.leaders[i] < s1.bars.len() by {
                        if i < s.leaders.len() {
                            assert(s1.leaders[i] == s.leaders[i]);
                        }
                    }
                }
                assert(all_le(s1, b + 2)) by {
                    assert forall|i: int| 0 <= i < s1.bars.len() implies #[trigger] s1.bars[i].end <= b + 2 by {
                        if i < s.bars.len() {
                            assert(s1.bars[i] == s.bars[i]);
                        }
                    }
                }
                proof {
                    lemma_lay(s1, (**body)@, b + 2);
                }
                match self.foo(body) {
                    Err(e) => {
                        return Err(e);
                    },
                    Ok(()) => {},
                }
                let ghost s2 = self@;
                let ghost big = b + 2 + nb * k;
                assert(forall|j: int| 0 <= j < s2.bars.len() ==> 0 <= #[trigger] s2.bars[j].end <= big);
                proof {
                    lemma_sync_bounds(s2.bars, s2.leaders, big);
                    lemma_raised_bounds(sync_bars(s2.bars, s2.leaders), big);
                }
                self.sync_leader();
                self.ext_end_from_subfunc();
                let ghost b2 = self@.bars;
                assert(b2 == raised(sync_bars(s2.bars, s2.leaders)));
                let bar = self.bars.pop().unwrap();
                assert(bar.end as int == b2.last().end);
                assert(self@.bars =~= b2.drop_last());
                let end = if bar.end > x + 2 { bar.end } else { x + 2 };
                if is_leader {
                    self.leaders.pop();
                    assert(self@.leaders =~= s2.leaders.drop_last());
                }
                let grow = end + self.func_extra_unit;
                max_to(&mut self.offset, grow);
                self.screen.line(y, x, end - x + 1);
                assert(self@ == lay(s, atom@)->Ok_0);
            },
        }
        Ok(())
    }
}

/// Lays out a whole term on a fresh engine with the given spacing units and
/// hands over the canvas.
pub fn layout(atom: &Atom, call_extra_unit: usize, func_extra_unit: usize) -> (r: Result<Screen, Error>)
    requires
        fits(init_state(call_extra_unit as int, func_extra_unit as int), atom@),
    ensures
        r is Ok <==> lay(init_state(call_extra_unit as int, func_extra_unit as int), atom@) is Ok,
        r matches Ok(g) ==> g@ == lay(init_state(call_extra_unit as int, func_extra_unit as int), atom@)->Ok_0.grid,
        r matches Err(e) ==> lay(init_state(call_extra_unit as int, func_extra_unit as int), atom@)->Err_0 == e.name(),
{
    let mut ctx = GraphCtx::new(call_extra_unit, func_extra_unit);
    proof {
        ctx.lemma_fresh();
    }
    match ctx.foo(atom) {
        Ok(()) => {
            let g = ctx.screen;
            Ok(g)
        },
        Err(e) => Err(e),
    }
}

/// On a fresh engine, layout fails exactly when the tree has a variable that no
/// enclosing abstraction names, and the error is the first such variable, text
/// and offset, in left-to-right order.
pub proof fn lemma_fresh_free_variable(ce: int, fe: int, a: ATree)
    requires
        ce >= 0,
        fe >= 0,
    ensures
        lay(init_state(ce, fe), a) is Err <==> first_free(a, Seq::empty()) is Some,
        lay(init_state(ce, fe), a) is Err ==> Some(lay(init_state(ce, fe), a)->Err_0) == first_free(a, Seq::empty()),
{
    let s = init_state(ce, fe);
    assert(bar_names(s.bars) =~= Seq::<Seq<char>>::empty());
    lemma_free_variable_detected(s, a);
}

/// Whether laying out `atom` on a fresh engine with these spacing units keeps
/// every coordinate within a `usize`: the condition `layout` asks for.
pub fn layout_fits(atom: &Atom, call_extra_unit: usize, func_extra_unit: usize) -> (r: bool)
    ensures
        r == fits(init_state(call_extra_unit as int, func_extra_unit as int), atom@),
{
    let ghost n = atom@.size();
    let ghost k = 4 + call_extra_unit + func_extra_unit;
    assert(n >= 1) by {
        match atom@ {
            ATree::Var(_) => {},
            ATree::App(_, _) => {},
            ATree::Lam(_, _) => {},
        }
    }
    if call_extra_unit > usize::MAX - 4 || func_extra_unit > usize::MAX - 4 - call_extra_unit {
        assert(n * k >= k) by (nonlinear_arith)
            requires n >= 1, k >= 0;
        return false;
    }
    let step = 4 + call_extra_unit + func_extra_unit;
    let cap = usize::MAX / step;
    proof {
        lemma_fundamental_div_mod(usize::MAX as int, step as int);
        lemma_mod_pos_bound(usize::MAX as int, step as int);
        let c = cap as int;
        let st = step as int;
        assert(4 * c <= st * c) by (nonlinear_arith)
            requires st >= 4, c >= 0;
    }
    let got = atom.size_upto(cap + 1);
    if got <= cap {
        assert(n * k <= cap * k) by (nonlinear_arith)
            requires n <= cap, k >= 0;
        assert(cap * k == k * cap) by (nonlinear_arith);
        true
    } else {
        assert(n * k >= (cap + 1) * k) by (nonlinear_arith)
            requires n >= cap + 1, k >= 0;
        assert((cap + 1) * k == k * cap + k) by (nonlinear_arith);
        false
    }
}

} // verus!
