use vstd::prelude::*;
use unicode_width::UnicodeWidthStr;

verus! {

/// The grid after setting cell (`y`, `x`), growing it with empty rows and
/// unset cells as far as needed.
pub open spec fn set_cell(g: Seq<Seq<bool>>, y: int, x: int) -> Seq<Seq<bool>> {
    let g1 = if y < g.len() {
        g
    } else {
        g + Seq::new((y + 1 - g.len()) as nat, |i: int| Seq::<bool>::empty())
    };
    let row = g1[y];
    let row1 = if x < row.len() {
        row
    } else {
        row + Seq::new((x + 1 - row.len()) as nat, |i: int| false)
    };
    g1.update(y, row1.update(x, true))
}

/// Whether cell (`y`, `x`) of the grid is set.
pub open spec fn cell_set(g: Seq<Seq<bool>>, y: int, x: int) -> bool {
    0 <= y < g.len() && 0 <= x < g[y].len() && g[y][x]
}

/// Every cell set in `g1` is set in `g2`.
pub open spec fn grows(g1: Seq<Seq<bool>>, g2: Seq<Seq<bool>>) -> bool {
    forall|y: int, x: int| #[trigger] cell_set(g1, y, x) ==> cell_set(g2, y, x)
}

/// Setting a cell clears none.
pub proof fn lemma_set_cell_grows(g: Seq<Seq<bool>>, y: int, x: int)
    requires
        y >= 0,
        x >= 0,
    ensures
        grows(g, set_cell(g, y, x)),
        cell_set(set_cell(g, y, x), y, x),
{
    let g1 = if y < g.len() {
        g
    } else {
        g + Seq::new((y + 1 - g.len()) as nat, |i: int| Seq::<bool>::empty())
    };
    assert forall|r: int, c: int| #[trigger] cell_set(g, r, c) implies cell_set(set_cell(g, y, x), r, c) by {
        assert(g1[r] == g[r]);
    }
}

/// The grid after drawing a vertical run of `n` cells downward from (`y`, `x`).
pub open spec fn bar_spec(g: Seq<Seq<bool>>, y: int, x: int, n: int) -> Seq<Seq<bool>>
    decreases n,
{
    if n <= 0 {
        g
    } else {
        set_cell(bar_spec(g, y, x, n - 1), y + n - 1, x)
    }
}

/// The grid after drawing a horizontal run of `n` cells rightward from (`y`, `x`).
pub open spec fn line_spec(g: Seq<Seq<bool>>, y: int, x: int, n: int) -> Seq<Seq<bool>>
    decreases n,
{
    if n <= 0 {
        g
    } else {
        set_cell(line_spec(g, y, x, n - 1), y, x + n - 1)
    }
}

/// The length of the longest row.
pub open spec fn max_width(g: Seq<Seq<bool>>) -> nat
    decreases g.len(),
{
    if g.len() == 0 {
        0
    } else {
        let w = max_width(g.drop_last());
        if g.last().len() > w { g.last().len() } else { w }
    }
}

/// The grid upside down.
pub open spec fn flip_rows(g: Seq<Seq<bool>>) -> Seq<Seq<bool>> {
    Seq::new(g.len(), |i: int| g[g.len() - 1 - i])
}

/// Every row padded with unset cells to the longest row's length, then mirrored.
pub open spec fn flip_cols(g: Seq<Seq<bool>>) -> Seq<Seq<bool>> {
    let w = max_width(g);
    Seq::new(
        g.len(),
        |i: int| Seq::new(w, |j: int| w - 1 - j < g[i].len() && g[i][w - 1 - j]),
    )
}

/// Escape that starts inverse video.
pub open spec fn esc_on() -> Seq<char> {
    seq!['\x1b', '[', '7', 'm']
}

/// Escape that ends inverse video.
pub open spec fn esc_off() -> Seq<char> {
    seq!['\x1b', '[', '2', '7', 'm']
}

/// The text of cell `k` of a row: the escape that opens or closes a run of set
/// cells where one begins or ends there (with highlighting on), then the unit.
pub open spec fn cell_text(
    row: Seq<bool>,
    k: int,
    solid: Seq<char>,
    space: Seq<char>,
    hc: bool,
) -> Seq<char> {
    let prev = k > 0 && row[k - 1];
    let esc = if hc && row[k] && !prev {
        esc_on()
    } else if hc && !row[k] && prev {
        esc_off()
    } else {
        Seq::empty()
    };
    esc + if row[k] { solid } else { space }
}

/// The text of the first `n` cells of a row.
pub open spec fn cells_text(
    row: Seq<bool>,
    n: int,
    solid: Seq<char>,
    space: Seq<char>,
    hc: bool,
) -> Seq<char>
    decreases n,
{
    if n <= 0 {
        Seq::empty()
    } else {
        cells_text(row, n - 1, solid, space, hc) + cell_text(row, n - 1, solid, space, hc)
    }
}

/// The text of one row, closing a run that reaches its end, and a newline.
pub open spec fn row_text(row: Seq<bool>, solid: Seq<char>, space: Seq<char>, hc: bool) -> Seq<char> {
    let close = if hc && row.len() > 0 && row.last() { esc_off() } else { Seq::empty() };
    cells_text(row, row.len() as int, solid, space, hc) + close + seq!['\n']
}

/// The text of the first `n` rows.
pub open spec fn grid_text(
    g: Seq<Seq<bool>>,
    n: int,
    solid: Seq<char>,
    space: Seq<char>,
    hc: bool,
) -> Seq<char>
    decreases n,
{
    if n <= 0 {
        Seq::empty()
    } else {
        grid_text(g, n - 1, solid, space, hc) + row_text(g[n - 1], solid, space, hc)
    }
}

/// The display width of a string in terminal columns.
pub uninterp spec fn str_width(s: Seq<char>) -> nat;

/// Relies on `unicode_width::UnicodeWidthStr::width`: the number of terminal
/// columns the string occupies, which depends on its characters alone.
#[verifier::external_body]
fn display_width(s: &str) -> (r: usize)
    ensures
        r as nat == str_width(s@),
{
    s.width()
}

/// A growable grid of cells, each set or unset.
#[derive(Debug)]
pub struct Screen {
    lines: Vec<Vec<bool>>,
}

/// Where and how a grid is written out.
pub struct OutputCtx {
    pub writer: String,
    pub has_color: bool,
    pub space: Option<String>,
    pub solid: String,
}

impl OutputCtx {
    /// The unit written for an unset cell: the given one, or as many spaces as
    /// the set-cell unit is wide.
    pub open spec fn space_unit(&self) -> Seq<char> {
        match self.space {
            Some(s) => s@,
            None => Seq::new(str_width(self.solid@), |i: int| ' '),
        }
    }
}

impl View for Screen {
    type V = Seq<Seq<bool>>;

    closed spec fn view(&self) -> Seq<Seq<bool>> {
        Seq::new(self.lines@.len(), |i: int| self.lines@[i]@)
    }
}

impl Default for Screen {
    fn default() -> (r: Screen)
        ensures
            r@ == Seq::<Seq<bool>>::empty(),
    {
        Screen::new()
    }
}

impl Screen {
    /// An empty grid.
    pub fn new() -> (r: Screen)
        ensures
            r@ == Seq::<Seq<bool>>::empty(),
    {
        let r = Screen { lines: Vec::new() };
        assert(r@ =~= Seq::<Seq<bool>>::empty());
        r
    }

    fn set(&mut self, y: usize, x: usize)
        requires
            y < usize::MAX,
            x < usize::MAX,
        ensures
            final(self)@ == set_cell(old(self)@, y as int, x as int),
            grows(old(self)@, final(self)@),
    {
        proof {
            lemma_set_cell_grows(self@, y as int, x as int);
        }
        let ghost g = self@;
        while self.lines.len() <= y
            invariant
                y < usize::MAX,
                self.lines@.len() >= g.len(),
                y >= g.len() ==> self.lines@.len() <= y + 1,
                y < g.len() ==> self.lines@.len() == g.len(),
                forall|i: int| 0 <= i < g.len() ==> #[trigger] self.lines@[i]@ == g[i],
                forall|i: int| g.len() <= i < self.lines@.len() ==> #[trigger] self.lines@[i]@ == Seq::<bool>::empty(),
            decreases y + 1 - self.lines.len(),
        {
            self.lines.push(Vec::new());
        }
        let ghost g1 = self@;
        assert(g1.len() == (if y < g.len() { g.len() as int } else { y + 1 }));
        assert(forall|i: int| 0 <= i < g.len() ==> g1[i] == g[i]);
        assert(g1 =~= (if y < g.len() { g } else { g + Seq::new(
            (y + 1 - g.len()) as nat,
            |i: int| Seq::<bool>::empty(),
        ) }));
        let mut row: Vec<bool> = Vec::new();
        std::mem::swap(&mut row, &mut self.lines[y]);
        let ghost r0 = row@;
        while row.len() <= x
            invariant
                x < usize::MAX,
                r0 == g1[y as int],
                row@ == (if x < r0.len() { r0 } else { r0 + Seq::new(
                    (row@.len() - r0.len()) as nat,
                    |i: int| false,
                ) }),
                row@.len() >= r0.len(),
                x >= r0.len() ==> row@.len() <= x + 1,
                x < r0.len() ==> row@.len() == r0.len(),
            decreases x + 1 - row.len(),
        {
            row.push(false);
            assert(row@ =~= r0 + Seq::new((row@.len() - r0.len()) as nat, |i: int| false));
        }
        row.set(x, true);
        self.lines.set(y, row);
        assert(self@ =~= set_cell(g, y as int, x as int));
    }

    /// Sets `downs` cells downward from (`y`, `x`).
    pub fn bar(&mut self, y: usize, x: usize, downs: usize)
        requires
            y + downs <= usize::MAX,
            x < usize::MAX,
        ensures
            final(self)@ == bar_spec(old(self)@, y as int, x as int, downs as int),
            grows(old(self)@, final(self)@),
    {
        let mut i: usize = 0;
        while i < downs
            invariant
                i <= downs,
                y + downs <= usize::MAX,
                x < usize::MAX,
                self@ == bar_spec(old(self)@, y as int, x as int, i as int),
                grows(old(self)@, self@),
            decreases downs - i,
        {
            self.set(y + i, x);
            i += 1;
        }
    }

    /// Sets `len` cells rightward from (`y`, `x`).
    pub fn line(&mut self, y: usize, x: usize, len: usize)
        requires
            x + len <= usize::MAX,
            y < usize::MAX,
        ensures
            final(self)@ == line_spec(old(self)@, y as int, x as int, len as int),
            grows(old(self)@, final(self)@),
    {
        let mut i: usize = 0;
        while i < len
            invariant
                i <= len,
                x + len <= usize::MAX,
                y < usize::MAX,
                self@ == line_spec(old(self)@, y as int, x as int, i as int),
                grows(old(self)@, self@),
            decreases len - i,
        {
            self.set(y, x + i);
            i += 1;
        }
    }

    /// Turns the grid upside down.
    pub fn rev_y(&mut self)
        ensures
            final(self)@ == flip_rows(old(self)@),
    {
        let ghost g = self@;
        let mut out: Vec<Vec<bool>> = Vec::new();
        while self.lines.len() > 0
            invariant
                self@.len() + out@.len() == g.len(),
                forall|i: int| 0 <= i < self@.len() ==> #[trigger] self.lines@[i]@ == g[i],
                forall|i: int| 0 <= i < out@.len() ==> #[trigger] out@[i]@ == g[g.len() - 1 - i],
            decreases self.lines.len(),
        {
            let r = self.lines.pop().unwrap();
            out.push(r);
        }
        self.lines = out;
        assert(self@ =~= flip_rows(g));
    }

    /// Pads every row with unset cells to the longest row's length, then
    /// mirrors the grid left to right.
    pub fn rev_x(&mut self)
        ensures
            final(self)@ == flip_cols(old(self)@),
    {
        let ghost g = self@;
        let mut max_x: usize = 0;
        let mut i: usize = 0;
        while i < self.lines.len()
            invariant
                i <= self.lines@.len(),
                self@ == g,
                max_x == max_width(g.take(i as int)),
            decreases self.lines.len() - i,
        {
            assert(g.take(i as int + 1).drop_last() =~= g.take(i as int));
            if self.lines[i].len() > max_x {
                max_x = self.lines[i].len();
            }
            i += 1;
        }
        assert(g.take(i as int) =~= g);
        let mut i: usize = 0;
        while i < self.lines.len()
            invariant
                i <= self.lines@.len(),
                self.lines@.len() == g.len(),
                max_x == max_width(g),
                forall|k: int| i <= k < g.len() ==> #[trigger] self.lines@[k]@ == g[k],
                forall|k: int| 0 <= k < i ==> #[trigger] self.lines@[k]@ == flip_cols(g)[k],
            decreases self.lines.len() - i,
        {
            let mut row: Vec<bool> = Vec::new();
            let n = self.lines[i].len();
            let mut j: usize = 0;
            while j < max_x
                invariant
                    j <= max_x,
                    n == g[i as int].len(),
                    i < g.len(),
                    self.lines@.len() == g.len(),
                    self.lines@[i as int]@ == g[i as int],
                    max_x == max_width(g),
                    row@ =~= flip_cols(g)[i as int].take(j as int),
                decreases max_x - j,
            {
                let from_end = max_x - 1 - j;
                let v = from_end < n && self.lines[i][from_end];
                row.push(v);
                j += 1;
                assert(row@ =~= flip_cols(g)[i as int].take(j as int));
            }
            self.lines.set(i, row);
            i += 1;
        }
        assert(self@ =~= flip_cols(g));
    }

    /// Appends the grid to the writer: per row, the set-cell unit or the
    /// unset-cell unit for each cell and a newline; with highlighting, each run
    /// of set cells is enclosed in one pair of inverse-video escapes.
    pub fn print(&self, ctx: &mut OutputCtx)
        ensures
            final(ctx).writer@ == old(ctx).writer@ + grid_text(
                self@,
                self@.len() as int,
                old(ctx).solid@,
                old(ctx).space_unit(),
                old(ctx).has_color,
            ),
            final(ctx).solid == old(ctx).solid,
            final(ctx).space == old(ctx).space,
            final(ctx).has_color == old(ctx).has_color,
    {
        let hc = ctx.has_color;
        let mut space = String::new();
        match &ctx.space {
            Some(s) => {
                space.append(s.as_str());
            },
            None => {
                let w = display_width(ctx.solid.as_str());
                let mut k: usize = 0;
                while k < w
                    invariant
                        k <= w,
                        space@ =~= Seq::new(k as nat, |i: int| ' '),
                    decreases w - k,
                {
                    proof { reveal_strlit(" "); }
                    space.append(" ");
                    k += 1;
                }
            },
        }
        assert(space@ =~= ctx.space_unit());
        let ghost solid = ctx.solid@;
        let ghost w0 = ctx.writer@;
        let ghost g = self@;
        let mut i: usize = 0;
        while i < self.lines.len()
            invariant
                i <= self.lines@.len(),
                g == self@,
                solid == ctx.solid@,
                hc == ctx.has_color,
                ctx.solid == old(ctx).solid,
                ctx.space == old(ctx).space,
                ctx.has_color == old(ctx).has_color,
                space@ == old(ctx).space_unit(),
                ctx.writer@ == w0 + grid_text(g, i as int, solid, space@, hc),
            decreases self.lines.len() - i,
        {
            let ghost row = g[i as int];
            let mut color = false;
            let mut k: usize = 0;
            while k < self.lines[i].len()
                invariant
                    i < self.lines@.len(),
                    k <= row.len(),
                    row == self.lines@[i as int]@,
                    g == self@,
                    solid == ctx.solid@,
                    hc == ctx.has_color,
                    ctx.solid == old(ctx).solid,
                    ctx.space == old(ctx).space,
                    ctx.has_color == old(ctx).has_color,
                    color == (hc && k > 0 && row[k - 1]),
                    ctx.writer@ == w0 + grid_text(g, i as int, solid, space@, hc) + cells_text(row, k as int, solid, space@, hc),
                decreases row.len() - k,
            {
                let ghost before = ctx.writer@;
                proof {
                    reveal_strlit("\x1b[7m");
                    reveal_strlit("\x1b[27m");
                    assert("\x1b[7m"@ =~= esc_on());
                    assert("\x1b[27m"@ =~= esc_off());
                }
                if self.lines[i][k] {
                    if hc && !color {
                        ctx.writer.append("\x1b[7m");
                        color = true;
                    }
                    ctx.writer.append(ctx.solid.as_str());
                } else {
                    if color {
                        ctx.writer.append("\x1b[27m");
                        color = false;
                    }
                    ctx.writer.append(space.as_str());
                }
                assert(ctx.writer@ =~= before + cell_text(row, k as int, solid, space@, hc));
                k += 1;
            }
            let ghost before = ctx.writer@;
            proof {
                reveal_strlit("\x1b[27m");
                reveal_strlit("\n");
                assert("\x1b[27m"@ =~= esc_off());
                assert("\n"@ =~= seq!['\n']);
            }
            if color {
                ctx.writer.append("\x1b[27m");
            }
            ctx.writer.append("\n");
            assert(ctx.writer@ =~= before + (if hc && row.len() > 0 && row.last() { esc_off() } else { Seq::empty() }) + seq!['\n']);
            i += 1;
        }
    }
}

} // verus!
