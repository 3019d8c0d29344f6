use vstd::prelude::*;

use crate::text::chars_of;

verus! {

/// The character at row `r`, column `k`, if there is one.
pub open spec fn at(g: Seq<Seq<char>>, r: int, k: int) -> Option<char> {
    if 0 <= r < g.len() && 0 <= k < g[r].len() {
        Some(g[r][k])
    } else {
        None
    }
}

/// A horizontal side may pass through this character.
pub open spec fn edge(c: Option<char>) -> bool {
    c == Some('-') || c == Some('+')
}

/// A vertical side may pass through this character.
pub open spec fn side(c: Option<char>) -> bool {
    c == Some('|') || c == Some('+')
}

/// Column `k` can be the left or right side of a rectangle with top row `i`
/// and bottom row `j`: corners on both rows, a vertical side between them.
pub open spec fn corner_col(g: Seq<Seq<char>>, i: int, j: int, k: int) -> bool {
    &&& at(g, i, k) == Some('+')
    &&& at(g, j, k) == Some('+')
    &&& forall|r: int| i < r < j ==> side(#[trigger] at(g, r, k))
}

/// The corner columns before column `k` that reach it along unbroken
/// horizontal sides on rows `i` and `j`.
pub open spec fn run_corners(g: Seq<Seq<char>>, i: int, j: int, k: nat) -> nat
    decreases k,
{
    if k == 0 {
        0
    } else if !(edge(at(g, i, k - 1)) && edge(at(g, j, k - 1))) {
        0
    } else {
        run_corners(g, i, j, (k - 1) as nat) + if corner_col(g, i, j, k - 1) {
            1nat
        } else {
            0nat
        }
    }
}

/// The rectangles with top row `i`, bottom row `j` and right side before column `k`.
pub open spec fn rects_between(g: Seq<Seq<char>>, i: int, j: int, k: nat) -> nat
    decreases k,
{
    if k == 0 {
        0
    } else {
        rects_between(g, i, j, (k - 1) as nat) + if corner_col(g, i, j, k - 1) {
            run_corners(g, i, j, (k - 1) as nat)
        } else {
            0
        }
    }
}

/// The rectangles with top row `i` and bottom row before `m`.
pub open spec fn rects_from(g: Seq<Seq<char>>, i: int, m: nat) -> nat
    decreases m,
{
    if m == 0 || m - 1 <= i {
        0
    } else {
        rects_from(g, i, (m - 1) as nat) + rects_between(g, i, m - 1, g[i].len())
    }
}

/// The rectangles with top row before `n`.
pub open spec fn rects(g: Seq<Seq<char>>, n: nat) -> nat
    decreases n,
{
    if n == 0 {
        0
    } else {
        rects(g, (n - 1) as nat) + rects_from(g, n - 1, g.len())
    }
}

proof fn lemma_rects_between_grows(g: Seq<Seq<char>>, i: int, j: int, k: nat, m: nat)
    requires
        k <= m,
    ensures
        rects_between(g, i, j, k) <= rects_between(g, i, j, m),
    decreases m,
{
    if k < m {
        lemma_rects_between_grows(g, i, j, k, (m - 1) as nat);
    }
}

proof fn lemma_rects_from_grows(g: Seq<Seq<char>>, i: int, k: nat, m: nat)
    requires
        k <= m,
    ensures
        rects_from(g, i, k) <= rects_from(g, i, m),
    decreases m,
{
    if k < m {
        lemma_rects_from_grows(g, i, k, (m - 1) as nat);
    }
}

proof fn lemma_rects_grows(g: Seq<Seq<char>>, k: nat, m: nat)
    requires
        k <= m,
    ensures
        rects(g, k) <= rects(g, m),
    decreases m,
{
    if k < m {
        lemma_rects_grows(g, k, (m - 1) as nat);
    }
}

pub open spec fn grid_view(g: Seq<Vec<char>>) -> Seq<Seq<char>> {
    g.map_values(|v: Vec<char>| v@)
}

pub open spec fn grid_of(lines: Seq<&str>) -> Seq<Seq<char>> {
    lines.map_values(|l: &str| l@)
}

/// Whether column `k` has a vertical side between rows `i` and `j`.
fn side_between(g: &Vec<Vec<char>>, i: usize, j: usize, k: usize) -> (r: bool)
    requires
        i < j <= g@.len(),
    ensures
        r == forall|r: int| i < r < j ==> side(#[trigger] at(grid_view(g@), r, k as int)),
{
    let ghost gv = grid_view(g@);
    let mut r = i + 1;
    while r < j
        invariant
            gv == grid_view(g@),
            i < r <= j,
            j <= g@.len(),
            forall|x: int| i < x < r ==> side(#[trigger] at(gv, x, k as int)),
        decreases j - r,
    {
        assert(gv[r as int] == g@[r as int]@);
        if k >= g[r].len() || !(g[r][k] == '|' || g[r][k] == '+') {
            assert(!side(at(gv, r as int, k as int)));
            return false;
        }
        r = r + 1;
    }
    true
}

/// Counts the rectangles drawn with `+` corners, `-` and `|` sides.
pub fn count(lines: &[&str]) -> (r: u32)
    requires
        rects(grid_of(lines@), lines@.len()) <= u32::MAX,
    ensures
        r == rects(grid_of(lines@), lines@.len()),
{
    let ghost gv = grid_of(lines@);
    let n = lines.len();
    let mut g: Vec<Vec<char>> = Vec::new();
    let mut x: usize = 0;
    while x < n
        invariant
            n == lines@.len(),
            x <= n,
            g@.len() == x,
            forall|y: int| 0 <= y < x ==> (#[trigger] g@[y])@ == lines@[y]@,
        decreases n - x,
    {
        g.push(chars_of(lines[x]));
        x = x + 1;
    }
    assert(grid_view(g@) =~= gv);
    let mut sum: u64 = 0;
    let mut i: usize = 0;
    while i < n
        invariant
            n == gv.len(),
            gv == grid_view(g@),
            gv == grid_of(lines@),
            i <= n,
            sum == rects(gv, i as nat),
            rects(gv, n as nat) <= u32::MAX,
        decreases n - i,
    {
        let mut j: usize = i + 1;
        let ghost base = sum;
        proof {
            lemma_rects_grows(gv, (i + 1) as nat, n as nat);
        }
        assert(rects_from(gv, i as int, (i + 1) as nat) == 0);
        while j < n
            invariant
                n == gv.len(),
                gv == grid_view(g@),
                i < j <= n,
                sum == base + rects_from(gv, i as int, j as nat),
                base + rects_from(gv, i as int, n as nat) <= u32::MAX,
            decreases n - j,
        {
            assert(gv[i as int] == g@[i as int]@);
            assert(gv[j as int] == g@[j as int]@);
            let width = g[i].len();
            let ghost before = sum;
            proof {
                lemma_rects_from_grows(gv, i as int, (j + 1) as nat, n as nat);
            }
            let mut run_pairs: u64 = 0;
            let mut dot: u64 = 0;
            let mut k: usize = 0;
            while k < width
                invariant
                    n == gv.len(),
                    gv == grid_view(g@),
                    i < j < n,
                    width == gv[i as int].len(),
                    k <= width,
                    dot == run_corners(gv, i as int, j as int, k as nat),
                    sum + run_pairs == before + rects_between(gv, i as int, j as int, k as nat),
                    before + rects_between(gv, i as int, j as int, width as nat) <= u32::MAX,
                decreases width - k,
            {
                proof {
                    lemma_rects_between_grows(gv, i as int, j as int, (k + 1) as nat, width as nat);
                }
                let a = g[i][k];
                let b = if k < g[j].len() {
                    Some(g[j][k])
                } else {
                    None
                };
                assert(at(gv, i as int, k as int) == Some(a));
                assert(at(gv, j as int, k as int) == b);
                if a == '+' && b == Some('+') {
                    if side_between(&g, i, j, k) {
                        run_pairs = run_pairs + dot;
                        dot = dot + 1;
                    }
                } else if (a == '-' || a == '+') && (b == Some('-') || b == Some('+')) {
                } else {
                    sum = sum + run_pairs;
                    run_pairs = 0;
                    dot = 0;
                }
                k = k + 1;
            }
            sum = sum + run_pairs;
            j = j + 1;
        }
        i = i + 1;
    }
    sum as u32
}

} // verus!
