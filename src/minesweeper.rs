use vstd::prelude::*;

use crate::text::{chars_of, push_char};

verus! {

/// There is a mine at row `i`, column `j` of the field.
pub open spec fn is_mine(f: Seq<Seq<char>>, i: int, j: int) -> bool {
    0 <= i < f.len() && 0 <= j < f[i].len() && f[i][j] == '*'
}

pub open spec fn count_if(b: bool) -> nat {
    if b {
        1
    } else {
        0
    }
}

/// The mines on the eight squares around row `i`, column `j`.
pub open spec fn mines_around(f: Seq<Seq<char>>, i: int, j: int) -> nat {
    count_if(is_mine(f, i - 1, j - 1)) + count_if(is_mine(f, i - 1, j)) + count_if(
        is_mine(f, i - 1, j + 1),
    ) + count_if(is_mine(f, i, j - 1)) + count_if(is_mine(f, i, j + 1)) + count_if(
        is_mine(f, i + 1, j - 1),
    ) + count_if(is_mine(f, i + 1, j)) + count_if(is_mine(f, i + 1, j + 1))
}

/// What a square shows once annotated: a mine stays a mine; any other square
/// shows how many mines surround it, or stays blank if there are none.
pub open spec fn annotated(f: Seq<Seq<char>>, i: int, j: int) -> char {
    if f[i][j] == '*' {
        '*'
    } else if mines_around(f, i, j) == 0 {
        ' '
    } else {
        ((mines_around(f, i, j) + 48) as u8) as char
    }
}

pub open spec fn field_of(rows: Seq<&str>) -> Seq<Seq<char>> {
    rows.map_values(|r: &str| r@)
}

fn mine_at(f: &Vec<Vec<char>>, i: usize, j: usize, di: i8, dj: i8) -> (r: u8)
    requires
        -1 <= di <= 1,
        -1 <= dj <= 1,
        i < f@.len(),
        i < usize::MAX,
        j < usize::MAX,
    ensures
        r == count_if(is_mine(f@.map_values(|v: Vec<char>| v@), i + di, j + dj)),
{
    let ghost g = f@.map_values(|v: Vec<char>| v@);
    if (i == 0 && di < 0) || (j == 0 && dj < 0) {
        return 0;
    }
    let ii = if di < 0 {
        i - 1
    } else if di > 0 {
        i + 1
    } else {
        i
    };
    let jj = if dj < 0 {
        j - 1
    } else if dj > 0 {
        j + 1
    } else {
        j
    };
    if ii >= f.len() || jj >= f[ii].len() {
        return 0;
    }
    assert(g[ii as int] == f@[ii as int]@);
    if f[ii][jj] == '*' {
        1
    } else {
        0
    }
}

/// Marks each square of a minefield with the number of mines around it.
pub fn annotate(minefield: &[&str]) -> (r: Vec<String>)
    ensures
        r@.len() == minefield@.len(),
        forall|i: int|
            0 <= i < r@.len() ==> (#[trigger] r@[i])@ == Seq::new(
                minefield@[i]@.len(),
                |j: int| annotated(field_of(minefield@), i, j),
            ),
{
    let ghost fld = field_of(minefield@);
    let mut grid: Vec<Vec<char>> = Vec::new();
    let mut i: usize = 0;
    while i < minefield.len()
        invariant
            i <= minefield@.len(),
            grid@.len() == i,
            forall|k: int| 0 <= k < i ==> (#[trigger] grid@[k])@ == minefield@[k]@,
        decreases minefield.len() - i,
    {
        grid.push(chars_of(minefield[i]));
        i = i + 1;
    }
    assert(grid@.map_values(|v: Vec<char>| v@) =~= fld);
    let mut res: Vec<String> = Vec::new();
    let mut i: usize = 0;
    while i < grid.len()
        invariant
            grid@.map_values(|v: Vec<char>| v@) == fld,
            fld == field_of(minefield@),
            grid@.len() == minefield@.len(),
            i <= grid@.len(),
            res@.len() == i,
            forall|k: int|
                0 <= k < i ==> (#[trigger] res@[k])@ == Seq::new(
                    minefield@[k]@.len(),
                    |j: int| annotated(fld, k, j),
                ),
        decreases grid.len() - i,
    {
        assert(fld[i as int] == grid@[i as int]@);
        let width = grid[i].len();
        let height = grid.len();
        assert(i < usize::MAX) by {
            assert(i < height);
        }
        let mut line = String::new();
        let mut j: usize = 0;
        while j < width
            invariant
                grid@.map_values(|v: Vec<char>| v@) == fld,
                i < grid@.len(),
                i < usize::MAX,
                width == fld[i as int].len(),
                j <= width,
                line@ == Seq::new(j as nat, |x: int| annotated(fld, i as int, x)),
            decreases width - j,
        {
            let c = if grid[i][j] == '*' {
                '*'
            } else {
                let n = mine_at(&grid, i, j, -1, -1) + mine_at(&grid, i, j, -1, 0) + mine_at(
                    &grid,
                    i,
                    j,
                    -1,
                    1,
                ) + mine_at(&grid, i, j, 0, -1) + mine_at(&grid, i, j, 0, 1) + mine_at(
                    &grid,
                    i,
                    j,
                    1,
                    -1,
                ) + mine_at(&grid, i, j, 1, 0) + mine_at(&grid, i, j, 1, 1);
                if n == 0 {
                    ' '
                } else {
                    (n + 48) as char
                }
            };
            assert(c == annotated(fld, i as int, j as int));
            push_char(&mut line, c);
            j = j + 1;
            assert(line@ =~= Seq::new(j as nat, |x: int| annotated(fld, i as int, x)));
        }
        res.push(line);
        i = i + 1;
    }
    res
}

} // verus!
