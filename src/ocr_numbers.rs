use vstd::prelude::*;

use crate::text::{chars_of, push_char};

verus! {

#[derive(Debug, PartialEq, Eq, Structural)]
pub enum Error {
    InvalidRowCount(usize),
    InvalidColumnCount(usize),
}

/// The lines of `s`, continuing a line `cur` already under way: the text
/// between line breaks, an empty line included.
pub open spec fn split_from(s: Seq<char>, cur: Seq<char>) -> Seq<Seq<char>>
    decreases s.len(),
{
    if s.len() == 0 {
        seq![cur]
    } else if s[0] == '\n' {
        seq![cur] + split_from(s.drop_first(), seq![])
    } else {
        split_from(s.drop_first(), cur.push(s[0]))
    }
}

pub open spec fn lines_of(s: Seq<char>) -> Seq<Seq<char>> {
    split_from(s, seq![])
}

/// The twelve characters (four rows of three) that draw the digit `d`.
pub open spec fn pattern(d: int) -> Seq<char> {
    if d == 0 {
        " _ | ||_|   "@
    } else if d == 1 {
        "     |  |   "@
    } else if d == 2 {
        " _  _||_    "@
    } else if d == 3 {
        " _  _| _|   "@
    } else if d == 4 {
        "   |_|  |   "@
    } else if d == 5 {
        " _ |_  _|   "@
    } else if d == 6 {
        " _ |_ |_|   "@
    } else if d == 7 {
        " _   |  |   "@
    } else if d == 8 {
        " _ |_||_|   "@
    } else {
        " _ |_| _|   "@
    }
}

/// The digit that `cell` draws, looking from pattern `d` on; `?` for none.
pub open spec fn digit_from(d: int, cell: Seq<char>) -> char
    decreases 10 - d,
{
    if d >= 10 || d < 0 {
        '?'
    } else if cell == pattern(d) {
        ((d + 48) as u8) as char
    } else {
        digit_from(d + 1, cell)
    }
}

pub open spec fn read_cell(cell: Seq<char>) -> char {
    digit_from(0, cell)
}

/// The cell in column `c` of the `g`-th group of four lines.
pub open spec fn cell_at(rows: Seq<Seq<char>>, g: int, c: int) -> Seq<char> {
    rows[4 * g].subrange(3 * c, 3 * c + 3) + rows[4 * g + 1].subrange(3 * c, 3 * c + 3) + rows[4
        * g + 2].subrange(3 * c, 3 * c + 3) + rows[4 * g + 3].subrange(3 * c, 3 * c + 3)
}

/// The digits of the `g`-th group of lines, as wide as its first line.
pub open spec fn group_text(rows: Seq<Seq<char>>, g: int) -> Seq<char> {
    Seq::new(rows[4 * g].len() / 3, |c: int| read_cell(cell_at(rows, g, c)))
}

/// The digits of the first `n` groups, the groups separated by commas.
pub open spec fn text_of(rows: Seq<Seq<char>>, n: nat) -> Seq<char>
    decreases n,
{
    if n == 0 {
        seq![]
    } else if n == 1 {
        group_text(rows, 0)
    } else {
        text_of(rows, (n - 1) as nat).push(',') + group_text(rows, n - 1)
    }
}

/// The length of the longest of the first `k` lines.
pub open spec fn max_len(rows: Seq<Seq<char>>, k: nat) -> nat
    decreases k,
{
    if k == 0 || k > rows.len() {
        0
    } else if rows[k - 1].len() > max_len(rows, (k - 1) as nat) {
        rows[k - 1].len()
    } else {
        max_len(rows, (k - 1) as nat)
    }
}

/// The later lines of each group are at least as long as its first.
pub open spec fn groups_fit(rows: Seq<Seq<char>>) -> bool {
    forall|g: int, k: int|
        0 <= g < rows.len() / 4 && 1 <= k < 4 ==> #[trigger] rows[4 * g + k].len() >= rows[4
            * g].len()
}

/// What the drawing `s` reads as: the line count must be a multiple of 4 and
/// every line's length a multiple of 3.
pub open spec fn ocr(s: Seq<char>) -> Result<Seq<char>, Error> {
    let rows = lines_of(s);
    if rows.len() % 4 != 0 {
        Err(Error::InvalidRowCount(rows.len() as usize))
    } else if exists|i: int| 0 <= i < rows.len() && #[trigger] rows[i].len() % 3 != 0 {
        Err(Error::InvalidColumnCount(max_len(rows, rows.len()) as usize))
    } else {
        Ok(text_of(rows, rows.len() / 4))
    }
}

/// A drawn digit: four rows of three characters.
#[derive(Debug, PartialEq, Eq)]
pub struct Digit {
    cells: Vec<char>,
}

pub open spec fn strip_breaks(s: Seq<char>) -> Seq<char>
    decreases s.len(),
{
    if s.len() == 0 {
        seq![]
    } else if s.last() == '\n' {
        strip_breaks(s.drop_last())
    } else {
        strip_breaks(s.drop_last()).push(s.last())
    }
}

fn same_chars(a: &Vec<char>, b: &Vec<char>) -> (r: bool)
    ensures
        r == (a@ == b@),
{
    if a.len() != b.len() {
        return false;
    }
    let mut i: usize = 0;
    while i < a.len()
        invariant
            a.len() == b.len(),
            i <= a.len(),
            forall|j: int| 0 <= j < i ==> a@[j] == b@[j],
        decreases a.len() - i,
    {
        if a[i] != b[i] {
            return false;
        }
        i = i + 1;
    }
    assert(a@ =~= b@);
    true
}

fn pattern_chars(d: u8) -> (r: Vec<char>)
    requires
        d < 10,
    ensures
        r@ == pattern(d as int),
{
    let p = if d == 0 {
        " _ | ||_|   "
    } else if d == 1 {
        "     |  |   "
    } else if d == 2 {
        " _  _||_    "
    } else if d == 3 {
        " _  _| _|   "
    } else if d == 4 {
        "   |_|  |   "
    } else if d == 5 {
        " _ |_  _|   "
    } else if d == 6 {
        " _ |_ |_|   "
    } else if d == 7 {
        " _   |  |   "
    } else if d == 8 {
        " _ |_||_|   "
    } else {
        " _ |_| _|   "
    };
    chars_of(p)
}

/// The digit that `cell` draws, or `?`.
fn read(cell: &Vec<char>) -> (r: char)
    ensures
        r == read_cell(cell@),
{
    let mut d: u8 = 0;
    while d < 10
        invariant
            d <= 10,
            digit_from(d as int, cell@) == read_cell(cell@),
        decreases 10 - d,
    {
        if same_chars(cell, &pattern_chars(d)) {
            return (d + 48) as char;
        }
        d = d + 1;
    }
    '?'
}

impl Digit {
    pub closed spec fn cells_spec(&self) -> Seq<char> {
        self.cells@
    }

    /// A digit drawn by the characters of `value` other than line breaks, of
    /// which there must be twelve.
    pub fn from(value: &str) -> (r: Digit)
        requires
            strip_breaks(value@).len() == 12,
        ensures
            r.cells_spec() == strip_breaks(value@),
    {
        let s = chars_of(value);
        let mut cells: Vec<char> = Vec::new();
        let mut i: usize = 0;
        while i < s.len()
            invariant
                s@ == value@,
                i <= s@.len(),
                cells@ == strip_breaks(s@.take(i as int)),
            decreases s.len() - i,
        {
            assert(s@.take(i + 1).drop_last() =~= s@.take(i as int));
            if s[i] != '\n' {
                cells.push(s[i]);
            }
            i = i + 1;
        }
        assert(s@.take(i as int) =~= s@);
        Digit { cells }
    }

    /// The digit drawn, as text: `0` to `9`, or `?` for a drawing of none.
    pub fn to_string(&self) -> (r: String)
        ensures
            r@ == seq![read_cell(self.cells_spec())],
    {
        let mut s = String::new();
        push_char(&mut s, read(&self.cells));
        assert(s@ =~= seq![read_cell(self.cells_spec())]);
        s
    }
}

pub open spec fn views(rows: Seq<Vec<char>>) -> Seq<Seq<char>> {
    rows.map_values(|r: Vec<char>| r@)
}

/// Splits `s` into its lines.
fn split_lines(s: &Vec<char>) -> (r: Vec<Vec<char>>)
    ensures
        views(r@) == lines_of(s@),
{
    let n = s.len();
    let mut rows: Vec<Vec<char>> = Vec::new();
    let mut cur: Vec<char> = Vec::new();
    let mut i: usize = 0;
    assert(s@.subrange(0, n as int) =~= s@);
    assert(views(rows@) + split_from(s@, cur@) =~= lines_of(s@));
    while i < n
        invariant
            n == s@.len(),
            i <= n,
            views(rows@) + split_from(s@.subrange(i as int, n as int), cur@) == lines_of(s@),
        decreases n - i,
    {
        let c = s[i];
        let ghost rest = s@.subrange(i as int, n as int);
        assert(rest.drop_first() =~= s@.subrange(i + 1, n as int));
        let ghost before = views(rows@);
        if c == '\n' {
            let ghost line = cur@;
            rows.push(cur);
            assert(views(rows@) =~= before + seq![line]);
            cur = Vec::new();
            assert(before + (seq![line] + split_from(s@.subrange(i + 1, n as int), seq![]))
                =~= (before + seq![line]) + split_from(s@.subrange(i + 1, n as int), seq![]));
        } else {
            cur.push(c);
        }
        i = i + 1;
    }
    assert(s@.subrange(n as int, n as int) =~= Seq::<char>::empty());
    let ghost before = views(rows@);
    let ghost line = cur@;
    rows.push(cur);
    assert(views(rows@) =~= before + seq![line]);
    rows
}

/// The first `k` of the four slices that make up a cell.
pub open spec fn cell_prefix(rows: Seq<Seq<char>>, g: int, c: int, k: int) -> Seq<char>
    decreases k,
{
    if k <= 0 {
        seq![]
    } else {
        cell_prefix(rows, g, c, k - 1) + rows[4 * g + k - 1].subrange(3 * c, 3 * c + 3)
    }
}

/// The cell in column `c` of group `g`.
fn cell(rows: &Vec<Vec<char>>, g: usize, c: usize) -> (r: Vec<char>)
    requires
        4 * g + 3 < rows@.len(),
        4 * g + 3 <= usize::MAX,
        3 * c + 3 <= usize::MAX,
        forall|k: int| 0 <= k < 4 ==> 3 * c + 3 <= #[trigger] rows@[4 * g + k]@.len(),
    ensures
        r@ == cell_at(views(rows@), g as int, c as int),
{
    let ghost rs = views(rows@);
    let mut out: Vec<char> = Vec::new();
    let mut k: usize = 0;
    while k < 4
        invariant
            rs == views(rows@),
            4 * g + 3 < rows@.len(),
            4 * g + 3 <= usize::MAX,
            3 * c + 3 <= usize::MAX,
            forall|k: int| 0 <= k < 4 ==> 3 * c + 3 <= #[trigger] rows@[4 * g + k]@.len(),
            k <= 4,
            out@ == cell_prefix(rs, g as int, c as int, k as int),
        decreases 4 - k,
    {
        let row = &rows[4 * g + k];
        assert(rs[4 * g + k] == row@);
        assert(3 * c + 3 <= rows@[4 * g + k]@.len());
        let mut x: usize = 0;
        while x < 3
            invariant
                rs[4 * g + k] == row@,
                3 * c + 3 <= row@.len(),
                3 * c + 3 <= usize::MAX,
                k < 4,
                4 * g + 3 < rs.len(),
                x <= 3,
                out@ == cell_prefix(rs, g as int, c as int, k as int) + row@.subrange(
                    3 * c as int,
                    3 * c + x,
                ),
            decreases 3 - x,
        {
            out.push(row[3 * c + x]);
            x = x + 1;
            assert(out@ =~= cell_prefix(rs, g as int, c as int, k as int) + row@.subrange(
                3 * c as int,
                3 * c + x,
            ));
        }
        k = k + 1;
    }
    proof {
        reveal_with_fuel(cell_prefix, 5);
    }
    assert(cell_at(rs, g as int, c as int) =~= cell_prefix(rs, g as int, c as int, 4));
    out
}

/// Reads the digits drawn in `input`: groups of four lines, each a row of
/// cells three characters wide. A cell that draws no digit reads as `?`;
/// groups are separated by commas.
pub fn convert(input: &str) -> (r: Result<String, Error>)
    requires
        ocr(input@) is Ok ==> groups_fit(lines_of(input@)),
    ensures
        match ocr(input@) {
            Ok(t) => r matches Ok(s) && s@ == t,
            Err(e) => r == Err::<String, Error>(e),
        },
{
    let chars = chars_of(input);
    let rows = split_lines(&chars);
    let ghost rs = views(rows@);
    if rows.len() % 4 != 0 {
        return Err(Error::InvalidRowCount(rows.len()));
    }
    let mut bad = false;
    let mut widest: usize = 0;
    let mut i: usize = 0;
    while i < rows.len()
        invariant
            rs == views(rows@),
            i <= rows@.len(),
            widest == max_len(rs, i as nat),
            bad == exists|j: int| 0 <= j < i && #[trigger] rs[j].len() % 3 != 0,
        decreases rows.len() - i,
    {
        assert(rs[i as int] == rows@[i as int]@);
        let w = rows[i].len();
        if w % 3 != 0 {
            bad = true;
        }
        if w > widest {
            widest = w;
        }
        i = i + 1;
    }
    if bad {
        return Err(Error::InvalidColumnCount(widest));
    }
    let nrows = rows.len();
    let groups = nrows / 4;
    let mut res = String::new();
    let mut g: usize = 0;
    while g < groups
        invariant
            rs == views(rows@),
            nrows == rs.len(),
            groups == rs.len() / 4,
            rs.len() % 4 == 0,
            groups_fit(rs),
            forall|j: int| 0 <= j < rs.len() ==> #[trigger] rs[j].len() % 3 == 0,
            g <= groups,
            res@ == text_of(rs, g as nat),
        decreases groups - g,
    {
        if g > 0 {
            push_char(&mut res, ',');
        }
        let ghost start = res@;
        assert(rs[4 * g as int] == rows@[4 * g as int]@);
        let width = rows[4 * g].len();
        let mut c: usize = 0;
        while c < width / 3
            invariant
                rs == views(rows@),
                nrows == rs.len(),
                groups == rs.len() / 4,
                g < groups,
                groups_fit(rs),
                width == rs[4 * g as int].len(),
                c <= width / 3,
                res@ == start + group_text(rs, g as int).take(c as int),
            decreases width / 3 - c,
        {
            proof {
                assert forall|k: int| 0 <= k < 4 implies 3 * c + 3 <= #[trigger] rows@[4 * g + k]@.len() by {
                    assert(rs[4 * g + k] == rows@[4 * g + k]@);
                    if k > 0 {
                        assert(rs[4 * g + k].len() >= rs[4 * g as int].len());
                    }
                }
            }
            assert(4 * g + 3 < rows.len());
            let d = read(&cell(&rows, g, c));
            push_char(&mut res, d);
            c = c + 1;
            assert(res@ =~= start + group_text(rs, g as int).take(c as int));
        }
        assert(group_text(rs, g as int).take(c as int) =~= group_text(rs, g as int));
        g = g + 1;
    }
    Ok(res)
}

} // verus!
