//! Text helpers: fields joined by spaces, and rows of cells laid out in
//! aligned columns.
use vstd::prelude::*;
use vstd::string::*;

verus! {

/// Relies on `String::push`: appends `c`.
#[verifier::external_body]
pub(crate) fn push_char(s: &mut String, c: char)
    ensures
        final(s)@ == old(s)@.push(c),
{
    s.push(c);
}

/// `field` after `text`, with a space between them where `text` is not empty.
pub open spec fn with_field(text: Seq<char>, field: Seq<char>) -> Seq<char> {
    if text.len() == 0 {
        field
    } else {
        text + seq![' '] + field
    }
}

/// Text that grows field by field.
pub trait PushField {
    /// The characters held so far.
    spec fn text(&self) -> Seq<char>;

    /// Appends `field`, after a space unless nothing was held.
    fn push_field(&mut self, field: &str)
        ensures
            final(self).text() == with_field(old(self).text(), field@),
    ;
}

impl PushField for String {
    open spec fn text(&self) -> Seq<char> {
        self@
    }

    fn push_field(&mut self, field: &str) {
        if self.as_str().unicode_len() > 0 {
            push_char(self, ' ');
        }
        self.append(field);
    }
}

/// The position of the last `c` in `s`, if any.
pub open spec fn last_index(s: Seq<char>, c: char) -> Option<int>
    decreases s.len(),
{
    if s.len() == 0 {
        None
    } else if s.last() == c {
        Some(s.len() - 1)
    } else {
        last_index(s.drop_last(), c)
    }
}

pub(crate) proof fn lemma_last_index_skip(s: Seq<char>, j: int, c: char)
    requires
        0 <= j <= s.len(),
        forall|k: int| j <= k < s.len() ==> s[k] != c,
    ensures
        last_index(s, c) == last_index(s.take(j), c),
    decreases s.len() - j,
{
    if j < s.len() {
        assert(s.drop_last() =~= s.take(s.len() - 1));
        lemma_last_index_skip(s.drop_last(), j, c);
        assert(s.drop_last().take(j) =~= s.take(j));
    } else {
        assert(s.take(j) =~= s);
    }
}

/// The name a program goes by: the part of the path `path` after its last
/// separator `sep`, or `cjdnstool` where there is no path or that part is
/// empty.
pub open spec fn exe_name_spec(path: Option<Seq<char>>, sep: char) -> Seq<char> {
    match path {
        Some(p) => {
            let tail = match last_index(p, sep) {
                Some(i) => p.skip(i + 1),
                None => p,
            };
            if tail.len() > 0 {
                tail
            } else {
                "cjdnstool"@
            }
        },
        None => "cjdnstool"@,
    }
}

/// The name a program goes by, from the path it was started with.
pub fn exe_name_of(path: Option<&str>, sep: char) -> (r: String)
    ensures
        r@ == exe_name_spec(
            match path {
                Some(p) => Some(p@),
                None => None,
            },
            sep,
        ),
{
    if let Some(p) = path {
        let n = p.unicode_len();
        let mut j: usize = n;
        while j > 0 && p.get_char(j - 1) != sep
            invariant
                j <= n,
                n == p@.len(),
                forall|k: int| j <= k < n ==> p@[k] != sep,
            decreases j,
        {
            j = j - 1;
        }
        proof {
            lemma_last_index_skip(p@, j as int, sep);
            if j > 0 {
                assert(p@.take(j as int).drop_last() =~= p@.take(j - 1));
            } else {
                assert(p@.take(0) =~= Seq::<char>::empty());
            }
        }
        let tail = p.substring_char(j, n);
        assert(j == 0 ==> tail@ =~= p@);
        assert(j > 0 ==> tail@ =~= p@.skip(j as int));
        if tail.unicode_len() > 0 {
            return String::from_str(tail);
        }
    }
    String::from_str("cjdnstool")
}

/// The characters of each cell of each row.
pub open spec fn cells_of<const N: usize>(rows: Seq<[String; N]>) -> Seq<Seq<Seq<char>>> {
    rows.map_values(|row: [String; N]| row@.map_values(|s: String| s@))
}

/// The width of column `i`: the most characters that a cell of it holds.
pub open spec fn col_width(rows: Seq<Seq<Seq<char>>>, i: int) -> nat
    decreases rows.len(),
{
    if rows.len() == 0 {
        0
    } else {
        let w = col_width(rows.drop_last(), i);
        let l = rows.last()[i].len();
        if l > w {
            l
        } else {
            w
        }
    }
}

/// The index of the last non-empty cell of a row, or 0 where all are empty.
pub open spec fn last_filled(cells: Seq<Seq<char>>) -> int
    decreases cells.len(),
{
    if cells.len() <= 1 {
        0
    } else if cells.last().len() > 0 {
        cells.len() - 1
    } else {
        last_filled(cells.drop_last())
    }
}

/// `n` spaces.
pub open spec fn spaces(n: nat) -> Seq<char> {
    Seq::new(n, |k: int| ' ')
}

/// Cell `i` of a row as it is printed: before the last non-empty cell it is
/// padded with spaces to its column's width.
pub open spec fn cell_out(rows: Seq<Seq<Seq<char>>>, cells: Seq<Seq<char>>, i: int) -> Seq<char> {
    if i < last_filled(cells) {
        cells[i] + spaces((col_width(rows, i) - cells[i].len()) as nat)
    } else {
        cells[i]
    }
}

/// The first `n` printed cells of a row, separated by spaces.
pub open spec fn joined(rows: Seq<Seq<Seq<char>>>, cells: Seq<Seq<char>>, n: nat) -> Seq<char>
    decreases n,
{
    if n == 0 {
        Seq::empty()
    } else if n == 1 {
        cell_out(rows, cells, 0)
    } else {
        joined(rows, cells, (n - 1) as nat) + seq![' '] + cell_out(rows, cells, n - 1)
    }
}

/// A row as it is printed among `rows`: its cells up to the last non-empty
/// one, padded and separated by spaces.
pub open spec fn padded_line(rows: Seq<Seq<Seq<char>>>, cells: Seq<Seq<char>>) -> Seq<char> {
    joined(rows, cells, (last_filled(cells) + 1) as nat)
}

proof fn lemma_col_width_bound(rows: Seq<Seq<Seq<char>>>, i: int, j: int)
    requires
        0 <= j < rows.len(),
    ensures
        rows[j][i].len() <= col_width(rows, i),
    decreases rows.len(),
{
    if j < rows.len() - 1 {
        lemma_col_width_bound(rows.drop_last(), i, j);
    }
}

proof fn lemma_last_filled_at(cells: Seq<Seq<char>>, l: int)
    requires
        0 <= l < cells.len(),
        l == 0 || cells[l].len() > 0,
        forall|k: int| l < k < cells.len() ==> #[trigger] cells[k].len() == 0,
    ensures
        last_filled(cells) == l,
    decreases cells.len(),
{
    if cells.len() > 1 && l < cells.len() - 1 {
        lemma_last_filled_at(cells.drop_last(), l);
    }
}

/// Appends `n` spaces.
fn push_spaces(s: &mut String, n: usize)
    ensures
        final(s)@ == old(s)@ + spaces(n as nat),
{
    let mut k: usize = 0;
    while k < n
        invariant
            k <= n,
            s@ == old(s)@ + spaces(k as nat),
        decreases n - k,
    {
        push_char(s, ' ');
        k = k + 1;
        assert(s@ =~= old(s)@ + spaces(k as nat));
    }
}

/// The width of each column of `lines`.
fn col_widths<const N: usize>(lines: &Vec<[String; N]>) -> (w: Vec<usize>)
    ensures
        w@.len() == N,
        forall|k: int| 0 <= k < N ==> w@[k] == col_width(cells_of(lines@), k),
{
    let ghost rows = cells_of(lines@);
    let mut widths: Vec<usize> = Vec::new();
    let mut i: usize = 0;
    while i < N
        invariant
            i <= N,
            widths@.len() == i,
            forall|k: int| 0 <= k < i ==> widths@[k] == 0,
        decreases N - i,
    {
        widths.push(0);
        i = i + 1;
    }
    let mut r: usize = 0;
    while r < lines.len()
        invariant
            rows == cells_of(lines@),
            r <= lines@.len(),
            widths@.len() == N,
            forall|k: int| 0 <= k < N ==> widths@[k] == col_width(rows.take(r as int), k),
        decreases lines@.len() - r,
    {
        assert(rows.take(r + 1).drop_last() =~= rows.take(r as int));
        let mut i: usize = 0;
        while i < N
            invariant
                rows == cells_of(lines@),
                r < lines@.len(),
                i <= N,
                widths@.len() == N,
                rows.take(r + 1).drop_last() == rows.take(r as int),
                forall|k: int| 0 <= k < i ==> widths@[k] == col_width(rows.take(r + 1), k),
                forall|k: int| i <= k < N ==> widths@[k] == col_width(rows.take(r as int), k),
            decreases N - i,
        {
            let c = lines[r][i].as_str().unicode_len();
            assert(rows.take(r + 1).last()[i as int] == lines@[r as int]@[i as int]@);
            if c > widths[i] {
                widths.set(i, c);
            }
            i = i + 1;
        }
        r = r + 1;
    }
    assert(rows.take(lines@.len() as int) =~= rows);
    widths
}

/// Each row of `lines` as it is printed: its cells up to the last non-empty
/// one, each but that one padded with spaces to its column's width, joined by
/// single spaces.
pub fn padded_lines<const N: usize>(lines: &Vec<[String; N]>) -> (r: Vec<String>)
    requires
        N > 0,
    ensures
        r@.len() == lines@.len(),
        forall|j: int|
            0 <= j < r@.len() ==> #[trigger] r@[j]@ == padded_line(
                cells_of(lines@),
                cells_of(lines@)[j],
            ),
{
    let ghost rows = cells_of(lines@);
    let widths = col_widths(lines);
    let mut out: Vec<String> = Vec::new();
    let mut r: usize = 0;
    while r < lines.len()
        invariant
            N > 0,
            rows == cells_of(lines@),
            r <= lines@.len(),
            out@.len() == r,
            widths@.len() == N,
            forall|k: int| 0 <= k < N ==> widths@[k] == col_width(rows, k),
            forall|j: int| 0 <= j < r ==> #[trigger] out@[j]@ == padded_line(rows, rows[j]),
        decreases lines@.len() - r,
    {
        let row = &lines[r];
        let ghost cells = rows[r as int];
        assert(cells.len() == N);
        let mut l: usize = N - 1;
        while l > 0 && row[l].as_str().unicode_len() == 0
            invariant
                cells == rows[r as int],
                cells.len() == N,
                *row == lines@[r as int],
                rows == cells_of(lines@),
                r < lines@.len(),
                l < N,
                forall|k: int| l < k < N ==> #[trigger] cells[k].len() == 0,
            decreases l,
        {
            assert(cells[l as int] == row@[l as int]@);
            l = l - 1;
        }
        proof {
            assert(cells[l as int] == row@[l as int]@);
            lemma_last_filled_at(cells, l as int);
        }
        let mut line = String::new();
        let mut i: usize = 0;
        while i <= l
            invariant
                cells == rows[r as int],
                cells.len() == N,
                *row == lines@[r as int],
                rows == cells_of(lines@),
                r < lines@.len(),
                l < N,
                last_filled(cells) == l,
                i <= l + 1,
                widths@.len() == N,
                forall|k: int| 0 <= k < N ==> widths@[k] == col_width(rows, k),
                line@ == joined(rows, cells, i as nat),
            decreases l + 1 - i,
        {
            let ghost before = line@;
            if i > 0 {
                push_char(&mut line, ' ');
            }
            assert(cells[i as int] == row@[i as int]@);
            line.append(row[i].as_str());
            if i < l {
                let c = row[i].as_str().unicode_len();
                proof {
                    lemma_col_width_bound(rows, i as int, r as int);
                }
                push_spaces(&mut line, widths[i] - c);
            }
            assert(line@ =~= joined(rows, cells, (i + 1) as nat));
            i = i + 1;
        }
        out.push(line);
        r = r + 1;
    }
    out
}

} // verus!
