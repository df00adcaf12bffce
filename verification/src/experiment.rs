//! Results of an experiment, as comma-separated lines or as a table.
use vstd::prelude::*;
use vstd::string::*;

verus! {

/// Rows of cells under a header, and further sections that follow them.
pub struct ExperimentOutput {
    header: Vec<String>,
    rows: Vec<Vec<String>>,
    extras: Vec<String>,
}

/// The first `n` cells with commas between them.
pub open spec fn joined(cells: Seq<String>, n: nat) -> Seq<char>
    decreases n,
{
    if n == 0 {
        Seq::empty()
    } else if n == 1 {
        cells[0]@
    } else {
        joined(cells, (n - 1) as nat) + ","@ + cells[n - 1]@
    }
}

/// The first `n` rows as lines.
pub open spec fn csv_lines(rows: Seq<Vec<String>>, n: nat) -> Seq<char>
    decreases n,
{
    if n == 0 {
        Seq::empty()
    } else {
        csv_lines(rows, (n - 1) as nat) + joined(rows[n - 1]@, rows[n - 1]@.len()) + "\n"@
    }
}

/// `n` times the same text.
pub open spec fn repeated(text: Seq<char>, n: nat) -> Seq<char>
    decreases n,
{
    if n == 0 {
        Seq::empty()
    } else {
        repeated(text, (n - 1) as nat) + text
    }
}

/// Blanks that a text of `len` characters lacks to be `width` wide.
pub open spec fn blanks(len: nat, width: nat) -> Seq<char> {
    if len < width {
        repeated(" "@, (width - len) as nat)
    } else {
        Seq::empty()
    }
}

/// A cell of a column that is `width` wide: numbers to the right, text to the
/// left.
pub open spec fn padded(cell: Seq<char>, width: nat, numeric: bool) -> Seq<char> {
    if numeric {
        blanks(cell.len(), width) + cell
    } else {
        cell + blanks(cell.len(), width)
    }
}

/// The first `n` cells of a table row.
pub open spec fn table_cells(
    cells: Seq<String>,
    widths: Seq<usize>,
    numeric: Seq<bool>,
    n: nat,
) -> Seq<char>
    decreases n,
{
    if n == 0 {
        "|"@
    } else {
        table_cells(cells, widths, numeric, (n - 1) as nat) + " "@ + padded(
            cells[n - 1]@,
            widths[n - 1] as nat,
            numeric[n - 1],
        ) + " |"@
    }
}

/// The line between the header and the rows.
pub open spec fn separator(widths: Seq<usize>, n: nat) -> Seq<char>
    decreases n,
{
    if n == 0 {
        "|"@
    } else {
        separator(widths, (n - 1) as nat) + repeated("-"@, (widths[n - 1] + 2) as nat) + "|"@
    }
}

/// The first `n` rows of a table.
pub open spec fn table_rows(
    rows: Seq<Vec<String>>,
    widths: Seq<usize>,
    numeric: Seq<bool>,
    n: nat,
) -> Seq<char>
    decreases n,
{
    if n == 0 {
        Seq::empty()
    } else {
        table_rows(rows, widths, numeric, (n - 1) as nat) + table_cells(
            rows[n - 1]@,
            widths,
            numeric,
            rows[n - 1]@.len(),
        ) + "\n"@
    }
}

/// The first `n` further sections, each after an empty line.
pub open spec fn sections(extras: Seq<String>, n: nat) -> Seq<char>
    decreases n,
{
    if n == 0 {
        Seq::empty()
    } else {
        sections(extras, (n - 1) as nat) + "\n"@ + extras[n - 1]@
    }
}

/// Bytes of a text.
pub open spec fn byte_len(text: String) -> usize {
    encode_len(text@)
}

pub open spec fn encode_len(text: Seq<char>) -> usize {
    vstd::utf8::encode_utf8(text).len() as usize
}

/// Width of column `c`: the largest number of bytes among its header and the
/// cells of the first `n` rows.
pub open spec fn column_width(
    header: Seq<String>,
    rows: Seq<Vec<String>>,
    c: int,
    n: nat,
) -> usize
    decreases n,
{
    if n == 0 {
        byte_len(header[c])
    } else {
        let rest = column_width(header, rows, c, (n - 1) as nat);
        let own = byte_len(rows[n - 1]@[c]);
        if own > rest {
            own
        } else {
            rest
        }
    }
}

fn append_repeated(out: &mut String, text: &str, n: usize)
    ensures
        final(out)@ == old(out)@ + repeated(text@, n as nat),
{
    let ghost before = out@;
    proof {
        assert(before + Seq::<char>::empty() =~= before);
    }
    for i in 0..n
        invariant
            out@ == before + repeated(text@, i as nat),
    {
        out.append(text);
        proof {
            assert(out@ =~= before + (repeated(text@, i as nat) + text@));
        }
    }
}

fn append_padded(out: &mut String, cell: &str, width: usize, numeric: bool)
    ensures
        final(out)@ == old(out)@ + padded(cell@, width as nat, numeric),
{
    let ghost before = out@;
    let len: usize = cell.unicode_len();
    let missing: usize = if len < width {
        width - len
    } else {
        0
    };
    proof {
        assert(repeated(" "@, missing as nat) == blanks(cell@.len(), width as nat));
    }
    if numeric {
        append_repeated(out, " ", missing);
        out.append(cell);
    } else {
        out.append(cell);
        append_repeated(out, " ", missing);
    }
    proof {
        assert(out@ =~= before + padded(cell@, width as nat, numeric));
    }
}

/// Appends a table row and ends its line.
fn append_row(out: &mut String, cells: &Vec<String>, widths: &Vec<usize>, numeric: &[bool])
    requires
        cells@.len() <= widths@.len(),
        cells@.len() <= numeric@.len(),
    ensures
        final(out)@ == old(out)@ + table_cells(cells@, widths@, numeric@, cells@.len()) + "\n"@,
{
    let ghost before = out@;
    out.append("|");
    for i in 0..cells.len()
        invariant
            cells@.len() <= widths@.len(),
            cells@.len() <= numeric@.len(),
            out@ == before + table_cells(cells@, widths@, numeric@, i as nat),
    {
        let ghost prev = table_cells(cells@, widths@, numeric@, i as nat);
        out.append(" ");
        append_padded(out, cells[i].as_str(), widths[i], numeric[i]);
        out.append(" |");
        proof {
            let p = padded(cells@[i as int]@, widths@[i as int] as nat, numeric@[i as int]);
            assert(out@ =~= before + (prev + " "@ + p + " |"@));
        }
    }
    out.append("\n");
}

/// Appends the line between the header and the rows.
fn append_separator(out: &mut String, widths: &Vec<usize>)
    requires
        forall|i: int| 0 <= i < widths@.len() ==> #[trigger] widths@[i] + 2 <= usize::MAX,
    ensures
        final(out)@ == old(out)@ + separator(widths@, widths@.len()) + "\n"@,
{
    let ghost before = out@;
    out.append("|");
    for i in 0..widths.len()
        invariant
            forall|i: int| 0 <= i < widths@.len() ==> #[trigger] widths@[i] + 2 <= usize::MAX,
            out@ == before + separator(widths@, i as nat),
    {
        let ghost prev = separator(widths@, i as nat);
        append_repeated(out, "-", widths[i] + 2);
        out.append("|");
        proof {
            assert(out@ =~= before + (prev + repeated("-"@, (widths@[i as int] + 2) as nat)
                + "|"@));
        }
    }
    out.append("\n");
}

fn join_cells(cells: &Vec<String>) -> (out: String)
    ensures
        out@ == joined(cells@, cells@.len()),
{
    let mut out = String::new();
    for i in 0..cells.len()
        invariant
            out@ == joined(cells@, i as nat),
    {
        if i > 0 {
            out.append(",");
        }
        out.append(cells[i].as_str());
        proof {
            if i == 0 {
                assert(Seq::<char>::empty() + cells@[0]@ =~= cells@[0]@);
            }
            assert(out@ =~= joined(cells@, (i + 1) as nat));
        }
    }
    out
}

impl ExperimentOutput {
    pub closed spec fn columns(self) -> Seq<String> {
        self.header@
    }

    pub closed spec fn lines(self) -> Seq<Vec<String>> {
        self.rows@
    }

    pub closed spec fn further(self) -> Seq<String> {
        self.extras@
    }

    /// Every row has as many cells as the header.
    pub open spec fn is_rectangular(self) -> bool {
        forall|i: int|
            0 <= i < self.lines().len() ==> (#[trigger] self.lines()[i])@.len()
                == self.columns().len()
    }

    pub fn new(header: Vec<String>) -> (r: ExperimentOutput)
        ensures
            r.columns() == header@,
            r.lines().len() == 0,
            r.further().len() == 0,
    {
        ExperimentOutput { header, rows: Vec::new(), extras: Vec::new() }
    }

    pub fn push_row(&mut self, row: Vec<String>)
        ensures
            final(self).columns() == old(self).columns(),
            final(self).lines() == old(self).lines().push(row),
            final(self).further() == old(self).further(),
    {
        self.rows.push(row);
    }

    pub fn push_extra(&mut self, section: String)
        ensures
            final(self).columns() == old(self).columns(),
            final(self).lines() == old(self).lines(),
            final(self).further() == old(self).further().push(section),
    {
        self.extras.push(section);
    }

    /// The cells, for instance to see which columns hold numbers only.
    pub fn cells(&self) -> (r: &Vec<Vec<String>>)
        ensures
            r@ == self.lines(),
    {
        &self.rows
    }

    /// The number of columns.
    pub fn width(&self) -> (r: usize)
        ensures
            r == self.columns().len(),
    {
        self.header.len()
    }

    /// The header and the rows as comma-separated lines.
    pub fn to_csv(&self) -> (out: String)
        ensures
            out@ == joined(self.columns(), self.columns().len()) + "\n"@ + csv_lines(
                self.lines(),
                self.lines().len(),
            ),
    {
        let mut out = join_cells(&self.header);
        out.append("\n");
        let ghost first = out@;
        proof {
            assert(first + Seq::<char>::empty() =~= first);
        }
        for i in 0..self.rows.len()
            invariant
                out@ == first + csv_lines(self.rows@, i as nat),
        {
            let ghost prev = csv_lines(self.rows@, i as nat);
            let line = join_cells(&self.rows[i]);
            out.append(line.as_str());
            out.append("\n");
            proof {
                assert(out@ =~= first + (prev + line@ + "\n"@));
            }
        }
        out
    }

    /// Widths of the columns.
    pub fn widths(&self) -> (widths: Vec<usize>)
        requires
            self.is_rectangular(),
        ensures
            widths@.len() == self.columns().len(),
            forall|c: int|
                0 <= c < widths@.len() ==> #[trigger] widths@[c] == column_width(
                    self.columns(),
                    self.lines(),
                    c,
                    self.lines().len(),
                ),
    {
        let mut widths: Vec<usize> = Vec::new();
        for c in 0..self.header.len()
            invariant
                self.is_rectangular(),
                widths@.len() == c,
                forall|e: int|
                    0 <= e < c ==> #[trigger] widths@[e] == column_width(
                        self.columns(),
                        self.lines(),
                        e,
                        self.lines().len(),
                    ),
        {
            let mut w: usize = self.header[c].as_str().len();
            for i in 0..self.rows.len()
                invariant
                    self.is_rectangular(),
                    c < self.header@.len(),
                    w == column_width(self.columns(), self.lines(), c as int, i as nat),
            {
                proof {
                    assert(self.lines()[i as int]@.len() == self.columns().len());
                }
                let own: usize = self.rows[i][c].as_str().len();
                if own > w {
                    w = own;
                }
            }
            widths.push(w);
        }
        widths
    }

    /// The header, the rows and the further sections as a table. `numeric`
    /// tells which columns hold numbers only.
    pub fn to_table(&self, numeric: &[bool]) -> (out: String)
        requires
            self.is_rectangular(),
            numeric@.len() == self.columns().len(),
            forall|c: int|
                0 <= c < self.columns().len() ==> #[trigger] column_width(
                    self.columns(),
                    self.lines(),
                    c,
                    self.lines().len(),
                ) + 2 <= usize::MAX,
        ensures
            ({
                let widths = Seq::new(
                    self.columns().len(),
                    |c: int| column_width(self.columns(), self.lines(), c, self.lines().len()),
                );
                out@ == table_cells(self.columns(), widths, numeric@, self.columns().len())
                    + "\n"@ + separator(widths, widths.len()) + "\n"@ + table_rows(
                    self.lines(),
                    widths,
                    numeric@,
                    self.lines().len(),
                ) + sections(self.further(), self.further().len())
            }),
    {
        let widths = self.widths();
        let ghost wide = Seq::new(
            self.columns().len(),
            |c: int| column_width(self.columns(), self.lines(), c, self.lines().len()),
        );
        proof {
            assert(widths@ =~= wide);
        }
        let mut out = String::new();
        append_row(&mut out, &self.header, &widths, numeric);
        append_separator(&mut out, &widths);
        let ghost first = out@;
        proof {
            let head = table_cells(self.header@, wide, numeric@, self.header@.len());
            assert(first =~= head + "\n"@ + separator(wide, wide.len()) + "\n"@);
            assert(first + Seq::<char>::empty() =~= first);
        }
        for i in 0..self.rows.len()
            invariant
                self.is_rectangular(),
                widths@ == wide,
                wide.len() == self.header@.len(),
                numeric@.len() == self.header@.len(),
                out@ == first + table_rows(self.rows@, wide, numeric@, i as nat),
        {
            let ghost prev = table_rows(self.rows@, wide, numeric@, i as nat);
            proof {
                assert(self.lines()[i as int]@.len() == self.columns().len());
            }
            append_row(&mut out, &self.rows[i], &widths, numeric);
            proof {
                let row = self.rows@[i as int]@;
                let text = table_cells(row, wide, numeric@, row.len());
                assert(out@ =~= first + (prev + text + "\n"@));
            }
        }
        let ghost body = out@;
        proof {
            assert(body + Seq::<char>::empty() =~= body);
        }
        for i in 0..self.extras.len()
            invariant
                out@ == body + sections(self.extras@, i as nat),
        {
            let ghost prev = sections(self.extras@, i as nat);
            out.append("\n");
            out.append(self.extras[i].as_str());
            proof {
                assert(out@ =~= body + (prev + "\n"@ + self.extras@[i as int]@));
            }
        }
        out
    }
}

proof fn lemma_texts_step(n: nat, text: spec_fn(int) -> Seq<char>)
    ensures
        Seq::new(0, text).flatten() == Seq::<char>::empty(),
        Seq::new(n + 1, text).flatten() == Seq::new(n, text).flatten() + text(n as int),
{
    assert(Seq::new(0, text) =~= Seq::empty());
    let before = Seq::new(n, text);
    assert(Seq::new(n + 1, text) =~= before.push(text(n as int)));
    before.lemma_flatten_push(text(n as int));
}

/// Joined cells are the first one and each other behind a comma.
pub proof fn law_joined_cells_are_separated(cells: Seq<String>, n: nat)
    ensures
        joined(cells, 0) == Seq::<char>::empty(),
        joined(cells, n + 1) == cells[0]@ + Seq::new(
            n,
            |i: int| seq![','] + cells[i + 1]@,
        ).flatten(),
    decreases n,
{
    reveal_strlit(",");
    let text = |i: int| seq![','] + cells[i + 1]@;
    assert(","@ =~= seq![',']);
    if n == 0 {
        lemma_texts_step(0, text);
        assert(cells[0]@ + Seq::<char>::empty() =~= cells[0]@);
    } else {
        let m = (n - 1) as nat;
        law_joined_cells_are_separated(cells, m);
        lemma_texts_step(m, text);
        let rest = Seq::new(m, text).flatten();
        assert(cells[0]@ + rest + ","@ + cells[n as int]@ =~= cells[0]@ + (rest + text(m as int)));
    }
}

/// The lines of a table are its rows, joined, each with an end of line.
pub proof fn law_lines_are_joined_rows(rows: Seq<Vec<String>>, n: nat)
    ensures
        csv_lines(rows, n) == Seq::new(
            n,
            |i: int| joined(rows[i]@, rows[i]@.len()) + seq!['\n'],
        ).flatten(),
    decreases n,
{
    reveal_strlit("\n");
    assert("\n"@ =~= seq!['\n']);
    let text = |i: int| joined(rows[i]@, rows[i]@.len()) + seq!['\n'];
    if n == 0 {
        lemma_texts_step(0, text);
    } else {
        let m = (n - 1) as nat;
        law_lines_are_joined_rows(rows, m);
        lemma_texts_step(m, text);
        assert(csv_lines(rows, m) + joined(rows[n - 1]@, rows[n - 1]@.len()) + "\n"@ =~= csv_lines(
            rows,
            m,
        ) + text(m as int));
    }
}

/// A repeated character fills its length.
pub proof fn law_repeated_character_fills(c: char, n: nat)
    ensures
        repeated(seq![c], n) == Seq::new(n, |i: int| c),
    decreases n,
{
    if n > 0 {
        law_repeated_character_fills(c, (n - 1) as nat);
        assert(Seq::new(n, |i: int| c) =~= Seq::new((n - 1) as nat, |i: int| c) + seq![c]);
    } else {
        assert(repeated(seq![c], 0) =~= Seq::new(0, |i: int| c));
    }
}

/// A padded cell is as wide as its column, or as the cell where that is wider;
/// the cell stands at the right for numbers and at the left for text, and all
/// else is blank.
pub proof fn law_padding_fills_the_column(cell: Seq<char>, width: nat, numeric: bool)
    ensures
        ({
            let p = padded(cell, width, numeric);
            let free = if cell.len() < width {
                width - cell.len()
            } else {
                0
            };
            &&& p.len() == cell.len() + free
            &&& numeric ==> p.skip(free) == cell && forall|i: int|
                0 <= i < free ==> #[trigger] p[i] == ' '
            &&& !numeric ==> p.take(cell.len() as int) == cell && forall|i: int|
                cell.len() <= i < p.len() ==> #[trigger] p[i] == ' '
        }),
{
    reveal_strlit(" ");
    assert(" "@ =~= seq![' ']);
    let free = if cell.len() < width {
        width - cell.len()
    } else {
        0
    };
    law_repeated_character_fills(' ', free as nat);
    let p = padded(cell, width, numeric);
    assert(blanks(cell.len(), width) =~= Seq::new(free as nat, |i: int| ' '));
    if numeric {
        assert(p.skip(free) =~= cell);
    } else {
        assert(p.take(cell.len() as int) =~= cell);
    }
}

/// A table row holds its padded cells between bars, a blank on either side.
pub proof fn law_table_rows_hold_padded_cells(
    cells: Seq<String>,
    widths: Seq<usize>,
    numeric: Seq<bool>,
    n: nat,
)
    ensures
        table_cells(cells, widths, numeric, n) == seq!['|'] + Seq::new(
            n,
            |i: int|
                seq![' '] + padded(cells[i]@, widths[i] as nat, numeric[i]) + seq![' ', '|'],
        ).flatten(),
    decreases n,
{
    reveal_strlit("|");
    reveal_strlit(" ");
    reveal_strlit(" |");
    assert("|"@ =~= seq!['|']);
    assert(" "@ =~= seq![' ']);
    assert(" |"@ =~= seq![' ', '|']);
    let text = |i: int|
        seq![' '] + padded(cells[i]@, widths[i] as nat, numeric[i]) + seq![' ', '|'];
    if n == 0 {
        lemma_texts_step(0, text);
        assert(seq!['|'] + Seq::<char>::empty() =~= seq!['|']);
    } else {
        let m = (n - 1) as nat;
        law_table_rows_hold_padded_cells(cells, widths, numeric, m);
        lemma_texts_step(m, text);
        let rest = Seq::new(m, text).flatten();
        let p = padded(cells[n - 1]@, widths[n - 1] as nat, numeric[n - 1]);
        assert(seq!['|'] + rest + " "@ + p + " |"@ =~= seq!['|'] + (rest + text(m as int)));
    }
}

/// The line below the header has for each column a dash for every character of
/// its width and for the blanks beside it.
pub proof fn law_separator_spans_the_columns(widths: Seq<usize>, n: nat)
    ensures
        separator(widths, n) == seq!['|'] + Seq::new(
            n,
            |i: int| Seq::new((widths[i] + 2) as nat, |t: int| '-') + seq!['|'],
        ).flatten(),
    decreases n,
{
    reveal_strlit("|");
    reveal_strlit("-");
    assert("|"@ =~= seq!['|']);
    assert("-"@ =~= seq!['-']);
    let text = |i: int| Seq::new((widths[i] + 2) as nat, |t: int| '-') + seq!['|'];
    if n == 0 {
        lemma_texts_step(0, text);
        assert(seq!['|'] + Seq::<char>::empty() =~= seq!['|']);
    } else {
        let m = (n - 1) as nat;
        law_separator_spans_the_columns(widths, m);
        lemma_texts_step(m, text);
        law_repeated_character_fills('-', (widths[n - 1] + 2) as nat);
        let rest = Seq::new(m, text).flatten();
        let dashes = repeated("-"@, (widths[n - 1] + 2) as nat);
        assert(dashes =~= Seq::new((widths[n - 1] + 2) as nat, |t: int| '-'));
        assert(seq!['|'] + rest + dashes + "|"@ =~= seq!['|'] + (rest + text(m as int)));
    }
}

/// The rows of a table stand one on each line.
pub proof fn law_table_rows_are_lines(
    rows: Seq<Vec<String>>,
    widths: Seq<usize>,
    numeric: Seq<bool>,
    n: nat,
)
    ensures
        table_rows(rows, widths, numeric, n) == Seq::new(
            n,
            |i: int| table_cells(rows[i]@, widths, numeric, rows[i]@.len()) + seq!['\n'],
        ).flatten(),
    decreases n,
{
    reveal_strlit("\n");
    assert("\n"@ =~= seq!['\n']);
    let text = |i: int| table_cells(rows[i]@, widths, numeric, rows[i]@.len()) + seq!['\n'];
    if n == 0 {
        lemma_texts_step(0, text);
    } else {
        let m = (n - 1) as nat;
        law_table_rows_are_lines(rows, widths, numeric, m);
        lemma_texts_step(m, text);
        let before = table_rows(rows, widths, numeric, m);
        let row = table_cells(rows[n - 1]@, widths, numeric, rows[n - 1]@.len());
        assert(before + row + "\n"@ =~= before + text(m as int));
    }
}

/// Further sections follow one another, each after an end of line.
pub proof fn law_sections_follow(extras: Seq<String>, n: nat)
    ensures
        sections(extras, n) == Seq::new(n, |i: int| seq!['\n'] + extras[i]@).flatten(),
    decreases n,
{
    reveal_strlit("\n");
    assert("\n"@ =~= seq!['\n']);
    let text = |i: int| seq!['\n'] + extras[i]@;
    if n == 0 {
        lemma_texts_step(0, text);
    } else {
        let m = (n - 1) as nat;
        law_sections_follow(extras, m);
        lemma_texts_step(m, text);
        let before = sections(extras, m);
        assert(before + "\n"@ + extras[n - 1]@ =~= before + text(m as int));
    }
}

/// A column is as wide as the widest of its header and its cells.
pub proof fn law_columns_fit_their_cells(
    header: Seq<String>,
    rows: Seq<Vec<String>>,
    c: int,
    n: nat,
)
    ensures
        column_width(header, rows, c, n) >= byte_len(header[c]),
        forall|i: int|
            0 <= i < n ==> column_width(header, rows, c, n) >= byte_len((#[trigger] rows[i])@[c]),
        column_width(header, rows, c, n) == byte_len(header[c]) || exists|i: int|
            0 <= i < n && column_width(header, rows, c, n) == byte_len((#[trigger] rows[i])@[c]),
    decreases n,
{
    if n > 0 {
        law_columns_fit_their_cells(header, rows, c, (n - 1) as nat);
        let rest = column_width(header, rows, c, (n - 1) as nat);
        if column_width(header, rows, c, n) != rest {
            assert(column_width(header, rows, c, n) == byte_len(rows[n - 1]@[c]));
        }
    }
}

} // verus!
