//! The text of a grid: fields separated by commas, one line for each row. And
//! the way back, from the text to its fields.

use vstd::prelude::*;

verus! {

/// The text of each field of a grid, by row and column.
pub type Fields = spec_fn(int, int) -> Seq<char>;

/// The first `n` fields of row `row`, with a comma between neighbours.
pub open spec fn fields_text(f: Fields, row: int, n: nat) -> Seq<char>
    decreases n,
{
    if n == 0 {
        Seq::empty()
    } else if n == 1 {
        f(row, 0)
    } else {
        fields_text(f, row, (n - 1) as nat) + seq![','] + f(row, n - 1)
    }
}

/// The first `rows` rows of a grid with `cols` columns, each row ending in a
/// line feed.
pub open spec fn grid_text(f: Fields, rows: nat, cols: nat) -> Seq<char>
    decreases rows,
{
    if rows == 0 {
        Seq::empty()
    } else {
        grid_text(f, (rows - 1) as nat, cols) + fields_text(f, rows - 1, cols) + seq!['\n']
    }
}

/// The text of a grid hangs on the fields of its rows and columns only.
pub proof fn lemma_grid_text_same(f: Fields, g: Fields, rows: nat, cols: nat)
    requires
        forall|r: int, c: int| 0 <= r < rows && 0 <= c < cols ==> #[trigger] f(r, c) == g(r, c),
    ensures
        grid_text(f, rows, cols) == grid_text(g, rows, cols),
    decreases rows,
{
    if rows > 0 {
        lemma_grid_text_same(f, g, (rows - 1) as nat, cols);
        lemma_fields_text_same(f, g, rows - 1, cols, cols);
    }
}

proof fn lemma_fields_text_same(f: Fields, g: Fields, row: int, cols: nat, n: nat)
    requires
        n <= cols,
        forall|c: int| 0 <= c < cols ==> #[trigger] f(row, c) == g(row, c),
    ensures
        fields_text(f, row, n) == fields_text(g, row, n),
    decreases n,
{
    if n > 1 {
        lemma_fields_text_same(f, g, row, cols, (n - 1) as nat);
        assert(f(row, n - 1) == g(row, n - 1));
    } else if n == 1 {
        assert(f(row, 0) == g(row, 0));
    }
}

/// The pieces of `s` between the occurrences of `sep`: one more piece than
/// there are separators.
pub open spec fn split(s: Seq<char>, sep: char) -> Seq<Seq<char>>
    decreases s.len(),
{
    if s.len() == 0 {
        seq![Seq::empty()]
    } else if s.last() == sep {
        split(s.drop_last(), sep).push(Seq::empty())
    } else {
        let before = split(s.drop_last(), sep);
        before.drop_last().push(before.last().push(s.last()))
    }
}

/// The fields of a grid's text: the lines that end in a line feed, each
/// divided at its commas.
pub open spec fn parse_grid(s: Seq<char>) -> Seq<Seq<Seq<char>>> {
    let lines = split(s, '\n').drop_last();
    Seq::new(lines.len(), |r: int| split(lines[r], ','))
}

/// Whether no field of the first `rows` rows and `cols` columns holds a comma
/// or a line feed.
pub open spec fn plain_fields(f: Fields, rows: nat, cols: nat) -> bool {
    forall|r: int, c: int|
        0 <= r < rows && 0 <= c < cols ==> !(#[trigger] f(r, c)).contains(',') && !f(r, c).contains(
            '\n',
        )
}

/// A text always has at least one piece.
pub proof fn lemma_split_nonempty(s: Seq<char>, sep: char)
    ensures
        split(s, sep).len() >= 1,
    decreases s.len(),
{
    if s.len() > 0 {
        lemma_split_nonempty(s.drop_last(), sep);
    }
}

/// Text without a separator, put behind `a`, lengthens the last piece of `a`.
pub proof fn lemma_split_extend(a: Seq<char>, b: Seq<char>, sep: char)
    requires
        !b.contains(sep),
    ensures
        split(a + b, sep) == split(a, sep).drop_last().push(split(a, sep).last() + b),
    decreases b.len(),
{
    lemma_split_nonempty(a, sep);
    let before = split(a, sep);
    if b.len() == 0 {
        assert(a + b =~= a);
        assert(before.last() + b =~= before.last());
        assert(before.drop_last().push(before.last()) =~= before);
    } else {
        let shorter = b.drop_last();
        assert forall|c: char| shorter.contains(c) implies b.contains(c) by {
            let i = choose|i: int| 0 <= i < shorter.len() && shorter[i] == c;
            assert(b[i] == c);
        }
        lemma_split_extend(a, shorter, sep);
        assert((a + b).drop_last() =~= a + shorter);
        assert(b[b.len() - 1] == b.last());
        assert(b.contains(b.last()));
        assert((a + b).last() == b.last());
        let mid = split(a + shorter, sep);
        assert(mid.drop_last() =~= before.drop_last());
        assert(mid.last().push(b.last()) =~= before.last() + b);
    }
}

/// A separator put behind `a` opens a new, empty piece.
pub proof fn lemma_split_separator(a: Seq<char>, sep: char)
    ensures
        split(a + seq![sep], sep) == split(a, sep).push(Seq::empty()),
{
    assert((a + seq![sep]).drop_last() =~= a);
}

/// A text without a separator is one piece.
pub proof fn lemma_split_plain(b: Seq<char>, sep: char)
    requires
        !b.contains(sep),
    ensures
        split(b, sep) == seq![b],
{
    lemma_split_extend(Seq::empty(), b, sep);
    assert(Seq::<char>::empty() + b =~= b);
    assert(split(Seq::<char>::empty(), sep).drop_last().push(Seq::<char>::empty() + b) =~= seq![b]);
}

/// The fields of a row come back when its text is divided at the commas, and
/// the text holds no line feed.
pub proof fn lemma_fields_round_trip(f: Fields, row: int, n: nat)
    requires
        n >= 1,
        forall|c: int|
            0 <= c < n ==> !(#[trigger] f(row, c)).contains(',') && !f(row, c).contains('\n'),
    ensures
        split(fields_text(f, row, n), ',') == Seq::new(n, |c: int| f(row, c)),
        !fields_text(f, row, n).contains('\n'),
    decreases n,
{
    if n == 1 {
        lemma_split_plain(f(row, 0), ',');
        assert(seq![f(row, 0)] =~= Seq::new(1, |c: int| f(row, c)));
    } else {
        let m = (n - 1) as nat;
        lemma_fields_round_trip(f, row, m);
        let head = fields_text(f, row, m);
        let last = f(row, n - 1);
        lemma_split_separator(head, ',');
        lemma_split_extend(head + seq![','], last, ',');
        assert(Seq::<char>::empty() + last =~= last);
        assert(split(fields_text(f, row, n), ',') =~= Seq::new(n, |c: int| f(row, c)));
        let whole = fields_text(f, row, n);
        if whole.contains('\n') {
            let i = choose|i: int| 0 <= i < whole.len() && whole[i] == '\n';
            if i < head.len() {
                assert(head[i] == '\n');
            } else if i > head.len() {
                assert(last[i - head.len() - 1] == '\n');
            }
        }
    }
}

/// A grid's text is as many lines as it has rows, and then nothing.
proof fn lemma_lines_of_grid(f: Fields, rows: nat, cols: nat)
    requires
        cols >= 1,
        plain_fields(f, rows, cols),
    ensures
        split(grid_text(f, rows, cols), '\n') == Seq::new(
            rows,
            |r: int| fields_text(f, r, cols),
        ).push(Seq::empty()),
    decreases rows,
{
    if rows == 0 {
        assert(split(grid_text(f, rows, cols), '\n') =~= Seq::new(
            rows,
            |r: int| fields_text(f, r, cols),
        ).push(Seq::empty()));
    } else {
        let m = (rows - 1) as nat;
        lemma_lines_of_grid(f, m, cols);
        lemma_fields_round_trip(f, rows - 1, cols);
        let head = grid_text(f, m, cols);
        let line = fields_text(f, rows - 1, cols);
        lemma_split_extend(head, line, '\n');
        lemma_split_separator(head + line, '\n');
        assert(Seq::<char>::empty() + line =~= line);
        assert(split(grid_text(f, rows, cols), '\n') =~= Seq::new(
            rows,
            |r: int| fields_text(f, r, cols),
        ).push(Seq::empty()));
    }
}

/// Reading a grid's text back gives the fields it was written from: as many
/// rows and columns, and in each place the same text. This holds where no
/// field holds a comma or a line feed, which would be taken for the end of
/// the field.
pub proof fn lemma_grid_round_trip(f: Fields, rows: nat, cols: nat)
    requires
        cols >= 1,
        plain_fields(f, rows, cols),
    ensures
        parse_grid(grid_text(f, rows, cols)) == Seq::new(
            rows,
            |r: int| Seq::new(cols, |c: int| f(r, c)),
        ),
{
    lemma_lines_of_grid(f, rows, cols);
    let lines = split(grid_text(f, rows, cols), '\n').drop_last();
    assert(lines =~= Seq::new(rows, |r: int| fields_text(f, r, cols)));
    assert forall|r: int| 0 <= r < rows implies split(#[trigger] lines[r], ',') == Seq::new(
        cols,
        |c: int| f(r, c),
    ) by {
        lemma_fields_round_trip(f, r, cols);
    }
    assert(parse_grid(grid_text(f, rows, cols)) =~= Seq::new(
        rows,
        |r: int| Seq::new(cols, |c: int| f(r, c)),
    ));
}

} // verus!
