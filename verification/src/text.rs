use vstd::prelude::*;
use vstd::std_specs::iter::IteratorSpec;
use crate::error::MatrixError;
use crate::matrix::{copy_row, grid_of, rectangular, Matrix};
use crate::scalar::Scalar;

verus! {

/// Whether `c` is white space: a tab, a line break, a space or one of the
/// wider blanks.
pub open spec fn is_blank(c: char) -> bool {
    let n = c as u32;
    ||| 0x09 <= n <= 0x0D
    ||| n == 0x20
    ||| n == 0x85
    ||| n == 0xA0
    ||| n == 0x1680
    ||| 0x2000 <= n <= 0x200A
    ||| n == 0x2028
    ||| n == 0x2029
    ||| n == 0x202F
    ||| n == 0x205F
    ||| n == 0x3000
}

/// The stretches of `text` between the occurrences of `sep`, in their order:
/// one more than there are separators, and empty where two separators meet or
/// the text begins or ends with one.
pub open spec fn pieces(text: Seq<char>, sep: char) -> Seq<Seq<char>>
    decreases text.len(),
{
    if text.len() == 0 {
        seq![Seq::empty()]
    } else {
        let before = pieces(text.drop_last(), sep);
        if text.last() == sep {
            before.push(Seq::empty())
        } else {
            before.drop_last().push(before.last().push(text.last()))
        }
    }
}

/// The words of `text` that a blank has closed, and the word that is still
/// open at its end.
pub open spec fn scan(text: Seq<char>) -> (Seq<Seq<char>>, Seq<char>)
    decreases text.len(),
{
    if text.len() == 0 {
        (Seq::empty(), Seq::empty())
    } else {
        let (closed, open) = scan(text.drop_last());
        if !is_blank(text.last()) {
            (closed, open.push(text.last()))
        } else if open.len() > 0 {
            (closed.push(open), Seq::empty())
        } else {
            (closed, open)
        }
    }
}

/// The words of `text`: its longest stretches without a blank, in their order.
pub open spec fn words(text: Seq<char>) -> Seq<Seq<char>> {
    let (closed, open) = scan(text);
    if open.len() > 0 {
        closed.push(open)
    } else {
        closed
    }
}

/// The lines of `text`: its pieces between line feeds, without the empty piece
/// after a line feed that ends the text.
pub open spec fn lines(text: Seq<char>) -> Seq<Seq<char>> {
    let all = pieces(text, '\n');
    if all.last().len() == 0 {
        all.drop_last()
    } else {
        all
    }
}

/// Whether `read` may give `out` for a token that holds `token`.
pub open spec fn reads<T, F: Fn(Vec<char>) -> Option<T>>(
    read: F,
    token: Seq<char>,
    out: Option<T>,
) -> bool {
    exists|held: Vec<char>| #[trigger] held@ == token && call_ensures(read, (held,), out)
}

/// Whether `read` may give the scalars of `row` for the tokens, one for one.
pub open spec fn row_reads<T, F: Fn(Vec<char>) -> Option<T>>(
    read: F,
    tokens: Seq<Seq<char>>,
    row: Seq<T>,
) -> bool {
    &&& row.len() == tokens.len()
    &&& forall|k: int| 0 <= k < tokens.len() ==> reads(read, tokens[k], Some(#[trigger] row[k]))
}

/// Whether `read` may give the grid for the words of the rows, row for row.
pub open spec fn grid_reads<T, F: Fn(Vec<char>) -> Option<T>>(
    read: F,
    rows: Seq<Seq<char>>,
    grid: Seq<Seq<T>>,
) -> bool {
    &&& grid.len() == rows.len()
    &&& forall|i: int| 0 <= i < rows.len() ==> row_reads(read, words(rows[i]), #[trigger] grid[i])
}

/// Whether `read` may refuse one of the words of the rows.
pub open spec fn refuses<T, F: Fn(Vec<char>) -> Option<T>>(read: F, rows: Seq<Seq<char>>) -> bool {
    exists|i: int, k: int|
        0 <= i < rows.len() && 0 <= k < words(rows[i]).len() && reads(
            read,
            #[trigger] words(rows[i])[k],
            None::<T>,
        )
}

/// What reading the rows with `read` may come to: a matrix of the scalars that
/// it gave for the words, where the rows have one length; a refusal where it
/// refused a word, or where the rows as read differ in length.
pub open spec fn reading<T: Scalar, F: Fn(Vec<char>) -> Option<T>>(
    read: F,
    rows: Seq<Seq<char>>,
    r: Result<Matrix<T>, MatrixError>,
) -> bool {
    match r {
        Ok(m) => {
            &&& grid_reads(read, rows, m@)
            &&& rectangular(m@, m.cols_spec())
            &&& m.cols_spec() == if rows.len() == 0 {
                0
            } else {
                m@[0].len()
            }
        },
        Err(e) => {
            &&& e == MatrixError::Parse
            &&& refuses(read, rows) || exists|grid: Seq<Seq<T>>|
                #![trigger grid_reads(read, rows, grid)]
                grid_reads(read, rows, grid) && !rectangular(grid, grid[0].len())
        },
    }
}

/// There is always a piece, if only an empty one.
pub proof fn lemma_pieces_nonempty(text: Seq<char>, sep: char)
    ensures
        pieces(text, sep).len() >= 1,
    decreases text.len(),
{
    if text.len() > 0 {
        lemma_pieces_nonempty(text.drop_last(), sep);
    }
}

/// A stretch without a separator adds no piece: the last piece grows by it.
pub proof fn lemma_pieces_stretch(text: Seq<char>, stretch: Seq<char>, sep: char)
    requires
        forall|i: int| 0 <= i < stretch.len() ==> #[trigger] stretch[i] != sep,
    ensures
        pieces(text + stretch, sep) == pieces(text, sep).drop_last().push(
            pieces(text, sep).last() + stretch,
        ),
    decreases stretch.len(),
{
    lemma_pieces_nonempty(text, sep);
    let start = pieces(text, sep);
    if stretch.len() == 0 {
        assert(text + stretch =~= text);
        assert(start.last() + stretch =~= start.last());
        assert(start.drop_last().push(start.last()) =~= start);
    } else {
        let shorter = stretch.drop_last();
        assert forall|i: int| 0 <= i < shorter.len() implies #[trigger] shorter[i] != sep by {
            assert(shorter[i] == stretch[i]);
        }
        lemma_pieces_stretch(text, shorter, sep);
        assert((text + stretch).drop_last() =~= text + shorter);
        assert((text + stretch).last() == stretch.last());
        assert(stretch[stretch.len() - 1] != sep);
        let grown = start.drop_last().push(start.last() + shorter);
        assert(grown.drop_last() =~= start.drop_last());
        assert((start.last() + shorter).push(stretch.last()) =~= start.last() + stretch);
    }
}

/// Whether `c` is white space.
pub fn blank(c: char) -> (b: bool)
    ensures
        b == is_blank(c),
{
    let n: u32 = c as u32;
    (0x09 <= n && n <= 0x0D) || n == 0x20 || n == 0x85 || n == 0xA0 || n == 0x1680 || (0x2000
        <= n && n <= 0x200A) || n == 0x2028 || n == 0x2029 || n == 0x202F || n == 0x205F || n
        == 0x3000
}

/// The characters of `text`, one by one.
pub fn chars_of(text: &str) -> (v: Vec<char>)
    ensures
        v@ == text@,
{
    broadcast use vstd::string::group_string_axioms;

    let mut v: Vec<char> = Vec::new();
    let mut rest = text.chars();
    loop
        invariant
            v@ + rest.remaining() == text@,
            rest.decrease() is Some,
        ensures
            v@ == text@,
        decreases rest.decrease()->0,
    {
        match rest.next() {
            Some(c) => {
                v.push(c);
                assert(v@ + rest.remaining() =~= text@);
            },
            None => {
                assert(v@ =~= text@);
                break ;
            },
        }
    }
    v
}

/// Cuts `text` at every occurrence of `sep`.
pub fn split(text: &Vec<char>, sep: char) -> (parts: Vec<Vec<char>>)
    ensures
        grid_of(parts@) == pieces(text@, sep),
{
    let mut parts: Vec<Vec<char>> = Vec::new();
    let mut part: Vec<char> = Vec::new();
    let mut i: usize = 0;
    assert(text@.take(0) =~= Seq::empty());
    assert(grid_of(parts@).push(part@) =~= pieces(text@.take(0), sep));
    while i < text.len()
        invariant
            i <= text@.len(),
            grid_of(parts@).push(part@) == pieces(text@.take(i as int), sep),
        decreases text@.len() - i,
    {
        let c = text[i];
        proof {
            let now = text@.take(i + 1);
            assert(now.drop_last() =~= text@.take(i as int));
            assert(now.last() == c);
            let before = pieces(text@.take(i as int), sep);
            assert(before.drop_last() =~= grid_of(parts@));
            assert(before.last() == part@);
        }
        if c == sep {
            parts.push(part);
            part = Vec::new();
            assert(grid_of(parts@).push(part@) =~= pieces(text@.take(i + 1), sep));
        } else {
            part.push(c);
            assert(grid_of(parts@).push(part@) =~= pieces(text@.take(i + 1), sep));
        }
        i = i + 1;
    }
    assert(text@.take(text@.len() as int) =~= text@);
    let ghost closed = grid_of(parts@);
    parts.push(part);
    assert(grid_of(parts@) =~= closed.push(part@));
    parts
}

/// Cuts `text` into its words.
pub fn tokens(text: &Vec<char>) -> (found: Vec<Vec<char>>)
    ensures
        grid_of(found@) == words(text@),
{
    let mut found: Vec<Vec<char>> = Vec::new();
    let mut word: Vec<char> = Vec::new();
    let mut i: usize = 0;
    assert(text@.take(0) =~= Seq::empty());
    assert(grid_of(found@) =~= scan(text@.take(0)).0);
    while i < text.len()
        invariant
            i <= text@.len(),
            (grid_of(found@), word@) == scan(text@.take(i as int)),
        decreases text@.len() - i,
    {
        let c = text[i];
        proof {
            let now = text@.take(i + 1);
            assert(now.drop_last() =~= text@.take(i as int));
            assert(now.last() == c);
        }
        let ghost closed = grid_of(found@);
        if !blank(c) {
            word.push(c);
        } else if word.len() > 0 {
            found.push(word);
            word = Vec::new();
            assert(grid_of(found@) =~= closed.push(scan(text@.take(i as int)).1));
        }
        i = i + 1;
    }
    assert(text@.take(text@.len() as int) =~= text@);
    let ghost closed = grid_of(found@);
    if word.len() > 0 {
        found.push(word);
        assert(grid_of(found@) =~= closed.push(scan(text@).1));
    }
    found
}

/// Reads each token as a scalar, from the first to the last or to the first
/// that `read` refuses.
pub fn parse_row<T, F: Fn(Vec<char>) -> Option<T>>(found: &Vec<Vec<char>>, read: &F) -> (r: Option<
    Vec<T>,
>)
    requires
        forall|token: Vec<char>| call_requires(*read, (token,)),
    ensures
        match r {
            Some(row) => row_reads(*read, grid_of(found@), row@),
            None => exists|k: int|
                0 <= k < found@.len() && reads(*read, #[trigger] grid_of(found@)[k], None::<T>),
        },
{
    let ghost tokens = grid_of(found@);
    let mut row: Vec<T> = Vec::new();
    let mut k: usize = 0;
    while k < found.len()
        invariant
            k <= found@.len(),
            row@.len() == k,
            tokens == grid_of(found@),
            forall|token: Vec<char>| call_requires(*read, (token,)),
            forall|j: int| 0 <= j < k ==> reads(*read, tokens[j], Some(#[trigger] row@[j])),
        decreases found@.len() - k,
    {
        let token = copy_row(&found[k]);
        assert(token@ == tokens[k as int]);
        match read(token) {
            None => {
                assert(reads(*read, tokens[k as int], None::<T>));
                return None;
            },
            Some(x) => {
                assert(reads(*read, tokens[k as int], Some(x)));
                row.push(x);
            },
        }
        k = k + 1;
    }
    Some(row)
}

/// The matrix that `read` makes of the words of the rows.
pub fn parse_rows<T: Scalar, F: Fn(Vec<char>) -> Option<T>>(rows: &Vec<Vec<char>>, read: &F) -> (r:
    Result<Matrix<T>, MatrixError>)
    requires
        forall|token: Vec<char>| call_requires(*read, (token,)),
    ensures
        reading(*read, grid_of(rows@), r),
{
    let ghost lines = grid_of(rows@);
    let mut data: Vec<Vec<T>> = Vec::new();
    let mut i: usize = 0;
    while i < rows.len()
        invariant
            i <= rows@.len(),
            lines == grid_of(rows@),
            data@.len() == i,
            forall|token: Vec<char>| call_requires(*read, (token,)),
            forall|k: int|
                0 <= k < i ==> row_reads(*read, words(lines[k]), #[trigger] grid_of(data@)[k]),
        decreases rows@.len() - i,
    {
        let found = tokens(&rows[i]);
        assert(lines[i as int] == rows@[i as int]@);
        let ghost before = grid_of(data@);
        match parse_row::<T, F>(&found, read) {
            None => {
                proof {
                    let k = choose|k: int|
                        0 <= k < found@.len() && reads(
                            *read,
                            #[trigger] grid_of(found@)[k],
                            None::<T>,
                        );
                    assert(reads(*read, words(lines[i as int])[k], None::<T>));
                }
                return Err(MatrixError::Parse);
            },
            Some(row) => {
                data.push(row);
                assert forall|k: int| 0 <= k < i + 1 implies row_reads(
                    *read,
                    words(lines[k]),
                    #[trigger] grid_of(data@)[k],
                ) by {
                    if k < i {
                        assert(grid_of(data@)[k] == before[k]);
                    }
                }
            },
        }
        i = i + 1;
    }
    assert(lines.len() == rows@.len());
    let ghost grid = grid_of(data@);
    assert(grid_reads(*read, lines, grid));
    let ghost held = data@;
    let r = Matrix::from_rows(data);
    proof {
        if r is Err {
            let i = choose|i: int|
                0 <= i < held.len() && (#[trigger] held[i])@.len() != held[0]@.len();
            assert(grid[i].len() != grid[0].len());
        }
    }
    r
}

impl<T: Scalar> Matrix<T> {
    /// The matrix that `input` writes: rows set apart by semicolons, entries by
    /// blanks, each entry read by `read`.
    pub fn from_string<F: Fn(Vec<char>) -> Option<T>>(input: &str, read: F) -> (r: Result<
        Self,
        MatrixError,
    >)
        requires
            forall|token: Vec<char>| call_requires(read, (token,)),
        ensures
            reading(read, pieces(input@, ';'), r),
    {
        let text = chars_of(input);
        Matrix::from_chars(&text, read)
    }

    /// The matrix that the characters write, as [`Matrix::from_string`] reads
    /// it from a string.
    pub fn from_chars<F: Fn(Vec<char>) -> Option<T>>(text: &Vec<char>, read: F) -> (r: Result<
        Self,
        MatrixError,
    >)
        requires
            forall|token: Vec<char>| call_requires(read, (token,)),
        ensures
            reading(read, pieces(text@, ';'), r),
    {
        let rows = split(text, ';');
        parse_rows(&rows, &read)
    }

    /// The matrix that `content` writes: one row on each line, entries set
    /// apart by blanks, each entry read by `read`. A text without a line
    /// writes no matrix.
    pub fn from_lines<F: Fn(Vec<char>) -> Option<T>>(content: &str, read: F) -> (r: Result<
        Self,
        MatrixError,
    >)
        requires
            forall|token: Vec<char>| call_requires(read, (token,)),
        ensures
            lines(content@).len() == 0 ==> r is Err && r->Err_0 == MatrixError::Parse,
            lines(content@).len() > 0 ==> reading(read, lines(content@), r),
    {
        let text = chars_of(content);
        let mut rows = split(&text, '\n');
        proof {
            lemma_pieces_nonempty(content@, '\n');
        }
        let ghost all = grid_of(rows@);
        if rows[rows.len() - 1].len() == 0 {
            rows.pop();
            assert(grid_of(rows@) =~= all.drop_last());
        }
        if rows.len() == 0 {
            return Err(MatrixError::Parse);
        }
        parse_rows(&rows, &read)
    }
}

} // verus!
