use vstd::prelude::*;
use crate::error::MatrixError;
use crate::matrix::{rectangular, Matrix};
use crate::scalar::Scalar;
use crate::text::{
    grid_reads, is_blank, lemma_pieces_stretch, pieces, reading, reads, refuses, row_reads, scan,
    words,
};

verus! {

/// Whether `token` can stand in a text as one entry: it is not empty and holds
/// neither a blank nor a semicolon.
pub open spec fn is_word(token: Seq<char>) -> bool {
    &&& token.len() > 0
    &&& forall|i: int| 0 <= i < token.len() ==> !is_blank(#[trigger] token[i]) && token[i] != ';'
}

/// The tokens in one line, a space between any two.
pub open spec fn line_of(tokens: Seq<Seq<char>>) -> Seq<char>
    decreases tokens.len(),
{
    if tokens.len() == 0 {
        Seq::empty()
    } else if tokens.len() == 1 {
        tokens[0]
    } else {
        line_of(tokens.drop_last()) + seq![' '] + tokens.last()
    }
}

/// The rows of tokens in one text, a semicolon between any two rows.
pub open spec fn text_of(rows: Seq<Seq<Seq<char>>>) -> Seq<char>
    decreases rows.len(),
{
    if rows.len() == 0 {
        Seq::empty()
    } else if rows.len() == 1 {
        line_of(rows[0])
    } else {
        text_of(rows.drop_last()) + seq![';'] + line_of(rows.last())
    }
}

/// Whether `write` may give a token that holds `token` for `x`.
pub open spec fn writes<T, F: Fn(T) -> Vec<char>>(write: F, x: T, token: Seq<char>) -> bool {
    exists|held: Vec<char>| #[trigger] held@ == token && call_ensures(write, (x,), held)
}

/// Whether `write` may give the tokens for the entries of the grid, one for
/// one.
pub open spec fn grid_writes<T, F: Fn(T) -> Vec<char>>(
    write: F,
    grid: Seq<Seq<T>>,
    tokens: Seq<Seq<Seq<char>>>,
) -> bool {
    &&& tokens.len() == grid.len()
    &&& forall|i: int| 0 <= i < grid.len() ==> (#[trigger] tokens[i]).len() == grid[i].len()
    &&& forall|i: int, k: int|
        0 <= i < grid.len() && 0 <= k < grid[i].len() ==> writes(
            write,
            grid[i][k],
            #[trigger] tokens[i][k],
        )
}

/// Scanning goes on through a stretch without blanks: the open word grows by
/// it.
proof fn lemma_scan_word(text: Seq<char>, word: Seq<char>)
    requires
        forall|i: int| 0 <= i < word.len() ==> !is_blank(#[trigger] word[i]),
    ensures
        scan(text + word) == (scan(text).0, scan(text).1 + word),
    decreases word.len(),
{
    if word.len() == 0 {
        assert(text + word =~= text);
        assert(scan(text).1 + word =~= scan(text).1);
    } else {
        let shorter = word.drop_last();
        assert forall|i: int| 0 <= i < shorter.len() implies !is_blank(#[trigger] shorter[i]) by {
            assert(shorter[i] == word[i]);
        }
        lemma_scan_word(text, shorter);
        assert((text + word).drop_last() =~= text + shorter);
        assert((text + word).last() == word.last());
        assert(!is_blank(word[word.len() - 1]));
        assert(scan(text).1 + shorter.push(word.last()) =~= (scan(text).1 + shorter).push(
            word.last(),
        ));
        assert(shorter.push(word.last()) =~= word);
    }
}

/// A line of words scans into the words before the last, closed, and the last
/// one, open.
proof fn lemma_scan_line(tokens: Seq<Seq<char>>)
    requires
        tokens.len() > 0,
        forall|k: int| 0 <= k < tokens.len() ==> is_word(#[trigger] tokens[k]),
    ensures
        scan(line_of(tokens)) == (tokens.drop_last(), tokens.last()),
    decreases tokens.len(),
{
    let last = tokens.last();
    assert(is_word(tokens[tokens.len() - 1]));
    if tokens.len() == 1 {
        lemma_scan_word(Seq::empty(), last);
        assert(Seq::<char>::empty() + last =~= last);
        assert(tokens.drop_last() =~= Seq::empty());
    } else {
        let before = tokens.drop_last();
        assert forall|k: int| 0 <= k < before.len() implies is_word(#[trigger] before[k]) by {
            assert(before[k] == tokens[k]);
        }
        lemma_scan_line(before);
        let spaced = line_of(before) + seq![' '];
        assert(spaced.drop_last() =~= line_of(before));
        assert(spaced.last() == ' ');
        assert(is_blank(' '));
        assert(is_word(before[before.len() - 1]));
        assert(scan(spaced) == (before.drop_last().push(before.last()), Seq::<char>::empty()));
        assert(before.drop_last().push(before.last()) =~= before);
        lemma_scan_word(spaced, last);
        assert(Seq::<char>::empty() + last =~= last);
    }
}

/// The words of a line of words are those words.
pub proof fn lemma_words_of_line(tokens: Seq<Seq<char>>)
    requires
        forall|k: int| 0 <= k < tokens.len() ==> is_word(#[trigger] tokens[k]),
    ensures
        words(line_of(tokens)) == tokens,
{
    if tokens.len() > 0 {
        lemma_scan_line(tokens);
        assert(is_word(tokens[tokens.len() - 1]));
        assert(tokens.drop_last().push(tokens.last()) =~= tokens);
    }
}

/// A line of words holds no semicolon.
proof fn lemma_line_without_semicolon(tokens: Seq<Seq<char>>)
    requires
        forall|k: int| 0 <= k < tokens.len() ==> is_word(#[trigger] tokens[k]),
    ensures
        forall|i: int| 0 <= i < line_of(tokens).len() ==> #[trigger] line_of(tokens)[i] != ';',
    decreases tokens.len(),
{
    if tokens.len() == 1 {
        assert(is_word(tokens[0]));
        assert forall|i: int| 0 <= i < line_of(tokens).len() implies #[trigger] line_of(
            tokens,
        )[i] != ';' by {
            assert(line_of(tokens)[i] == tokens[0][i]);
        }
    } else if tokens.len() > 1 {
        let before = tokens.drop_last();
        let last = tokens.last();
        assert forall|k: int| 0 <= k < before.len() implies is_word(#[trigger] before[k]) by {
            assert(before[k] == tokens[k]);
        }
        lemma_line_without_semicolon(before);
        assert(is_word(tokens[tokens.len() - 1]));
        let head = line_of(before);
        assert(line_of(tokens) == head + seq![' '] + last);
        assert forall|i: int| 0 <= i < line_of(tokens).len() implies #[trigger] line_of(
            tokens,
        )[i] != ';' by {
            if i < head.len() {
                assert(line_of(tokens)[i] == head[i]);
            } else if i == head.len() {
                assert(line_of(tokens)[i] == ' ');
            } else {
                assert(line_of(tokens)[i] == last[i - head.len() - 1]);
            }
        }
    }
}

/// The pieces of a text of rows of words are the lines of those rows.
pub proof fn lemma_pieces_of_text(rows: Seq<Seq<Seq<char>>>)
    requires
        rows.len() > 0,
        forall|i: int, k: int|
            0 <= i < rows.len() && 0 <= k < rows[i].len() ==> is_word(#[trigger] rows[i][k]),
    ensures
        pieces(text_of(rows), ';') == Seq::new(rows.len(), |i: int| line_of(rows[i])),
    decreases rows.len(),
{
    let last = line_of(rows.last());
    let expected = Seq::new(rows.len(), |i: int| line_of(rows[i]));
    assert forall|k: int| 0 <= k < rows.last().len() implies is_word(
        #[trigger] rows.last()[k],
    ) by {
        assert(is_word(rows[rows.len() - 1][k]));
    }
    lemma_line_without_semicolon(rows.last());
    if rows.len() == 1 {
        lemma_pieces_stretch(Seq::empty(), last, ';');
        assert(Seq::<char>::empty() + last =~= last);
        assert(pieces(Seq::<char>::empty(), ';') == seq![Seq::<char>::empty()]);
        assert(pieces(text_of(rows), ';') =~= expected);
    } else {
        let before = rows.drop_last();
        assert forall|i: int, k: int|
            0 <= i < before.len() && 0 <= k < before[i].len() implies is_word(
            #[trigger] before[i][k],
        ) by {
            assert(before[i][k] == rows[i][k]);
        }
        lemma_pieces_of_text(before);
        let cut = text_of(before) + seq![';'];
        assert(cut.drop_last() =~= text_of(before));
        assert(cut.last() == ';');
        assert(pieces(cut, ';') == pieces(text_of(before), ';').push(Seq::empty()));
        lemma_pieces_stretch(cut, last, ';');
        assert(Seq::<char>::empty() + last =~= last);
        assert(pieces(text_of(rows), ';') =~= expected);
    }
}

/// A matrix comes back from its own text. Let a text hold a word for each
/// entry of a grid with at least one row, and let `read` give for each of
/// these words the entry it stands for and nothing else. Then whatever reading
/// the text may come to, it is a matrix with the entries of the grid.
pub proof fn lemma_text_round_trip<T: Scalar, F: Fn(Vec<char>) -> Option<T>>(
    read: F,
    grid: Seq<Seq<T>>,
    cols: nat,
    tokens: Seq<Seq<Seq<char>>>,
    r: Result<Matrix<T>, MatrixError>,
)
    requires
        grid.len() > 0,
        rectangular(grid, cols),
        tokens.len() == grid.len(),
        forall|i: int| 0 <= i < grid.len() ==> (#[trigger] tokens[i]).len() == grid[i].len(),
        forall|i: int, k: int|
            0 <= i < tokens.len() && 0 <= k < tokens[i].len() ==> is_word(#[trigger] tokens[i][k]),
        forall|i: int, k: int, out: Option<T>|
            0 <= i < tokens.len() && 0 <= k < tokens[i].len() && #[trigger] reads(
                read,
                tokens[i][k],
                out,
            ) ==> out == Some(grid[i][k]),
        reading(read, pieces(text_of(tokens), ';'), r),
    ensures
        r is Ok,
        r->Ok_0@ == grid,
        r->Ok_0.cols_spec() == cols,
{
    let rows = pieces(text_of(tokens), ';');
    lemma_pieces_of_text(tokens);
    assert forall|i: int| 0 <= i < rows.len() implies words(#[trigger] rows[i]) == tokens[i] by {
        assert forall|k: int| 0 <= k < tokens[i].len() implies is_word(#[trigger] tokens[i][k]) by {
        }
        lemma_words_of_line(tokens[i]);
    }
    assert forall|read_grid: Seq<Seq<T>>| grid_reads(read, rows, read_grid) implies read_grid
        == grid by {
        assert forall|i: int| 0 <= i < grid.len() implies read_grid[i] =~= grid[i] by {
            assert(row_reads(read, words(rows[i]), read_grid[i]));
            assert(tokens[i].len() == grid[i].len());
            assert forall|k: int| 0 <= k < grid[i].len() implies read_grid[i][k]
                == grid[i][k] by {
                assert(reads(read, tokens[i][k], Some(read_grid[i][k])));
            }
        }
        assert(read_grid =~= grid);
    }
    assert(grid[0].len() == cols);
    if r is Err {
        if refuses(read, rows) {
            let (i, k) = choose|i: int, k: int|
                0 <= i < rows.len() && 0 <= k < words(rows[i]).len() && reads(
                    read,
                    #[trigger] words(rows[i])[k],
                    None::<T>,
                );
            assert(reads(read, tokens[i][k], None::<T>));
        } else {
            let read_grid = choose|read_grid: Seq<Seq<T>>|
                #![trigger grid_reads(read, rows, read_grid)]
                grid_reads(read, rows, read_grid) && !rectangular(read_grid, read_grid[0].len());
            assert(read_grid == grid);
        }
    } else {
        assert(grid_reads(read, rows, r->Ok_0@));
    }
}

impl<T: Scalar> Matrix<T> {
    /// The matrix as a text: the entries as `write` gives them, a space between
    /// any two of a row and a semicolon between any two rows.
    pub fn to_text<F: Fn(T) -> Vec<char>>(&self, write: F) -> (out: Vec<char>)
        requires
            forall|x: T| call_requires(write, (x,)),
        ensures
            exists|tokens: Seq<Seq<Seq<char>>>|
                grid_writes(write, self@, tokens) && out@ == #[trigger] text_of(tokens),
    {
        let rows = self.rows();
        let cols = self.cols();
        let mut out: Vec<char> = Vec::new();
        let ghost mut tokens: Seq<Seq<Seq<char>>> = Seq::empty();
        let mut i: usize = 0;
        while i < rows
            invariant
                i <= rows,
                rows == self.rows_spec(),
                cols == self.cols_spec(),
                rectangular(self@, cols as nat),
                forall|x: T| call_requires(write, (x,)),
                grid_writes(write, self@.take(i as int), tokens),
                out@ == text_of(tokens),
            decreases rows - i,
        {
            let ghost before = tokens;
            let ghost mut line: Seq<Seq<char>> = Seq::empty();
            let ghost start = out@;
            if i > 0 {
                out.push(';');
            }
            let ghost head = out@;
            let mut k: usize = 0;
            while k < cols
                invariant
                    k <= cols,
                    i < rows,
                    rows == self.rows_spec(),
                    cols == self.cols_spec(),
                    self@[i as int].len() == cols,
                    forall|x: T| call_requires(write, (x,)),
                    line.len() == k,
                    forall|j: int|
                        0 <= j < k ==> writes(write, self@[i as int][j], #[trigger] line[j]),
                    out@ == head + line_of(line),
                decreases cols - k,
            {
                if k > 0 {
                    out.push(' ');
                }
                let token = write(self.entry(i, k));
                let ghost shorter = line;
                proof {
                    line = line.push(token@);
                    assert(line.drop_last() =~= shorter);
                    assert(writes(write, self@[i as int][k as int], line[k as int]));
                }
                let mut j: usize = 0;
                let ghost base = out@;
                while j < token.len()
                    invariant
                        j <= token@.len(),
                        out@ == base + token@.take(j as int),
                    decreases token@.len() - j,
                {
                    out.push(token[j]);
                    assert(out@ =~= base + token@.take(j + 1));
                    j = j + 1;
                }
                assert(token@.take(token@.len() as int) =~= token@);
                assert(out@ =~= head + line_of(line)) by {
                    if k == 0 {
                        assert(line_of(shorter) =~= Seq::<char>::empty());
                        assert(line_of(line) == token@);
                    } else {
                        assert(line_of(line) == line_of(shorter) + seq![' '] + token@);
                    }
                }
                k = k + 1;
            }
            proof {
                tokens = before.push(line);
                assert(tokens.drop_last() =~= before);
                assert(out@ =~= text_of(tokens)) by {
                    if i == 0 {
                        assert(start =~= Seq::<char>::empty());
                    }
                }
                assert(grid_writes(write, self@.take(i + 1), tokens)) by {
                    assert forall|a: int, b: int|
                        0 <= a < i + 1 && 0 <= b < self@.take(i + 1)[a].len() implies writes(
                        write,
                        self@.take(i + 1)[a][b],
                        #[trigger] tokens[a][b],
                    ) by {
                        if a < i {
                            assert(tokens[a] == before[a]);
                            assert(self@.take(i as int)[a] == self@[a]);
                            assert(writes(write, self@.take(i as int)[a][b], before[a][b]));
                        }
                    }
                    assert forall|a: int| 0 <= a < i + 1 implies (#[trigger] tokens[a]).len()
                        == self@.take(i + 1)[a].len() by {
                        if a < i {
                            assert(tokens[a] == before[a]);
                            assert(self@.take(i as int)[a] == self@[a]);
                        }
                    }
                }
            }
            i = i + 1;
        }
        assert(self@.take(rows as int) =~= self@);
        out
    }
}

} // verus!
