//! Matrices as text: one line per row, its cells parted by white space.

use super::model::Grid;
use super::Array2d;
use vstd::prelude::*;
use vstd::std_specs::iter::IteratorSpec;
use vstd::string::{StrSliceExecFns, StringExecFns};

verus! {

/// `String::push` appends one character to the end of the string.
pub assume_specification[ String::push ](s: &mut String, ch: char)
    ensures
        final(s)@ == old(s)@.push(ch),
;

/// `str::parse` reads a whole token as a value of `T` through the type's
/// `FromStr`; what it reads is up to that type, so nothing is promised of
/// the outcome.
#[verifier::external_body]
fn parse_token<T: core::str::FromStr>(token: &str) -> (value: Option<T>) {
    token.parse::<T>().ok()
}

/// Why a text is not a matrix.
#[derive(Clone, Copy, Debug, PartialEq, Eq)]
pub enum TextError {
    /// No line holds a character.
    Empty,
    /// A token is not a value of the cell type.
    Token,
    /// Two lines hold different numbers of tokens.
    Ragged,
}

/// White space parts the tokens of a line: the characters with the Unicode
/// property of that name.
pub open spec fn is_space(c: char) -> bool {
    let u = c as u32;
    ||| 0x09 <= u <= 0x0D
    ||| u == 0x20
    ||| u == 0x85
    ||| u == 0xA0
    ||| u == 0x1680
    ||| 0x2000 <= u <= 0x200A
    ||| u == 0x2028
    ||| u == 0x2029
    ||| u == 0x202F
    ||| u == 0x205F
    ||| u == 0x3000
}

/// What reading a text from the left has found so far.
pub struct Scan {
    /// The tokens that are complete, in reading order.
    pub tokens: Seq<Seq<char>>,
    /// For each complete line that holds a character, how many tokens it holds.
    pub counts: Seq<nat>,
    /// How many complete tokens the current line holds.
    pub count: nat,
    /// The token that is being read.
    pub token: Seq<char>,
    /// The current line holds a character.
    pub in_line: bool,
}

/// Before the first character.
pub open spec fn scan_start() -> Scan {
    Scan { tokens: Seq::empty(), counts: Seq::empty(), count: 0, token: Seq::empty(), in_line: false }
}

/// The token that is being read, if any, is complete.
pub open spec fn end_token(s: Scan) -> Scan {
    if s.token.len() > 0 {
        Scan { tokens: s.tokens.push(s.token), count: s.count + 1, token: Seq::empty(), ..s }
    } else {
        s
    }
}

/// The current line is complete; it counts as a row if it holds a character.
pub open spec fn end_line(s: Scan) -> Scan {
    let s = end_token(s);
    if s.in_line {
        Scan { counts: s.counts.push(s.count), count: 0, in_line: false, ..s }
    } else {
        s
    }
}

/// Reading one more character.
pub open spec fn scan_step(s: Scan, c: char) -> Scan {
    if c == '\n' {
        end_line(s)
    } else if is_space(c) {
        Scan { in_line: true, ..end_token(s) }
    } else {
        Scan { token: s.token.push(c), in_line: true, ..s }
    }
}

/// What the first `n` characters of `text` hold.
pub open spec fn scan(text: Seq<char>, n: nat) -> Scan
    decreases n,
{
    if n == 0 {
        scan_start()
    } else {
        scan_step(scan(text, (n - 1) as nat), text[n - 1])
    }
}

/// What the whole of `text` holds: its tokens and the token count of each row.
pub open spec fn layout(text: Seq<char>) -> Scan {
    end_line(scan(text, text.len()))
}

/// Every row holds as many tokens as the first.
pub open spec fn uniform(counts: Seq<nat>) -> bool {
    forall|i: int| 0 <= i < counts.len() ==> #[trigger] counts[i] == counts[0]
}

/// Whether `c` is white space.
pub fn is_space_char(c: char) -> (space: bool)
    ensures
        space == is_space(c),
{
    let u = c as u32;
    (0x09 <= u && u <= 0x0D) || u == 0x20 || u == 0x85 || u == 0xA0 || u == 0x1680 || (0x2000 <= u
        && u <= 0x200A) || u == 0x2028 || u == 0x2029 || u == 0x202F || u == 0x205F || u == 0x3000
}

/// Token `k` of the scan was handed to `parse`, which gave `cell`.
pub open spec fn parsed_as<T, F: Fn(&str) -> Option<T>>(
    parse: F,
    token: Seq<char>,
    cell: Option<T>,
) -> bool {
    exists|t: &str| t@ == token && #[trigger] call_ensures(parse, (t,), cell)
}

/// The reader's state while it walks a text.
struct Reader<T> {
    data: Vec<T>,
    token: String,
    count: usize,
    n_rows: usize,
    cols: usize,
    ragged: bool,
    in_line: bool,
}

impl<T: Copy> Reader<T> {
    /// The state agrees with what the scan of `seen` characters has found.
    spec fn agrees<F: Fn(&str) -> Option<T>>(&self, st: Scan, parse: F, seen: nat) -> bool {
        &&& self.token@ == st.token
        &&& self.count == st.count
        &&& self.in_line == st.in_line
        &&& self.n_rows == st.counts.len()
        &&& self.data@.len() == st.tokens.len()
        &&& forall|k: int|
            0 <= k < st.tokens.len() ==> parsed_as(parse, #[trigger] st.tokens[k], Some(self.data@[k]))
        &&& self.n_rows > 0 ==> self.cols == st.counts[0]
        &&& self.ragged <==> !uniform(st.counts)
        &&& !self.ragged ==> st.tokens.len() == self.n_rows * self.cols + self.count
        &&& self.count <= self.data@.len()
        &&& self.n_rows + (if self.in_line {
            1nat
        } else {
            0nat
        }) <= seen
        &&& st.token.len() > 0 || st.count > 0 ==> st.in_line
    }

    /// Ends the token that is being read, if any; `false` if it is no value.
    fn end_token<F: Fn(&str) -> Option<T>>(
        &mut self,
        parse: &F,
        Ghost(st): Ghost<Scan>,
        Ghost(seen): Ghost<nat>,
    ) -> (ok: bool)
        requires
            old(self).agrees(st, *parse, seen),
            forall|t: &str| call_requires(*parse, (t,)),
        ensures
            ok ==> final(self).agrees(end_token(st), *parse, seen),
            !ok ==> st.token.len() > 0 && parsed_as(*parse, st.token, None::<T>),
    {
        if self.token.as_str().unicode_len() == 0 {
            return true;
        }
        match parse(self.token.as_str()) {
            Some(value) => {
                self.data.push(value);
                assert(self.data.len() == self.data@.len());
                self.count = self.count + 1;
                self.token = String::new();
                proof {
                    let next = end_token(st);
                    assert forall|k: int| 0 <= k < next.tokens.len() implies parsed_as(
                        *parse,
                        #[trigger] next.tokens[k],
                        Some(self.data@[k]),
                    ) by {
                        if k < st.tokens.len() {
                            assert(parsed_as(*parse, st.tokens[k], Some(old(self).data@[k])));
                        }
                    }
                }
                true
            },
            None => false,
        }
    }

    /// Ends the current line; `false` if its last token is no value.
    fn end_line<F: Fn(&str) -> Option<T>>(
        &mut self,
        parse: &F,
        Ghost(st): Ghost<Scan>,
        Ghost(seen): Ghost<nat>,
    ) -> (ok: bool)
        requires
            old(self).agrees(st, *parse, seen),
            forall|t: &str| call_requires(*parse, (t,)),
            seen <= usize::MAX,
        ensures
            ok ==> final(self).agrees(end_line(st), *parse, seen),
            !ok ==> st.token.len() > 0 && parsed_as(*parse, st.token, None::<T>),
    {
        if !self.end_token(parse, Ghost(st), Ghost(seen)) {
            return false;
        }
        if self.in_line {
            let ghost mid = end_token(st);
            let ghost next = end_line(st);
            if self.n_rows == 0 {
                self.cols = self.count;
                proof {
                    assert(self.n_rows * self.cols == 0) by (nonlinear_arith)
                        requires
                            self.n_rows == 0,
                    ;
                    assert(1 * self.cols == self.cols) by (nonlinear_arith);
                }
            } else if self.count != self.cols {
                proof {
                    assert(next.counts[next.counts.len() - 1] != next.counts[0]);
                }
                self.ragged = true;
            } else {
                proof {
                    assert((self.n_rows + 1) * self.cols == self.n_rows * self.cols + self.cols)
                        by (nonlinear_arith);
                    if uniform(mid.counts) {
                        assert forall|i: int| 0 <= i < next.counts.len() implies #[trigger] next.counts[i]
                            == next.counts[0] by {
                            if i < mid.counts.len() {
                                assert(mid.counts[i] == mid.counts[0]);
                            }
                        }
                    } else {
                        let i = choose|i: int|
                            0 <= i < mid.counts.len() && #[trigger] mid.counts[i] != mid.counts[0];
                        assert(next.counts[i] != next.counts[0]);
                    }
                }
            }
            self.n_rows = self.n_rows + 1;
            self.count = 0;
            self.in_line = false;
        }
        true
    }
}

/// What `from_string_with` owes for `text` when `parse` reads the tokens.
pub open spec fn read_as<T, F: Fn(&str) -> Option<T>>(
    text: Seq<char>,
    parse: F,
    res: Result<Array2d<T>, TextError>,
) -> bool {
    let end = layout(text);
    match res {
        Ok(arr) => {
            &&& end.counts.len() > 0
            &&& uniform(end.counts)
            &&& arr@.wf()
            &&& arr@.rows == end.counts.len()
            &&& arr@.cols == end.counts[0]
            &&& arr@.cells.len() == end.tokens.len()
            &&& forall|k: int|
                0 <= k < end.tokens.len() ==> parsed_as(
                    parse,
                    #[trigger] end.tokens[k],
                    Some(arr@.cells[k]),
                )
        },
        Err(TextError::Empty) => end.counts.len() == 0 && end.tokens.len() == 0,
        Err(TextError::Token) => exists|k: int|
            0 <= k < end.tokens.len() && parsed_as(parse, #[trigger] end.tokens[k], None::<T>),
        Err(TextError::Ragged) => {
            &&& end.counts.len() > 0
            &&& !uniform(end.counts)
            &&& forall|k: int|
                0 <= k < end.tokens.len() ==> parsed_as_some(parse, #[trigger] end.tokens[k])
        },
    }
}

/// `parse` gave a cell for `token`.
pub open spec fn parsed_as_some<T, F: Fn(&str) -> Option<T>>(parse: F, token: Seq<char>) -> bool {
    exists|cell: T| parsed_as(parse, token, Some(cell))
}

/// A text whose tokens `read` reads, without a matrix yet around the cells:
/// the outcome that `from_string_with` owes when `parse` computes `read`.
pub open spec fn read_text<T>(text: Seq<char>, read: spec_fn(Seq<char>) -> Option<T>) -> Result<
    Grid<T>,
    TextError,
> {
    let end = layout(text);
    if end.counts.len() == 0 {
        Err(TextError::Empty)
    } else if exists|k: int| 0 <= k < end.tokens.len() && read(#[trigger] end.tokens[k]) is None {
        Err(TextError::Token)
    } else if !uniform(end.counts) {
        Err(TextError::Ragged)
    } else {
        Ok(
            Grid {
                rows: end.counts.len(),
                cols: end.counts[0],
                cells: Seq::new(end.tokens.len(), |k: int| read(end.tokens[k])->0),
            },
        )
    }
}

/// Where `parse` computes the function `read` of the token's characters,
/// `from_string_with` returns exactly `read_text`.
pub proof fn lemma_read_exact<T, F: Fn(&str) -> Option<T>>(
    text: Seq<char>,
    parse: F,
    read: spec_fn(Seq<char>) -> Option<T>,
    res: Result<Array2d<T>, TextError>,
)
    requires
        read_as(text, parse, res),
        forall|t: &str, cell: Option<T>| #[trigger]
            call_ensures(parse, (t,), cell) ==> cell == read(t@),
    ensures
        match res {
            Ok(arr) => read_text(text, read) == Ok::<Grid<T>, TextError>(arr@),
            Err(err) => read_text(text, read) == Err::<Grid<T>, TextError>(err),
        },
{
    let end = layout(text);
    lemma_rows_hold_tokens(text, text.len());
    match res {
        Ok(arr) => {
            assert forall|k: int| 0 <= k < end.tokens.len() implies read(
                #[trigger] end.tokens[k],
            ) == Some(arr@.cells[k]) by {
                assert(parsed_as(parse, end.tokens[k], Some(arr@.cells[k])));
            }
            assert(arr@.cells =~= Seq::new(end.tokens.len(), |k: int| read(end.tokens[k])->0));
        },
        Err(TextError::Empty) => {},
        Err(TextError::Token) => {
            let k = choose|k: int|
                0 <= k < end.tokens.len() && parsed_as(parse, #[trigger] end.tokens[k], None::<T>);
            assert(read(end.tokens[k]) is None);
        },
        Err(TextError::Ragged) => {
            assert forall|k: int| 0 <= k < end.tokens.len() implies !(read(
                #[trigger] end.tokens[k],
            ) is None) by {
                assert(parsed_as_some(parse, end.tokens[k]));
                let cell = choose|cell: T| parsed_as(parse, end.tokens[k], Some(cell));
                assert(parsed_as(parse, end.tokens[k], Some(cell)));
            }
        },
    }
}

/// The scan only ever adds to the tokens it has found.
pub proof fn lemma_tokens_kept(text: Seq<char>, n: nat, k: int)
    requires
        n <= text.len(),
        0 <= k < scan(text, n).tokens.len(),
    ensures
        k < layout(text).tokens.len(),
        layout(text).tokens[k] == scan(text, n).tokens[k],
    decreases text.len() - n,
{
    if n < text.len() {
        let here = scan(text, n);
        let there = scan(text, n + 1);
        assert(there == scan_step(here, text[n as int]));
        lemma_tokens_kept(text, n + 1, k);
    }
}

impl<T: Copy> Array2d<T> {
    /// Reads a matrix from `text`: each line that holds a character is a row,
    /// its tokens, parted by white space, are the cells, and `parse` reads
    /// each token. The rows must hold equally many tokens.
    pub fn from_string_with<F: Fn(&str) -> Option<T>>(text: &str, parse: F) -> (res: Result<
        Array2d<T>,
        TextError,
    >)
        requires
            forall|t: &str| call_requires(parse, (t,)),
        ensures
            read_as(text@, parse, res),
    {
        let len = text.unicode_len();
        let mut reader = Reader {
            data: Vec::new(),
            token: String::new(),
            count: 0,
            n_rows: 0,
            cols: 0,
            ragged: false,
            in_line: false,
        };
        let chars = text.chars();
        for c in it: chars
            invariant
                it.seq() == text@,
                len == text@.len(),
                reader.agrees(scan(text@, it.index() as nat), parse, it.index() as nat),
                forall|t: &str| call_requires(parse, (t,)),
        {
            let ghost st = scan(text@, it.index() as nat);
            let ghost seen = it.index() as nat;
            proof {
                assert(scan(text@, (seen + 1) as nat) == scan_step(st, c));
            }
            if c == '\n' {
                if !reader.end_line(&parse, Ghost(st), Ghost(seen)) {
                    proof {
                        lemma_token_fails(text@, seen, parse);
                    }
                    return Err(TextError::Token);
                }
            } else if is_space_char(c) {
                if !reader.end_token(&parse, Ghost(st), Ghost(seen)) {
                    proof {
                        lemma_token_fails(text@, seen, parse);
                    }
                    return Err(TextError::Token);
                }
                reader.in_line = true;
            } else {
                reader.token.push(c);
                reader.in_line = true;
            }
        }
        let ghost st = scan(text@, text@.len());
        if !reader.end_line(&parse, Ghost(st), Ghost(text@.len())) {
            proof {
                lemma_token_fails(text@, text@.len(), parse);
            }
            return Err(TextError::Token);
        }
        assert(reader.agrees(layout(text@), parse, text@.len()));
        assert(reader.count == 0);
        proof {
            lemma_rows_hold_tokens(text@, text@.len());
            assert forall|k: int| 0 <= k < layout(text@).tokens.len() implies parsed_as_some(
                parse,
                #[trigger] layout(text@).tokens[k],
            ) by {
                assert(parsed_as(parse, layout(text@).tokens[k], Some(reader.data@[k])));
            }
        }
        if reader.n_rows == 0 {
            return Err(TextError::Empty);
        }
        if reader.ragged {
            return Err(TextError::Ragged);
        }
        Ok(Array2d { data: reader.data, rows: reader.n_rows, cols: reader.cols })
    }
}

impl<T: Copy + core::str::FromStr> Array2d<T> {
    /// Reads a matrix from `string` as `from_string_with` does, each token
    /// through the cell type's own `FromStr`.
    pub fn from_string(string: String) -> (res: Result<Array2d<T>, TextError>)
        ensures
            layout(string@).counts.len() == 0 <==> res == Err::<Array2d<T>, TextError>(
                TextError::Empty,
            ),
            res matches Ok(arr) ==> {
                &&& uniform(layout(string@).counts)
                &&& arr@.wf()
                &&& arr@.rows == layout(string@).counts.len()
                &&& arr@.cols == layout(string@).counts[0]
            },
            res == Err::<Array2d<T>, TextError>(TextError::Ragged) ==> !uniform(
                layout(string@).counts,
            ),
            res == Err::<Array2d<T>, TextError>(TextError::Token) ==> layout(string@).tokens.len()
                > 0,
    {
        proof {
            lemma_rows_hold_tokens(string@, string@.len());
        }
        Self::from_string_with(
            string.as_str(),
            |token: &str| -> (value: Option<T>) { parse_token::<T>(token) },
        )
    }
}

/// A token that `parse` refused when it ended behind `n` characters is a
/// token of the text.
proof fn lemma_token_fails<T, F: Fn(&str) -> Option<T>>(text: Seq<char>, n: nat, parse: F)
    requires
        n <= text.len(),
        n < text.len() ==> text[n as int] == '\n' || is_space(text[n as int]),
        scan(text, n).token.len() > 0,
        parsed_as(parse, scan(text, n).token, None::<T>),
    ensures
        exists|k: int|
            0 <= k < layout(text).tokens.len() && parsed_as(
                parse,
                #[trigger] layout(text).tokens[k],
                None::<T>,
            ),
{
    let here = scan(text, n);
    let k = here.tokens.len() as int;
    if n < text.len() {
        let there = scan(text, n + 1);
        assert(there == scan_step(here, text[n as int]));
        assert(there.tokens[k] == here.token);
        lemma_tokens_kept(text, n + 1, k);
    }
    assert(layout(text).tokens[k] == here.token);
    assert(parsed_as(parse, layout(text).tokens[k], None::<T>));
}

/// A text without rows holds no tokens.
proof fn lemma_rows_hold_tokens(text: Seq<char>, n: nat)
    requires
        n <= text.len(),
    ensures
        scan(text, n).counts.len() == 0 && !scan(text, n).in_line ==> scan(text, n).tokens.len()
            == 0 && scan(text, n).token.len() == 0 && scan(text, n).count == 0,
        scan(text, n).token.len() > 0 || scan(text, n).count > 0 ==> scan(text, n).in_line,
    decreases n,
{
    if n > 0 {
        lemma_rows_hold_tokens(text, (n - 1) as nat);
    }
}

/// `format!` with `{:?}` writes a value as its type's `Debug` does; what it
/// writes is up to that type, so nothing is promised of the outcome.
#[verifier::external_body]
fn debug_text<T: core::fmt::Debug>(value: &T) -> (text: String) {
    format!("{:?}", value)
}

/// The text of the first `n` of the `tokens` of a matrix of `cols` columns:
/// each token with a tab behind it, or a line feed where its row ends.
pub open spec fn render_cells(tokens: Seq<Seq<char>>, cols: nat, n: nat) -> Seq<char>
    decreases n,
{
    if n == 0 {
        Seq::empty()
    } else {
        render_cells(tokens, cols, (n - 1) as nat) + tokens[n - 1] + seq![
            if n % cols == 0 {
                '\n'
            } else {
                '\t'
            },
        ]
    }
}

/// The text of a matrix whose cells read as `tokens`: one line per row, the
/// cells of a row parted by tabs.
pub open spec fn render_text(tokens: Grid<Seq<char>>) -> Seq<char> {
    if tokens.cols == 0 {
        Seq::new(tokens.rows, |i: int| '\n')
    } else {
        render_cells(tokens.cells, tokens.cols, tokens.cells.len())
    }
}

/// `render` wrote the cell `cell` as `token`.
pub open spec fn rendered_as<T, F: Fn(&T) -> String>(render: F, cell: T, token: Seq<char>) -> bool {
    exists|s: String| s@ == token && #[trigger] call_ensures(render, (&cell,), s)
}

impl<T: Copy> Array2d<T> {
    /// Writes the matrix as text, one line per row, the cells of a row parted
    /// by tabs, each cell as `render` writes it.
    pub fn to_string_with<F: Fn(&T) -> String>(&self, render: F) -> (out: String)
        requires
            self@.wf(),
            forall|x: &T| call_requires(render, (x,)),
        ensures
            exists|tokens: Seq<Seq<char>>|
                {
                    &&& tokens.len() == self@.cells.len()
                    &&& forall|k: int|
                        0 <= k < tokens.len() ==> rendered_as(
                            render,
                            self@.cells[k],
                            #[trigger] tokens[k],
                        )
                    &&& out@ == render_text(
                        Grid { rows: self@.rows, cols: self@.cols, cells: tokens },
                    )
                },
    {
        let mut out = String::new();
        if self.cols == 0 {
            let mut r: usize = 0;
            while r < self.rows
                invariant
                    r <= self.rows,
                    out@ == Seq::new(r as nat, |i: int| '\n'),
                decreases self.rows - r,
            {
                out.push('\n');
                r += 1;
                assert(out@ =~= Seq::new(r as nat, |i: int| '\n'));
            }
            proof {
                let tokens = Seq::<Seq<char>>::empty();
                self.lemma_buffer();
                assert(self.rows * self.cols == 0) by (nonlinear_arith)
                    requires
                        self.cols == 0,
                ;
                assert(tokens.len() == self@.cells.len());
                assert(out@ == render_text(
                    Grid { rows: self@.rows, cols: self@.cols, cells: tokens },
                ));
            }
            return out;
        }
        let ghost mut tokens = Seq::<Seq<char>>::empty();
        let mut k: usize = 0;
        let mut in_row: usize = 0;
        while k < self.data.len()
            invariant
                k <= self.data@.len(),
                self.cols > 0,
                in_row < self.cols,
                in_row == (k as int) % (self.cols as int),
                tokens.len() == k,
                forall|x: &T| call_requires(render, (x,)),
                forall|j: int|
                    0 <= j < k ==> rendered_as(render, self.data@[j], #[trigger] tokens[j]),
                out@ == render_cells(tokens, self.cols as nat, k as nat),
            decreases self.data@.len() - k,
        {
            let token = render(&self.data[k]);
            let ghost before = tokens;
            proof {
                tokens = tokens.push(token@);
                lemma_render_prefix(before, tokens, self.cols as nat, k as nat);
                lemma_next_cell(k as int, self.cols as int);
            }
            out.append(token.as_str());
            in_row = in_row + 1;
            if in_row == self.cols {
                out.push('\n');
                in_row = 0;
            } else {
                out.push('\t');
            }
            k += 1;
        }
        out
    }
}

impl<T: Copy + core::fmt::Debug> Array2d<T> {
    /// Writes the matrix as text as `to_string_with` does, each cell as its
    /// type's `Debug` writes it.
    pub fn to_string(&self) -> (out: String)
        requires
            self@.wf(),
        ensures
            exists|tokens: Seq<Seq<char>>|
                {
                    &&& tokens.len() == self@.cells.len()
                    &&& out@ == render_text(
                        Grid { rows: self@.rows, cols: self@.cols, cells: tokens },
                    )
                },
    {
        self.to_string_with(|cell: &T| -> (text: String) { debug_text(cell) })
    }
}

/// Where `render` computes the function `write` of the cell, the tokens that
/// `to_string_with` writes are exactly the cells under `write`.
pub proof fn lemma_write_exact<T, F: Fn(&T) -> String>(
    cells: Seq<T>,
    render: F,
    write: spec_fn(T) -> Seq<char>,
    tokens: Seq<Seq<char>>,
)
    requires
        tokens.len() == cells.len(),
        forall|k: int| 0 <= k < tokens.len() ==> rendered_as(render, cells[k], #[trigger] tokens[k]),
        forall|x: &T, s: String| #[trigger] call_ensures(render, (x,), s) ==> s@ == write(*x),
    ensures
        tokens == Seq::new(cells.len(), |k: int| write(cells[k])),
{
    assert forall|k: int| 0 <= k < tokens.len() implies tokens[k] == write(cells[k]) by {
        assert(rendered_as(render, cells[k], tokens[k]));
    }
    assert(tokens =~= Seq::new(cells.len(), |k: int| write(cells[k])));
}

/// The text of the first `n` tokens does not depend on the tokens behind them.
proof fn lemma_render_prefix(a: Seq<Seq<char>>, b: Seq<Seq<char>>, cols: nat, n: nat)
    requires
        n <= a.len(),
        n <= b.len(),
        forall|j: int| 0 <= j < n ==> a[j] == b[j],
    ensures
        render_cells(a, cols, n) == render_cells(b, cols, n),
    decreases n,
{
    if n > 0 {
        lemma_render_prefix(a, b, cols, (n - 1) as nat);
    }
}

/// A token as a text holds it: not empty, and free of white space and line feeds.
pub open spec fn is_token(token: Seq<char>) -> bool {
    &&& token.len() > 0
    &&& forall|i: int| 0 <= i < token.len() ==> !is_space(#[trigger] token[i]) && token[i] != '\n'
}

/// What the scan has found in the first `m` characters depends on those alone.
proof fn lemma_scan_prefix(a: Seq<char>, b: Seq<char>, m: nat)
    requires
        m <= a.len(),
        m <= b.len(),
        forall|i: int| 0 <= i < m ==> a[i] == b[i],
    ensures
        scan(a, m) == scan(b, m),
    decreases m,
{
    if m > 0 {
        lemma_scan_prefix(a, b, (m - 1) as nat);
    }
}

/// Behind `m` characters that end outside a token, the first `j` characters
/// of a token are read as the token in progress and change nothing else.
proof fn lemma_scan_token(text: Seq<char>, m: nat, token: Seq<char>, j: nat)
    requires
        is_token(token),
        j <= token.len(),
        m + token.len() <= text.len(),
        forall|i: int| 0 <= i < token.len() ==> text[m + i] == token[i],
        scan(text, m).token.len() == 0,
    ensures
        scan(text, m + j) == (Scan {
            token: token.take(j as int),
            in_line: scan(text, m).in_line || j > 0,
            ..scan(text, m)
        }),
    decreases j,
{
    if j > 0 {
        lemma_scan_token(text, m, token, (j - 1) as nat);
        let before = scan(text, (m + j - 1) as nat);
        assert(text[m + j - 1] == token[j - 1]);
        assert(scan(text, m + j) == scan_step(before, token[j - 1]));
        assert(token.take(j - 1).push(token[j - 1]) =~= token.take(j as int));
    } else {
        assert(token.take(0) =~= Seq::<char>::empty());
        assert(scan(text, m).token =~= Seq::<char>::empty());
    }
}

/// How the cell count of the row in progress and the count of complete rows
/// move from one cell to the next.
proof fn lemma_next_cell(n: int, cols: int)
    requires
        0 <= n,
        0 < cols,
    ensures
        n % cols + 1 == cols ==> (n + 1) % cols == 0 && (n + 1) / cols == n / cols + 1,
        n % cols + 1 != cols ==> (n + 1) % cols == n % cols + 1 && (n + 1) / cols == n / cols,
        0 <= n % cols < cols,
        0 <= n / cols,
{
    let q = n / cols;
    let m = n % cols;
    vstd::arithmetic::div_mod::lemma_fundamental_div_mod(n, cols);
    vstd::arithmetic::div_mod::lemma_mod_bound(n, cols);
    assert(cols * q == q * cols) by (nonlinear_arith);
    assert(0 <= q) by (nonlinear_arith)
        requires
            n == q * cols + m,
            0 <= m,
            m < cols,
            0 <= n,
            0 < cols,
    ;
    if m + 1 == cols {
        assert((q + 1) * cols == q * cols + cols) by (nonlinear_arith);
        vstd::arithmetic::div_mod::lemma_fundamental_div_mod_converse(n + 1, cols, q + 1, 0);
    } else {
        vstd::arithmetic::div_mod::lemma_fundamental_div_mod_converse(n + 1, cols, q, m + 1);
    }
}

/// The text of the first `n` cells, read back: the scan finds those `n`
/// tokens, a row for every `cols` of them, and stands between two tokens.
proof fn lemma_scan_rendered(tokens: Seq<Seq<char>>, cols: nat, n: nat)
    requires
        0 < cols,
        n <= tokens.len(),
        forall|k: int| 0 <= k < tokens.len() ==> is_token(#[trigger] tokens[k]),
    ensures
        ({
            let text = render_cells(tokens, cols, n);
            let end = scan(text, text.len());
            &&& end.tokens == tokens.take(n as int)
            &&& end.token.len() == 0
            &&& end.counts == Seq::new((n as int / cols as int) as nat, |i: int| cols)
            &&& end.count == n as int % cols as int
            &&& end.in_line == (n as int % cols as int != 0)
        }),
    decreases n,
{
    let text = render_cells(tokens, cols, n);
    if n == 0 {
        assert(text.len() == 0);
        assert(scan(text, 0).tokens =~= tokens.take(0));
        vstd::arithmetic::div_mod::lemma_basic_div(0, cols as int);
        vstd::arithmetic::div_mod::lemma_small_mod(0, cols);
        assert(scan(text, 0).counts =~= Seq::new(0nat, |i: int| cols));
    } else {
        let short = render_cells(tokens, cols, (n - 1) as nat);
        let token = tokens[n - 1];
        let last = if n % cols == 0 {
            '\n'
        } else {
            '\t'
        };
        lemma_scan_rendered(tokens, cols, (n - 1) as nat);
        lemma_next_cell(n - 1, cols as int);
        let m = short.len();
        assert(text == short + token + seq![last]);
        assert(text.len() == m + token.len() + 1);
        lemma_scan_prefix(short, text, m);
        let here = scan(text, m);
        assert(is_token(token));
        assert forall|i: int| 0 <= i < token.len() implies text[m + i] == token[i] by {}
        lemma_scan_token(text, m, token, token.len());
        let read = scan(text, m + token.len());
        assert(token.take(token.len() as int) =~= token);
        assert(read.token == token);
        assert(text[(m + token.len()) as int] == last);
        let end = scan(text, text.len());
        assert(end == scan_step(read, last));
        assert(tokens.take(n - 1).push(token) =~= tokens.take(n as int));
        if n % cols == 0 {
            assert(end.counts =~= Seq::new((n as int / cols as int) as nat, |i: int| cols));
        } else {
            assert(is_space('\t'));
            assert(end.counts =~= Seq::new((n as int / cols as int) as nat, |i: int| cols));
        }
    }
}

/// A matrix of tokens, written as text, reads back as the same tokens in
/// rows of the same length.
pub proof fn lemma_text_round_trip(tokens: Grid<Seq<char>>)
    requires
        tokens.wf(),
        tokens.rows >= 1,
        tokens.cols >= 1,
        forall|k: int| 0 <= k < tokens.cells.len() ==> is_token(#[trigger] tokens.cells[k]),
    ensures
        layout(render_text(tokens)).tokens == tokens.cells,
        layout(render_text(tokens)).counts == Seq::new(tokens.rows, |i: int| tokens.cols),
{
    let n = tokens.cells.len();
    let cols = tokens.cols;
    lemma_scan_rendered(tokens.cells, cols, n);
    assert(tokens.cells.take(n as int) =~= tokens.cells);
    vstd::arithmetic::div_mod::lemma_fundamental_div_mod_converse(
        n as int,
        cols as int,
        tokens.rows as int,
        0,
    );
}

/// Saving a matrix and loading the text again gives the matrix back, where
/// the cells are written as tokens from which `parse` reads nothing but the
/// cell that was written.
pub proof fn lemma_load_after_save<T, F: Fn(&str) -> Option<T>>(
    saved: Grid<T>,
    tokens: Seq<Seq<char>>,
    parse: F,
    res: Result<Array2d<T>, TextError>,
)
    requires
        saved.wf(),
        saved.rows >= 1,
        saved.cols >= 1,
        tokens.len() == saved.cells.len(),
        forall|k: int| 0 <= k < tokens.len() ==> is_token(#[trigger] tokens[k]),
        forall|k: int, cell: Option<T>|
            0 <= k < tokens.len() && #[trigger] parsed_as(parse, tokens[k], cell) ==> cell
                == Some(saved.cells[k]),
        read_as(
            render_text(Grid { rows: saved.rows, cols: saved.cols, cells: tokens }),
            parse,
            res,
        ),
    ensures
        res is Ok,
        res->Ok_0@ == saved,
{
    let written = Grid { rows: saved.rows, cols: saved.cols, cells: tokens };
    lemma_text_round_trip(written);
    let end = layout(render_text(written));
    assert(end.counts.len() == saved.rows);
    assert(end.counts[0] == saved.cols);
    assert(uniform(end.counts));
    match res {
        Ok(arr) => {
            assert forall|k: int| 0 <= k < saved.cells.len() implies arr@.cells[k]
                == saved.cells[k] by {
                assert(parsed_as(parse, end.tokens[k], Some(arr@.cells[k])));
                assert(Some(arr@.cells[k]) == Some(saved.cells[k]));
            }
            assert(arr@.cells =~= saved.cells);
        },
        Err(TextError::Token) => {
            let k = choose|k: int|
                0 <= k < end.tokens.len() && parsed_as(parse, #[trigger] end.tokens[k], None::<T>);
            assert(None::<T> == Some(saved.cells[k]));
        },
        Err(TextError::Empty) => {},
        Err(TextError::Ragged) => {},
    }
}

} // verus!
