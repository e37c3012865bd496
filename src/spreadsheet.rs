use crate::text::chars_of;
use vstd::prelude::*;

verus! {

/// Number of columns, `A` to `Z`.
pub const COLUMNS: usize = 26;

/// Whitespace as `char::is_whitespace` defines it (Unicode `White_Space`).
pub open spec fn is_ws(c: char) -> bool {
    ||| '\t' <= c <= '\r'
    ||| c == ' '
    ||| c == '\u{85}'
    ||| c == '\u{A0}'
    ||| c == '\u{1680}'
    ||| '\u{2000}' <= c <= '\u{200A}'
    ||| c == '\u{2028}'
    ||| c == '\u{2029}'
    ||| c == '\u{202F}'
    ||| c == '\u{205F}'
    ||| c == '\u{3000}'
}

pub open spec fn trim_start(s: Seq<char>) -> Seq<char>
    decreases s.len(),
{
    if s.len() > 0 && is_ws(s[0]) {
        trim_start(s.drop_first())
    } else {
        s
    }
}

pub open spec fn trim_end(s: Seq<char>) -> Seq<char>
    decreases s.len(),
{
    if s.len() > 0 && is_ws(s.last()) {
        trim_end(s.drop_last())
    } else {
        s
    }
}

/// `s` without leading and trailing whitespace.
pub open spec fn trim(s: Seq<char>) -> Seq<char> {
    trim_end(trim_start(s))
}

pub open spec fn is_digit(c: char) -> bool {
    '0' <= c <= '9'
}

pub open spec fn all_digits(s: Seq<char>) -> bool {
    forall|i: int| 0 <= i < s.len() ==> is_digit(#[trigger] s[i])
}

/// Decimal value of a run of digits.
pub open spec fn digits_value(s: Seq<char>) -> int
    decreases s.len(),
{
    if s.len() == 0 {
        0
    } else {
        10 * digits_value(s.drop_last()) + (s.last() as int - '0' as int)
    }
}

/// `s` read as an `i32` the way `str::parse::<i32>` reads it: an optional
/// sign, at least one digit, nothing else, and a value in range.
pub open spec fn parse_i32(s: Seq<char>) -> Option<i32> {
    let neg = s.len() > 0 && s[0] == '-';
    let ds = if s.len() > 0 && (s[0] == '-' || s[0] == '+') {
        s.drop_first()
    } else {
        s
    };
    let v = if neg {
        -digits_value(ds)
    } else {
        digits_value(ds)
    };
    if ds.len() > 0 && all_digits(ds) && i32::MIN <= v <= i32::MAX {
        Some(v as i32)
    } else {
        None
    }
}

/// `s` read as a `usize` the way `str::parse::<usize>` reads it: an
/// optional `+`, at least one digit, nothing else, and a value in range.
pub open spec fn parse_usize(s: Seq<char>) -> Option<usize> {
    let ds = if s.len() > 0 && s[0] == '+' {
        s.drop_first()
    } else {
        s
    };
    if ds.len() > 0 && all_digits(ds) && digits_value(ds) <= usize::MAX {
        Some(digits_value(ds) as usize)
    } else {
        None
    }
}

/// A cell reference that can be read: a first character that is ASCII and
/// not below `A`, followed by a row number that is not zero.
pub open spec fn ref_ok(s: Seq<char>) -> bool {
    &&& s.len() > 0
    &&& (s[0] as u32) < 128
    &&& s[0] as u32 >= 'A' as u32
    &&& parse_usize(s.drop_first()) != Some(0usize)
}

/// (column, row) named by a reference: the column is the offset of the first
/// character from `A`, the row is one less than the number after it, or the
/// first row when no number follows.
pub open spec fn ref_of(s: Seq<char>) -> (int, int) {
    (
        s[0] as u32 - 'A' as u32,
        match parse_usize(s.drop_first()) {
            Some(n) => n - 1,
            None => 0,
        },
    )
}

/// Value of a cell, zero outside the grid.
pub open spec fn cell_at(cells: Seq<Seq<i32>>, col: int, row: int) -> int {
    if 0 <= col < cells.len() && 0 <= row < cells[col].len() {
        cells[col][row] as int
    } else {
        0
    }
}

/// A term, already trimmed, can be evaluated.
pub open spec fn term_ok(t: Seq<char>) -> bool {
    parse_i32(t) is Some || ref_ok(t)
}

/// Value of a trimmed term: a number, or the value of the cell it names.
pub open spec fn term_value(cells: Seq<Seq<i32>>, t: Seq<char>) -> int {
    match parse_i32(t) {
        Some(n) => n as int,
        None => cell_at(cells, ref_of(t).0, ref_of(t).1),
    }
}

/// The pieces of `s` between `+` signs (one piece when there is none).
pub open spec fn split_plus(s: Seq<char>) -> Seq<Seq<char>>
    decreases s.len(),
{
    if s.len() == 0 {
        seq![Seq::empty()]
    } else {
        let prev = split_plus(s.drop_last());
        if s.last() == '+' {
            prev.push(Seq::empty())
        } else {
            prev.update(prev.len() - 1, prev.last().push(s.last()))
        }
    }
}

/// `s` without its leading `=` signs.
pub open spec fn strip_eq(s: Seq<char>) -> Seq<char>
    decreases s.len(),
{
    if s.len() > 0 && s[0] == '=' {
        strip_eq(s.drop_first())
    } else {
        s
    }
}

/// Sum of the values of the trimmed terms `ts`.
pub open spec fn sum_terms(cells: Seq<Seq<i32>>, ts: Seq<Seq<char>>) -> int
    decreases ts.len(),
{
    if ts.len() == 0 {
        0
    } else {
        sum_terms(cells, ts.drop_last()) + term_value(cells, trim(ts.last()))
    }
}

/// The terms of a formula.
pub open spec fn formula_terms(f: Seq<char>) -> Seq<Seq<char>> {
    split_plus(strip_eq(f))
}

pub open spec fn is_formula(f: Seq<char>) -> bool {
    f.len() > 0 && f[0] == '='
}

/// Value of `f`: zero unless it starts with `=`, else the sum of its terms.
pub open spec fn formula_value(cells: Seq<Seq<i32>>, f: Seq<char>) -> int {
    if is_formula(f) {
        sum_terms(cells, formula_terms(f))
    } else {
        0
    }
}

/// A formula that can be evaluated: every term is a number or a readable
/// reference, and each running total fits in an `i32`.
pub open spec fn formula_ok(cells: Seq<Seq<i32>>, f: Seq<char>) -> bool {
    is_formula(f) ==> {
        let ts = formula_terms(f);
        &&& forall|i: int| 0 <= i < ts.len() ==> term_ok(trim(#[trigger] ts[i]))
        &&& forall|k: int|
            0 <= k <= ts.len() ==> i32::MIN <= #[trigger] sum_terms(cells, ts.take(k)) <= i32::MAX
    }
}


proof fn lemma_digits_monotone(s: Seq<char>, k: int)
    requires
        all_digits(s),
        0 <= k <= s.len(),
    ensures
        0 <= digits_value(s.take(k)) <= digits_value(s),
    decreases s.len(),
{
    if k < s.len() {
        let p = s.drop_last();
        assert(p.take(k) =~= s.take(k));
        lemma_digits_monotone(p, k);
        lemma_digits_monotone(p, p.len() as int);
        assert(p.take(p.len() as int) =~= p);
    } else {
        assert(s.take(k) =~= s);
        if s.len() > 0 {
            lemma_digits_monotone(s.drop_last(), s.len() - 1);
            assert(s.drop_last().take(s.len() - 1) =~= s.drop_last());
        }
    }
}

proof fn lemma_trim_start(s: Seq<char>, lo: int)
    requires
        0 <= lo <= s.len(),
        forall|i: int| 0 <= i < lo ==> is_ws(#[trigger] s[i]),
        lo == s.len() || !is_ws(s[lo]),
    ensures
        trim_start(s) == s.skip(lo),
    decreases lo,
{
    if lo == 0 {
        assert(s.skip(0) =~= s);
    } else {
        lemma_trim_start(s.drop_first(), lo - 1);
        assert(s.drop_first().skip(lo - 1) =~= s.skip(lo));
    }
}

proof fn lemma_trim_end(s: Seq<char>, hi: int)
    requires
        0 <= hi <= s.len(),
        forall|i: int| hi <= i < s.len() ==> is_ws(#[trigger] s[i]),
        hi == 0 || !is_ws(s[hi - 1]),
    ensures
        trim_end(s) == s.take(hi),
    decreases s.len() - hi,
{
    if hi == s.len() {
        assert(s.take(hi) =~= s);
    } else {
        lemma_trim_end(s.drop_last(), hi);
        assert(s.drop_last().take(hi) =~= s.take(hi));
    }
}

proof fn lemma_strip_eq(s: Seq<char>, lo: int)
    requires
        0 <= lo <= s.len(),
        forall|i: int| 0 <= i < lo ==> #[trigger] s[i] == '=',
        lo == s.len() || s[lo] != '=',
    ensures
        strip_eq(s) == s.skip(lo),
    decreases lo,
{
    if lo == 0 {
        assert(s.skip(0) =~= s);
    } else {
        lemma_strip_eq(s.drop_first(), lo - 1);
        assert(s.drop_first().skip(lo - 1) =~= s.skip(lo));
    }
}

/// Splitting a prefix of `s` gives the same pieces as splitting `s`, but
/// for the last piece of the prefix, which may be cut short.
proof fn lemma_split_prefix(s: Seq<char>, k: int)
    requires
        0 <= k <= s.len(),
    ensures
        split_plus(s.take(k)).len() <= split_plus(s).len(),
        forall|i: int|
            0 <= i < split_plus(s.take(k)).len() - 1 ==> #[trigger] split_plus(s.take(k))[i]
                == split_plus(s)[i],
    decreases s.len(),
{
    if k == s.len() {
        assert(s.take(k) =~= s);
    } else {
        let p = s.drop_last();
        assert(p.take(k) =~= s.take(k));
        lemma_split_prefix(p, k);
        lemma_split_len(p);
    }
}

proof fn lemma_split_len(s: Seq<char>)
    ensures
        split_plus(s).len() >= 1,
    decreases s.len(),
{
    if s.len() > 0 {
        lemma_split_len(s.drop_last());
    }
}

fn is_ws_char(c: char) -> (r: bool)
    ensures
        r == is_ws(c),
{
    ('\t' <= c && c <= '\r') || c == ' ' || c == '\u{85}' || c == '\u{A0}' || c == '\u{1680}'
        || ('\u{2000}' <= c && c <= '\u{200A}') || c == '\u{2028}' || c == '\u{2029}' || c
        == '\u{202F}' || c == '\u{205F}' || c == '\u{3000}'
}

fn trimmed(s: &Vec<char>) -> (r: Vec<char>)
    ensures
        r@ == trim(s@),
{
    let mut lo: usize = 0;
    while lo < s.len() && is_ws_char(s[lo])
        invariant
            lo <= s@.len(),
            forall|i: int| 0 <= i < lo ==> is_ws(#[trigger] s@[i]),
        decreases s@.len() - lo,
    {
        lo += 1;
    }
    proof {
        lemma_trim_start(s@, lo as int);
    }
    let ghost t = s@.skip(lo as int);
    let mut hi: usize = s.len();
    while hi > lo && is_ws_char(s[hi - 1])
        invariant
            lo <= hi <= s@.len(),
            t == s@.skip(lo as int),
            forall|i: int| hi - lo <= i < t.len() ==> is_ws(#[trigger] t[i]),
        decreases hi,
    {
        hi -= 1;
    }
    proof {
        if hi > lo {
            assert(t[hi - lo - 1] == s@[hi - 1]);
        }
        lemma_trim_end(t, hi - lo);
    }
    let mut r: Vec<char> = Vec::new();
    let mut i: usize = lo;
    while i < hi
        invariant
            lo <= i <= hi <= s@.len(),
            t == s@.skip(lo as int),
            r@ == t.take(i - lo),
        decreases hi - i,
    {
        r.push(s[i]);
        i += 1;
        assert(r@ =~= t.take(i - lo));
    }
    r
}

/// Reads the digits of `s` from `start` on, giving up as soon as the value
/// passes `limit`.
fn read_digits(s: &Vec<char>, start: usize, limit: u128) -> (r: Option<u128>)
    requires
        start <= s@.len(),
        limit < 0x1_0000_0000_0000_0000_0000,
    ensures
        ({
            let ds = s@.skip(start as int);
            &&& r is Some <==> ds.len() > 0 && all_digits(ds) && digits_value(ds) <= limit
            &&& r is Some ==> r->0 == digits_value(ds)
        }),
{
    let ghost ds = s@.skip(start as int);
    if start == s.len() {
        return None;
    }
    let mut v: u128 = 0;
    let mut i: usize = start;
    while i < s.len()
        invariant
            start <= i <= s@.len(),
            ds == s@.skip(start as int),
            limit < 0x1_0000_0000_0000_0000_0000,
            all_digits(ds.take(i - start)),
            v == digits_value(ds.take(i - start)),
            v <= limit,
        decreases s@.len() - i,
    {
        let c = s[i];
        if !('0' <= c && c <= '9') {
            proof {
                assert(ds[i - start] == c);
            }
            return None;
        }
        proof {
            assert(ds.take(i - start + 1).drop_last() =~= ds.take(i - start));
            assert(ds.take(i - start + 1).last() == c);
        }
        v = v * 10 + (c as u32 - '0' as u32) as u128;
        i += 1;
        proof {
            assert forall|j: int| 0 <= j < i - start implies is_digit(
                #[trigger] ds.take(i - start)[j],
            ) by {
                if j < i - start - 1 {
                    assert(ds.take(i - start)[j] == ds.take(i - start - 1)[j]);
                }
            }
        }
        if v > limit {
            proof {
                if all_digits(ds) {
                    lemma_digits_monotone(ds, i - start);
                }
            }
            return None;
        }
    }
    proof {
        assert(ds.take(i - start) =~= ds);
    }
    Some(v)
}

fn parse_i32_chars(s: &Vec<char>) -> (r: Option<i32>)
    ensures
        r == parse_i32(s@),
{
    let signed = s.len() > 0 && (s[0] == '-' || s[0] == '+');
    let neg = s.len() > 0 && s[0] == '-';
    let start: usize = if signed {
        1
    } else {
        0
    };
    proof {
        if signed {
            assert(s@.skip(1) =~= s@.drop_first());
        } else {
            assert(s@.skip(0) =~= s@);
        }
    }
    let limit: u128 = if neg {
        0x8000_0000
    } else {
        0x7fff_ffff
    };
    match read_digits(s, start, limit) {
        Some(v) => if neg {
            Some((0 - v as i64) as i32)
        } else {
            Some(v as i32)
        },
        None => None,
    }
}

fn parse_usize_from(s: &Vec<char>, from: usize) -> (r: Option<usize>)
    requires
        from <= s@.len(),
    ensures
        r == parse_usize(s@.skip(from as int)),
{
    let ghost t = s@.skip(from as int);
    let start: usize = if from < s.len() && s[from] == '+' {
        from + 1
    } else {
        from
    };
    proof {
        if start > from {
            assert(s@.skip(start as int) =~= t.drop_first());
        }
    }
    match read_digits(s, start, usize::MAX as u128) {
        Some(v) => Some(v as usize),
        None => None,
    }
}


/// A grid of 26 columns (`A` to `Z`) by a fixed number of rows, holding
/// integers, with formulas of the form `=A1+B2+5` evaluated against it.
#[derive(Debug)]
pub struct Spreadsheet {
    data: Vec<Vec<i32>>,
    rows: i32,
}

impl View for Spreadsheet {
    type V = Seq<Seq<i32>>;

    /// The columns, each a sequence of cell values.
    closed spec fn view(&self) -> Seq<Seq<i32>> {
        Seq::new(self.data@.len(), |c: int| self.data@[c]@)
    }
}

impl Spreadsheet {
    /// Number of rows.
    pub closed spec fn row_count(&self) -> int {
        self.rows as int
    }

    /// There are 26 columns, each `rows` long.
    pub closed spec fn wf(&self) -> bool {
        &&& self.rows >= 0
        &&& self.data@.len() == COLUMNS
        &&& forall|c: int| 0 <= c < COLUMNS ==> #[trigger] self.data@[c]@.len() == self.rows
    }

    /// A sheet of `rows` rows with every cell zero.
    pub fn new(rows: i32) -> (r: Spreadsheet)
        requires
            rows >= 0,
        ensures
            r.wf(),
            r.row_count() == rows,
            r@ == Seq::new(COLUMNS as nat, |c: int| Seq::new(rows as nat, |i: int| 0i32)),
    {
        let mut data: Vec<Vec<i32>> = Vec::new();
        let mut c: usize = 0;
        while c < COLUMNS
            invariant
                c <= COLUMNS,
                rows >= 0,
                data@.len() == c,
                forall|k: int| 0 <= k < c ==> #[trigger] data@[k]@ == Seq::new(rows as nat, |i: int| 0i32),
            decreases COLUMNS - c,
        {
            let mut column: Vec<i32> = Vec::new();
            let mut i: usize = 0;
            while i < rows as usize
                invariant
                    rows >= 0,
                    i <= rows,
                    column@ == Seq::new(i as nat, |j: int| 0i32),
                decreases rows - i,
            {
                column.push(0);
                i += 1;
                assert(column@ =~= Seq::new(i as nat, |j: int| 0i32));
            }
            data.push(column);
            c += 1;
        }
        let r = Spreadsheet { data, rows };
        assert(r@ =~= Seq::new(COLUMNS as nat, |c: int| Seq::new(rows as nat, |i: int| 0i32)));
        r
    }

    /// Stores `value` in the cell that `cell` names; a reference outside the
    /// grid changes nothing.
    pub fn set_cell(&mut self, cell: String, value: i32)
        requires
            old(self).wf(),
            ref_ok(cell@),
        ensures
            final(self).wf(),
            final(self).row_count() == old(self).row_count(),
            ({
                let (c, r) = ref_of(cell@);
                final(self)@ == if 0 <= c < COLUMNS && 0 <= r < old(self).row_count() {
                    old(self)@.update(c, old(self)@[c].update(r, value))
                } else {
                    old(self)@
                }
            }),
    {
        let chars = chars_of(cell.as_str());
        let (col, row) = Self::parse_cell_ref(&chars);
        if col < self.data.len() && row < self.rows as usize {
            let mut column: Vec<i32> = Vec::new();
            std::mem::swap(&mut column, &mut self.data[col]);
            column.set(row, value);
            self.data.set(col, column);
            proof {
                assert forall|c: int| 0 <= c < COLUMNS implies #[trigger] self.data@[c]@.len()
                    == self.rows by {
                    if c != col {
                        assert(self.data@[c] == old(self).data@[c]);
                    }
                }
                assert(self@ =~= old(self)@.update(col as int, old(self)@[col as int].update(row as int, value)));
            }
        }
    }

    /// Sets the cell that `cell` names back to zero.
    pub fn reset_cell(&mut self, cell: String)
        requires
            old(self).wf(),
            ref_ok(cell@),
        ensures
            final(self).wf(),
            final(self).row_count() == old(self).row_count(),
            ({
                let (c, r) = ref_of(cell@);
                final(self)@ == if 0 <= c < COLUMNS && 0 <= r < old(self).row_count() {
                    old(self)@.update(c, old(self)@[c].update(r, 0))
                } else {
                    old(self)@
                }
            }),
    {
        self.set_cell(cell, 0);
    }

    /// Evaluates a formula: `=` followed by terms joined by `+`, each a
    /// number or a cell reference, with whitespace around terms ignored.
    /// Text that does not start with `=` is worth zero.
    pub fn get_value(&self, formula: String) -> (r: i32)
        requires
            self.wf(),
            formula_ok(self@, formula@),
        ensures
            r == formula_value(self@, formula@),
    {
        let f = chars_of(formula.as_str());
        if f.len() == 0 || f[0] != '=' {
            return 0;
        }
        let mut lo: usize = 0;
        while lo < f.len() && f[lo] == '='
            invariant
                lo <= f@.len(),
                forall|i: int| 0 <= i < lo ==> #[trigger] f@[i] == '=',
            decreases f@.len() - lo,
        {
            lo += 1;
        }
        proof {
            lemma_strip_eq(f@, lo as int);
        }
        let ghost body = f@.skip(lo as int);
        let ghost ts = formula_terms(f@);
        let ghost mut done: Seq<Seq<char>> = Seq::empty();
        let mut total: i32 = 0;
        let mut term: Vec<char> = Vec::new();
        let mut j: usize = lo;
        proof {
            assert(body.take(0) =~= Seq::<char>::empty());
            assert(split_plus(body.take(0)) =~= done.push(term@));
            assert(ts.take(0) =~= done);
        }
        while j < f.len()
            invariant
                lo <= j <= f@.len(),
                body == f@.skip(lo as int),
                ts == split_plus(body),
                formula_ok(self@, f@),
                is_formula(f@),
                ts == formula_terms(f@),
                self.wf(),
                split_plus(body.take(j - lo)) == done.push(term@),
                ts.take(done.len() as int) == done,
                total == sum_terms(self@, done),
            decreases f@.len() - j,
        {
            let c = f[j];
            proof {
                assert(body.take(j - lo + 1).drop_last() =~= body.take(j - lo));
                assert(body.take(j - lo + 1).last() == c);
                lemma_split_prefix(body, j - lo + 1);
            }
            if c == '+' {
                let ghost k = done.len() as int;
                proof {
                    assert(split_plus(body.take(j - lo + 1)) == done.push(term@).push(Seq::empty()));
                    assert(split_plus(body.take(j - lo + 1))[k] == term@);
                    assert(ts[k] == term@);
                    assert(ts.take(k + 1) =~= done.push(term@));
                    assert(done.push(term@).drop_last() =~= done);
                    assert(sum_terms(self@, ts.take(k + 1)) == total + term_value(self@, trim(term@)));
                }
                let t = trimmed(&term);
                let v = self.eval_term(&t);
                total = total + v;
                proof {
                    done = done.push(term@);
                }
                term = Vec::new();
            } else {
                proof {
                    let prev = done.push(term@);
                    assert(prev.update(prev.len() - 1, prev.last().push(c)) =~= done.push(term@.push(c)));
                }
                term.push(c);
            }
            j += 1;
        }
        proof {
            assert(body.take(j - lo) =~= body);
            let k = done.len() as int;
            assert(ts =~= done.push(term@));
            assert(ts.take(k + 1) =~= ts);
            assert(ts[k] == term@);
            assert(done.push(term@).drop_last() =~= done);
            assert(sum_terms(self@, ts.take(k + 1)) == total + term_value(self@, trim(term@)));
            assert(i32::MIN <= sum_terms(self@, ts.take(k + 1)) <= i32::MAX);
        }
        let t = trimmed(&term);
        let v = self.eval_term(&t);
        total + v
    }

    /// Value of a trimmed term: the number it spells, or else the value of
    /// the cell it names.
    fn eval_term(&self, term: &Vec<char>) -> (r: i32)
        requires
            self.wf(),
            term_ok(term@),
        ensures
            r == term_value(self@, term@),
    {
        match parse_i32_chars(term) {
            Some(n) => n,
            None => {
                let (col, row) = Self::parse_cell_ref(term);
                self.get_cell_value(col, row)
            },
        }
    }

    /// Column and row that a reference names: `B3` names column 1, row 2.
    fn parse_cell_ref(cell_ref: &Vec<char>) -> (r: (usize, usize))
        requires
            ref_ok(cell_ref@),
        ensures
            (r.0 as int, r.1 as int) == ref_of(cell_ref@),
    {
        let col = (cell_ref[0] as u32 - 'A' as u32) as usize;
        proof {
            assert(cell_ref@.skip(1) =~= cell_ref@.drop_first());
        }
        let row = match parse_usize_from(cell_ref, 1) {
            Some(n) => n - 1,
            None => 0,
        };
        (col, row)
    }

    /// Value of the cell at (`col`, `row`), zero outside the grid.
    fn get_cell_value(&self, col: usize, row: usize) -> (r: i32)
        requires
            self.wf(),
        ensures
            r == cell_at(self@, col as int, row as int),
    {
        if col < self.data.len() && row < self.data[col].len() {
            self.data[col][row]
        } else {
            0
        }
    }
}

} // verus!
