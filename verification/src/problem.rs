//! The parsed puzzle input: a rectangular table of tile labels.

use vstd::prelude::*;

use crate::node::{copy_board, flatten_table, lemma_filter_push};

verus! {

/// Why a puzzle text failed to parse.
#[derive(Clone, Copy, Debug, PartialEq, Eq, Structural)]
pub enum ParseError {
    /// A token is not an unsigned byte value.
    InvalidValue,
    /// The values do not hold exactly one blank (a single 0).
    WrongBlankCount,
    /// Two rows hold different numbers of values.
    UnevenRows,
}

/// Whitespace that separates values within a line.
pub open spec fn is_space_spec(c: char) -> bool {
    c == ' ' || c == '\t' || c == '\r'
}

/// The numeric value of a digit character, if it is one.
pub open spec fn spec_digit_of(c: char) -> Option<u8> {
    if c == '0' {
        Some(0u8)
    } else if c == '1' {
        Some(1u8)
    } else if c == '2' {
        Some(2u8)
    } else if c == '3' {
        Some(3u8)
    } else if c == '4' {
        Some(4u8)
    } else if c == '5' {
        Some(5u8)
    } else if c == '6' {
        Some(6u8)
    } else if c == '7' {
        Some(7u8)
    } else if c == '8' {
        Some(8u8)
    } else if c == '9' {
        Some(9u8)
    } else {
        None
    }
}

pub open spec fn digit_int(c: char) -> int {
    match spec_digit_of(c) {
        Some(d) => d as int,
        None => 0,
    }
}

/// The number a run of digits denotes, most significant first.
pub open spec fn digits_val(t: Seq<char>) -> int
    decreases t.len(),
{
    if t.len() == 0 {
        0
    } else {
        digits_val(t.drop_last()) * 10 + digit_int(t.last())
    }
}

pub open spec fn all_digits(t: Seq<char>) -> bool {
    forall|i: int| 0 <= i < t.len() ==> spec_digit_of(#[trigger] t[i]) is Some
}

/// The byte a token denotes: a non-empty run of digits valued at most
/// 255. Anything else denotes no value.
pub open spec fn token_u8(t: Seq<char>) -> Option<u8> {
    if t.len() == 0 || !all_digits(t) || digits_val(t) > 255 {
        None
    } else {
        Some(digits_val(t) as u8)
    }
}

/// The segments of `s` between occurrences of `sep`; always at least
/// one segment, and empty segments are kept.
pub open spec fn split_on(s: Seq<char>, sep: char) -> Seq<Seq<char>>
    decreases s.len(),
{
    if s.len() == 0 {
        seq![Seq::<char>::empty()]
    } else if s.last() == sep {
        split_on(s.drop_last(), sep).push(Seq::empty())
    } else {
        let r = split_on(s.drop_last(), sep);
        r.update(r.len() - 1, r.last().push(s.last()))
    }
}

/// The maximal runs of non-whitespace characters of a line, in order.
pub open spec fn tokenize(s: Seq<char>) -> Seq<Seq<char>>
    decreases s.len(),
{
    if s.len() == 0 {
        Seq::empty()
    } else if is_space_spec(s.last()) {
        tokenize(s.drop_last())
    } else if s.len() >= 2 && !is_space_spec(s[s.len() - 2]) {
        let r = tokenize(s.drop_last());
        r.update(r.len() - 1, r.last().push(s.last()))
    } else {
        tokenize(s.drop_last()).push(seq![s.last()])
    }
}

/// Lifting `tokenize` over lines.
pub open spec fn tok_fn() -> spec_fn(Seq<char>) -> Seq<Seq<char>> {
    |l: Seq<char>| tokenize(l)
}

/// Keeping only lines that hold at least one token.
pub open spec fn nonempty_fn() -> spec_fn(Seq<Seq<char>>) -> bool {
    |t: Seq<Seq<char>>| t.len() > 0
}

/// The token table of a puzzle text: each line's tokens, lines without
/// tokens dropped.
pub open spec fn table_tokens(s: Seq<char>) -> Seq<Seq<Seq<char>>> {
    split_on(s, '\n').map_values(tok_fn()).filter(nonempty_fn())
}

/// Whether every token of the table denotes a byte.
pub open spec fn tokens_valid(rows: Seq<Seq<Seq<char>>>) -> bool {
    forall|r: int, i: int|
        0 <= r < rows.len() && 0 <= i < rows[r].len() ==> token_u8(#[trigger] rows[r][i]) is Some
}

pub open spec fn row_values(toks: Seq<Seq<char>>) -> Seq<u8> {
    toks.map_values(|t: Seq<char>| token_u8(t).unwrap())
}

/// The value table a token table denotes.
pub open spec fn table_values(rows: Seq<Seq<Seq<char>>>) -> Seq<Seq<u8>> {
    rows.map_values(|toks: Seq<Seq<char>>| row_values(toks))
}

pub open spec fn count_zeros_row(r: Seq<u8>) -> int
    decreases r.len(),
{
    if r.len() == 0 {
        0
    } else {
        count_zeros_row(r.drop_last()) + if r.last() == 0 {
            1int
        } else {
            0int
        }
    }
}

/// How many blanks (zeros) the value table holds.
pub open spec fn count_zeros(t: Seq<Seq<u8>>) -> int
    decreases t.len(),
{
    if t.len() == 0 {
        0
    } else {
        count_zeros(t.drop_last()) + count_zeros_row(t.last())
    }
}

/// Whether every row is as long as the first.
pub open spec fn rectangular(t: Seq<Seq<u8>>) -> bool {
    forall|r: int| 0 <= r < t.len() ==> (#[trigger] t[r]).len() == t[0].len()
}

proof fn lemma_digits_val_nonneg(t: Seq<char>)
    ensures
        digits_val(t) >= 0,
    decreases t.len(),
{
    if t.len() > 0 {
        lemma_digits_val_nonneg(t.drop_last());
    }
}

proof fn lemma_count_zeros_row_nonneg(r: Seq<u8>)
    ensures
        count_zeros_row(r) >= 0,
    decreases r.len(),
{
    if r.len() > 0 {
        lemma_count_zeros_row_nonneg(r.drop_last());
    }
}

proof fn lemma_count_zeros_nonneg(t: Seq<Seq<u8>>)
    ensures
        count_zeros(t) >= 0,
    decreases t.len(),
{
    if t.len() > 0 {
        lemma_count_zeros_nonneg(t.drop_last());
        lemma_count_zeros_row_nonneg(t.last());
    }
}

/// A line ending in a non-space character holds a token.
proof fn lemma_tokenize_nonempty(s: Seq<char>)
    requires
        s.len() > 0,
        !is_space_spec(s.last()),
    ensures
        tokenize(s).len() >= 1,
    decreases s.len(),
{
    if s.len() >= 2 && !is_space_spec(s[s.len() - 2]) {
        lemma_tokenize_nonempty(s.drop_last());
    }
}

fn is_space(c: char) -> (r: bool)
    ensures
        r == is_space_spec(c),
{
    c == ' ' || c == '\t' || c == '\r'
}

fn digit_of(c: char) -> (r: Option<u8>)
    ensures
        r == spec_digit_of(c),
{
    match c {
        '0' => Some(0),
        '1' => Some(1),
        '2' => Some(2),
        '3' => Some(3),
        '4' => Some(4),
        '5' => Some(5),
        '6' => Some(6),
        '7' => Some(7),
        '8' => Some(8),
        '9' => Some(9),
        _ => None,
    }
}

fn collect_chars(s: &str) -> (r: Vec<char>)
    ensures
        r@ == s@,
{
    let n = s.unicode_len();
    let mut out: Vec<char> = Vec::new();
    let mut i: usize = 0;
    while i < n
        invariant
            n == s@.len(),
            i <= n,
            out@ == s@.take(i as int),
        decreases n - i,
    {
        out.push(s.get_char(i));
        proof {
            assert(s@.take(i + 1) =~= s@.take(i as int).push(s@[i as int]));
        }
        i = i + 1;
    }
    proof {
        assert(s@.take(n as int) =~= s@);
    }
    out
}

fn split_lines(cs: &Vec<char>) -> (r: Vec<Vec<char>>)
    ensures
        r.deep_view() == split_on(cs@, '\n'),
{
    let mut done: Vec<Vec<char>> = Vec::new();
    let mut cur: Vec<char> = Vec::new();
    let mut i: usize = 0;
    proof {
        assert(done.deep_view().push(cur@) =~~= split_on(cs@.take(0), '\n'));
    }
    while i < cs.len()
        invariant
            i <= cs@.len(),
            done.deep_view().push(cur@) == split_on(cs@.take(i as int), '\n'),
        decreases cs@.len() - i,
    {
        let c = cs[i];
        let ghost pre = cs@.take(i as int);
        let ghost done0 = done.deep_view();
        let ghost cur0 = cur@;
        proof {
            assert(cs@.take(i + 1).drop_last() =~= pre);
            assert(cs@.take(i + 1).last() == cs@[i as int]);
        }
        if c == '\n' {
            done.push(cur);
            cur = Vec::new();
            proof {
                assert(done.deep_view() =~~= done0.push(cur0));
                assert(done.deep_view().push(cur@) =~~= split_on(pre, '\n').push(
                    Seq::<char>::empty(),
                ));
            }
        } else {
            cur.push(c);
            proof {
                let r0 = split_on(pre, '\n');
                assert(r0 == done0.push(cur0));
                assert(r0.len() == done0.len() + 1);
                assert(r0.last() == cur0);
                assert(done.deep_view().push(cur@) =~~= r0.update(r0.len() - 1, r0.last().push(
                    cs@[i as int],
                )));
            }
        }
        i = i + 1;
    }
    proof {
        assert(cs@.take(cs@.len() as int) =~= cs@);
    }
    done.push(cur);
    proof {
        assert(done.deep_view() =~~= split_on(cs@, '\n'));
    }
    done
}

fn tokenize_line(l: &Vec<char>) -> (r: Vec<Vec<char>>)
    ensures
        r.deep_view() == tokenize(l@),
{
    let mut toks: Vec<Vec<char>> = Vec::new();
    let mut i: usize = 0;
    proof {
        assert(toks.deep_view() =~~= tokenize(l@.take(0)));
    }
    while i < l.len()
        invariant
            i <= l@.len(),
            toks.deep_view() == tokenize(l@.take(i as int)),
        decreases l@.len() - i,
    {
        let c = l[i];
        let ghost pre = l@.take(i as int);
        let ghost toks0 = toks.deep_view();
        proof {
            assert(l@.take(i + 1).drop_last() =~= pre);
            assert(l@.take(i + 1).last() == l@[i as int]);
        }
        if is_space(c) {
        } else if i >= 1 && !is_space(l[i - 1]) {
            proof {
                assert(l@.take(i + 1)[i - 1] == l@[i - 1]);
                assert(pre.len() > 0 && pre.last() == l@[i - 1]);
                lemma_tokenize_nonempty(pre);
            }
            let mut t = match toks.pop() {
                Some(t) => t,
                None => unreached(),
            };
            t.push(c);
            toks.push(t);
            proof {
                assert(toks.deep_view() =~~= toks0.update(toks0.len() - 1, toks0.last().push(
                    l@[i as int],
                )));
            }
        } else {
            let mut t: Vec<char> = Vec::new();
            t.push(c);
            toks.push(t);
            proof {
                assert(t@ =~= seq![l@[i as int]]);
                assert(toks.deep_view() =~~= toks0.push(seq![l@[i as int]]));
            }
        }
        i = i + 1;
    }
    proof {
        assert(l@.take(l@.len() as int) =~= l@);
    }
    toks
}

fn token_to_u8(t: &Vec<char>) -> (r: Option<u8>)
    ensures
        r == token_u8(t@),
{
    let n = t.len();
    if n == 0 {
        return None;
    }
    let mut v: usize = 0;
    let mut over = false;
    let mut i: usize = 0;
    while i < n
        invariant
            n == t@.len(),
            i <= n,
            all_digits(t@.take(i as int)),
            !over ==> v == digits_val(t@.take(i as int)) && v <= 255,
            over ==> digits_val(t@.take(i as int)) > 255,
        decreases n - i,
    {
        let c = t[i];
        let ghost pre = t@.take(i as int);
        proof {
            assert(t@.take(i + 1).drop_last() =~= pre);
            assert(t@.take(i + 1).last() == t@[i as int]);
        }
        match digit_of(c) {
            None => {
                proof {
                    assert(spec_digit_of(t@[i as int]) is None);
                    assert(!all_digits(t@));
                }
                return None;
            },
            Some(d) => {
                proof {
                    assert(forall|j: int|
                        0 <= j < i + 1 ==> spec_digit_of(#[trigger] t@.take(i + 1)[j]) is Some);
                    lemma_digits_val_nonneg(pre);
                }
                if !over {
                    if v * 10 + (d as usize) <= 255 {
                        v = v * 10 + (d as usize);
                    } else {
                        over = true;
                    }
                }
            },
        }
        i = i + 1;
    }
    proof {
        assert(t@.take(n as int) =~= t@);
    }
    if over {
        None
    } else {
        Some(v as u8)
    }
}

/// A puzzle instance as handed to a strategy: a table of rows, row-major.
/// The table is only checked to be a valid board when a strategy builds
/// its root node from it.
#[derive(Debug)]
pub struct Problem {
    pub table: Vec<Vec<u8>>,
}

impl Problem {
    /// The flat board this instance denotes.
    pub open spec fn flat(self) -> Seq<u8> {
        flatten_table(self.table.deep_view())
    }

    /// Wraps a table as a puzzle instance.
    pub fn new(table: Vec<Vec<u8>>) -> (r: Problem)
        ensures
            r.table == table,
    {
        Problem { table }
    }

    /// A copy of the table.
    pub fn get(&self) -> (r: Vec<Vec<u8>>)
        ensures
            r.deep_view() == self.table.deep_view(),
    {
        let mut out: Vec<Vec<u8>> = Vec::new();
        let mut i: usize = 0;
        while i < self.table.len()
            invariant
                i <= self.table@.len(),
                out.deep_view() =~~= self.table.deep_view().take(i as int),
            decreases self.table@.len() - i,
        {
            let row = copy_board(&self.table[i]);
            let ghost dv = out.deep_view();
            out.push(row);
            proof {
                assert(out.deep_view() =~~= dv.push(row@));
                assert(self.table.deep_view().take(i + 1) =~~= dv.push(row@));
            }
            i = i + 1;
        }
        proof {
            assert(self.table.deep_view().take(self.table@.len() as int) =~~= self.table.deep_view());
        }
        out
    }
}

impl Problem {
    /// Parses a puzzle text: one row of whitespace-separated byte values
    /// per line, lines without values skipped, requiring exactly one
    /// blank (a single 0) and rows of equal width. Reports the first
    /// failing condition: a bad value, then the blank count, then
    /// ragged rows.
    pub fn from_string(s: &str) -> (r: Result<Problem, ParseError>)
        ensures
            r matches Ok(p) ==> {
                &&& tokens_valid(table_tokens(s@))
                &&& count_zeros(table_values(table_tokens(s@))) == 1
                &&& rectangular(table_values(table_tokens(s@)))
                &&& p.table.deep_view() == table_values(table_tokens(s@))
            },
            r matches Err(e) ==> match e {
                ParseError::InvalidValue => !tokens_valid(table_tokens(s@)),
                ParseError::WrongBlankCount => tokens_valid(table_tokens(s@)) && count_zeros(
                    table_values(table_tokens(s@)),
                ) != 1,
                ParseError::UnevenRows => tokens_valid(table_tokens(s@)) && count_zeros(
                    table_values(table_tokens(s@)),
                ) == 1 && !rectangular(table_values(table_tokens(s@))),
            },
    {
        let cs = collect_chars(s);
        let lines = split_lines(&cs);
        let ghost ldv = lines.deep_view();
        let mut rows: Vec<Vec<u8>> = Vec::new();
        let mut zeros: usize = 0;
        let mut li: usize = 0;
        proof {
            assert(ldv.take(0).map_values(tok_fn()) =~= Seq::<Seq<Seq<char>>>::empty());
            assert(ldv.take(0).map_values(tok_fn()).filter(nonempty_fn())
                =~= Seq::<Seq<Seq<char>>>::empty());
            assert(rows.deep_view() =~~= table_values(
                ldv.take(0).map_values(tok_fn()).filter(nonempty_fn()),
            ));
        }
        while li < lines.len()
            invariant
                ldv == lines.deep_view(),
                ldv == split_on(s@, '\n'),
                li <= ldv.len(),
                ({
                    let kept = ldv.take(li as int).map_values(tok_fn()).filter(nonempty_fn());
                    &&& tokens_valid(kept)
                    &&& rows.deep_view() == table_values(kept)
                    &&& (zeros < 2 && zeros == count_zeros(table_values(kept))) || (zeros == 2
                        && count_zeros(table_values(kept)) >= 2)
                }),
            decreases ldv.len() - li,
        {
            let ghost kept0 = ldv.take(li as int).map_values(tok_fn()).filter(nonempty_fn());
            let line = &lines[li];
            let toks = tokenize_line(line);
            proof {
                assert(line@ == ldv[li as int]);
                assert(ldv.take(li + 1) =~= ldv.take(li as int).push(ldv[li as int]));
                assert(ldv.take(li + 1).map_values(tok_fn()) =~= ldv.take(li as int).map_values(
                    tok_fn(),
                ).push(tokenize(line@)));
                lemma_filter_push(
                    ldv.take(li as int).map_values(tok_fn()),
                    nonempty_fn(),
                    tokenize(line@),
                );
            }
            if toks.len() == 0 {
                li = li + 1;
                continue;
            }
            let ghost tdv = toks.deep_view();
            let ghost kept1 = kept0.push(tdv);
            let ghost z0: int = count_zeros(table_values(kept0));
            proof {
                lemma_count_zeros_nonneg(table_values(kept0));
                assert(count_zeros_row(Seq::<u8>::empty()) == 0);
            }
            let mut row: Vec<u8> = Vec::new();
            proof {
                assert(row@ =~= row_values(tdv.take(0)));
            }
            let mut ti: usize = 0;
            while ti < toks.len()
                invariant
                    ldv == lines.deep_view(),
                    ldv == split_on(s@, '\n'),
                    li < ldv.len(),
                    tdv == toks.deep_view(),
                    tdv == tokenize(ldv[li as int]),
                    tdv.len() > 0,
                    kept0 == ldv.take(li as int).map_values(tok_fn()).filter(nonempty_fn()),
                    tokens_valid(kept0),
                    rows.deep_view() == table_values(kept0),
                    z0 == count_zeros(table_values(kept0)),
                    z0 >= 0,
                    ti <= tdv.len(),
                    forall|j: int| 0 <= j < ti ==> token_u8(#[trigger] tdv[j]) is Some,
                    row@ == row_values(tdv.take(ti as int)),
                    (zeros < 2 && zeros == z0 + count_zeros_row(row@)) || (zeros == 2 && z0
                        + count_zeros_row(row@) >= 2),
                    count_zeros_row(row@) >= 0,
                decreases tdv.len() - ti,
            {
                let ghost row0 = row@;
                proof {
                    assert(tdv[ti as int] == toks@[ti as int]@);
                }
                match token_to_u8(&toks[ti]) {
                    None => {
                        proof {
                            let a = ldv.take(li + 1);
                            let b = ldv.skip(li + 1);
                            assert(ldv =~= a + b);
                            assert(ldv.map_values(tok_fn()) =~= a.map_values(tok_fn())
                                + b.map_values(tok_fn()));
                            Seq::filter_distributes_over_add(
                                a.map_values(tok_fn()),
                                b.map_values(tok_fn()),
                                nonempty_fn(),
                            );
                            assert(a =~= ldv.take(li as int).push(ldv[li as int]));
                            assert(a.map_values(tok_fn()) =~= ldv.take(li as int).map_values(
                                tok_fn(),
                            ).push(tdv));
                            lemma_filter_push(
                                ldv.take(li as int).map_values(tok_fn()),
                                nonempty_fn(),
                                tdv,
                            );
                            assert(table_tokens(s@) == kept0.push(tdv) + b.map_values(
                                tok_fn(),
                            ).filter(nonempty_fn()));
                            assert(table_tokens(s@)[kept0.len() as int] == tdv);
                            assert(token_u8(table_tokens(s@)[kept0.len() as int][ti as int])
                                is None);
                            assert(!tokens_valid(table_tokens(s@)));
                        }
                        return Err(ParseError::InvalidValue);
                    },
                    Some(v) => {
                        row.push(v);
                        proof {
                            assert(row@.drop_last() =~= row0);
                            assert(row_values(tdv.take(ti + 1)) =~= row_values(
                                tdv.take(ti as int),
                            ).push(v));
                            lemma_count_zeros_row_nonneg(row0);
                        }
                        if v == 0 {
                            if zeros < 2 {
                                zeros = zeros + 1;
                            }
                        }
                    },
                }
                ti = ti + 1;
            }
            rows.push(row);
            proof {
                assert(tdv.take(tdv.len() as int) =~= tdv);
                assert(row@ == row_values(tdv));
                assert(table_values(kept1).drop_last() =~= table_values(kept0));
                assert(table_values(kept1).last() == row@);
                assert(table_values(kept1) =~= table_values(kept0).push(row@));
                assert(rows.deep_view() =~~= table_values(kept0).push(row@));
                assert(count_zeros(table_values(kept1)) == z0 + count_zeros_row(row@));
                assert(tokens_valid(kept1)) by {
                    assert(forall|rr: int, i: int|
                        0 <= rr < kept1.len() && 0 <= i < kept1[rr].len() && rr < kept0.len()
                            ==> token_u8(#[trigger] kept1[rr][i]) is Some);
                    assert(forall|i: int|
                        0 <= i < tdv.len() ==> token_u8(#[trigger] kept1[kept1.len() - 1][i])
                            is Some);
                }
            }
            li = li + 1;
        }
        proof {
            assert(ldv.take(ldv.len() as int) =~= ldv);
        }
        if zeros != 1 {
            proof {
                lemma_count_zeros_nonneg(table_values(table_tokens(s@)));
            }
            return Err(ParseError::WrongBlankCount);
        }
        proof {
            if rows.deep_view().len() == 0 {
                assert(table_values(table_tokens(s@)).len() == 0);
                assert(count_zeros(table_values(table_tokens(s@))) == 0);
                assert(false);
            }
        }
        let w = rows[0].len();
        let mut ri: usize = 1;
        while ri < rows.len()
            invariant
                1 <= ri,
                ri <= rows@.len(),
                rows@.len() >= 1,
                w == rows.deep_view()[0].len(),
                rows.deep_view() == table_values(table_tokens(s@)),
                tokens_valid(table_tokens(s@)),
                count_zeros(table_values(table_tokens(s@))) == 1,
                forall|q: int| 0 <= q < ri ==> (#[trigger] rows.deep_view()[q]).len() == w,
            decreases rows@.len() - ri,
        {
            if rows[ri].len() != w {
                proof {
                    assert(rows.deep_view()[ri as int].len() != rows.deep_view()[0].len());
                    assert(!rectangular(rows.deep_view()));
                }
                return Err(ParseError::UnevenRows);
            }
            ri = ri + 1;
        }
        proof {
            assert(rectangular(rows.deep_view()));
        }
        Ok(Problem { table: rows })
    }
}

impl Clone for Problem {
    /// Duplicates the instance, table and all.
    fn clone(&self) -> (r: Self)
        ensures
            r.table.deep_view() == self.table.deep_view(),
            r.flat() == self.flat(),
    {
        Problem { table: self.get() }
    }
}

} // verus!
