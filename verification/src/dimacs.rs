//! The MBOR `*-road-d.txt` map format: the first non-blank line is
//! `<num_nodes> <num_edges>`, then one edge per non-blank line as
//! `<from> <to> <c1> <c2>` with 1-indexed node ids. Lines are split at `\n`,
//! fields at white space; fields beyond those read are ignored.

use vstd::prelude::*;

use crate::cost::Cost;
use crate::graph::{outs_of, Graph};
use crate::walks::{targets_in_range, CostGraph};
use vstd::string::StringExecFns;

verus! {

// ---------------------------------------------------------------------------
// Tokens
// ---------------------------------------------------------------------------

/// Unicode `White_Space`, the characters that separate fields.
pub open spec fn is_ws(c: char) -> bool {
    ||| c == '\t'
    ||| c == '\n'
    ||| c == '\u{0B}'
    ||| c == '\u{0C}'
    ||| c == '\r'
    ||| c == ' '
    ||| c == '\u{85}'
    ||| c == '\u{A0}'
    ||| c == '\u{1680}'
    ||| ('\u{2000}' <= c && c <= '\u{200A}')
    ||| c == '\u{2028}'
    ||| c == '\u{2029}'
    ||| c == '\u{202F}'
    ||| c == '\u{205F}'
    ||| c == '\u{3000}'
}

/// Scanner state after a prefix of the input: the finished non-blank lines
/// (each a sequence of fields), the fields of the current line, and the
/// current partial field.
pub open spec fn scan(s: Seq<char>) -> (Seq<Seq<Seq<char>>>, Seq<Seq<char>>, Seq<char>)
    decreases s.len(),
{
    if s.len() == 0 {
        (Seq::empty(), Seq::empty(), Seq::empty())
    } else {
        let (lines, cur, tok) = scan(s.drop_last());
        let c = s.last();
        let cur2 = if tok.len() > 0 {
            cur.push(tok)
        } else {
            cur
        };
        if c == '\n' {
            (if cur2.len() > 0 {
                lines.push(cur2)
            } else {
                lines
            }, Seq::empty(), Seq::empty())
        } else if is_ws(c) {
            (lines, cur2, Seq::empty())
        } else {
            (lines, cur, tok.push(c))
        }
    }
}

/// The non-blank lines of the input, each as its sequence of fields.
pub open spec fn token_lines(s: Seq<char>) -> Seq<Seq<Seq<char>>> {
    let (lines, cur, tok) = scan(s);
    let cur2 = if tok.len() > 0 {
        cur.push(tok)
    } else {
        cur
    };
    if cur2.len() > 0 {
        lines.push(cur2)
    } else {
        lines
    }
}

fn is_ws_char(c: char) -> (r: bool)
    ensures
        r == is_ws(c),
{
    c == '\t' || c == '\n' || c == '\u{0B}' || c == '\u{0C}' || c == '\r' || c == ' ' || c == '\u{85}'
        || c == '\u{A0}' || c == '\u{1680}' || ('\u{2000}' <= c && c <= '\u{200A}') || c == '\u{2028}'
        || c == '\u{2029}' || c == '\u{202F}' || c == '\u{205F}' || c == '\u{3000}'
}

pub open spec fn views(v: Seq<Vec<char>>) -> Seq<Seq<char>> {
    v.map_values(|t: Vec<char>| t@)
}

pub open spec fn line_views(v: Seq<Vec<Vec<char>>>) -> Seq<Seq<Seq<char>>> {
    v.map_values(|l: Vec<Vec<char>>| views(l@))
}

fn tokenize(cs: &Vec<char>) -> (r: Vec<Vec<Vec<char>>>)
    ensures
        line_views(r@) == token_lines(cs@),
{
    let mut lines: Vec<Vec<Vec<char>>> = Vec::new();
    let mut cur: Vec<Vec<char>> = Vec::new();
    let mut tok: Vec<char> = Vec::new();
    let mut i: usize = 0;
    while i < cs.len()
        invariant
            i <= cs@.len(),
            (line_views(lines@), views(cur@), tok@) == scan(cs@.take(i as int)),
        decreases cs@.len() - i,
    {
        let c = cs[i];
        proof {
            assert(cs@.take(i + 1).drop_last() =~= cs@.take(i as int));
            assert(cs@.take(i + 1).last() == c);
        }
        if c == '\n' || is_ws_char(c) {
            if tok.len() > 0 {
                let ghost cur0 = cur@;
                let t = tok;
                cur.push(t);
                tok = Vec::new();
                proof {
                    assert(views(cur@) =~= views(cur0).push(t@));
                }
            }
            if c == '\n' {
                if cur.len() > 0 {
                    let ghost lines0 = lines@;
                    let l = cur;
                    lines.push(l);
                    cur = Vec::new();
                    proof {
                        assert(line_views(lines@) =~= line_views(lines0).push(views(l@)));
                    }
                }
                proof {
                    assert(views(cur@) =~= Seq::<Seq<char>>::empty());
                }
            }
            proof {
                assert(tok@ =~= Seq::<char>::empty());
            }
        } else {
            tok.push(c);
        }
        i = i + 1;
    }
    proof {
        assert(cs@.take(cs@.len() as int) =~= cs@);
    }
    if tok.len() > 0 {
        let ghost cur0 = cur@;
        let t = tok;
        cur.push(t);
        proof {
            assert(views(cur@) =~= views(cur0).push(t@));
        }
    }
    if cur.len() > 0 {
        let ghost lines0 = lines@;
        let l = cur;
        lines.push(l);
        proof {
            assert(line_views(lines@) =~= line_views(lines0).push(views(l@)));
        }
    }
    lines
}

// ---------------------------------------------------------------------------
// Decimal integers
// ---------------------------------------------------------------------------

/// Why a field is not a valid integer of the expected type.
#[derive(Clone, Copy, Debug, PartialEq, Eq, Structural)]
pub enum IntError {
    Empty,
    InvalidDigit,
    PosOverflow,
    NegOverflow,
}

pub open spec fn is_digit(c: char) -> bool {
    '0' <= c && c <= '9'
}

pub open spec fn digit_val(c: char) -> int {
    c as int - '0' as int
}

/// Reads the digits of `ds` left to right into a value in `[lo, hi]`
/// (subtracting each digit when `neg`), stopping at the first character that
/// is not a digit or the first step that leaves the range.
pub open spec fn acc_digits(ds: Seq<char>, neg: bool, lo: int, hi: int) -> Result<int, IntError>
    decreases ds.len(),
{
    if ds.len() == 0 {
        Ok(0)
    } else {
        match acc_digits(ds.drop_last(), neg, lo, hi) {
            Err(e) => Err(e),
            Ok(v) => {
                let c = ds.last();
                if !is_digit(c) {
                    Err(IntError::InvalidDigit)
                } else {
                    let nv = if neg {
                        v * 10 - digit_val(c)
                    } else {
                        v * 10 + digit_val(c)
                    };
                    if nv > hi {
                        Err(IntError::PosOverflow)
                    } else if nv < lo {
                        Err(IntError::NegOverflow)
                    } else {
                        Ok(nv)
                    }
                }
            },
        }
    }
}

/// A decimal integer in `[lo, hi]`: an optional `+` (or, when `signed`, `-`)
/// followed by at least one digit.
pub open spec fn parse_int(tok: Seq<char>, signed: bool, lo: int, hi: int) -> Result<int, IntError> {
    if tok.len() == 0 {
        Err(IntError::Empty)
    } else if tok[0] == '+' || (signed && tok[0] == '-') {
        if tok.len() == 1 {
            Err(IntError::InvalidDigit)
        } else {
            acc_digits(tok.drop_first(), tok[0] == '-', lo, hi)
        }
    } else {
        acc_digits(tok, false, lo, hi)
    }
}

pub open spec fn parse_i64(tok: Seq<char>) -> Result<int, IntError> {
    parse_int(tok, true, i64::MIN as int, i64::MAX as int)
}

pub open spec fn parse_usize(tok: Seq<char>) -> Result<int, IntError> {
    parse_int(tok, false, 0, usize::MAX as int)
}

/// Reads `tok` as a decimal integer in `[lo, hi]`, where `[lo, hi]` lies
/// within the `i64` or `u64` range.
fn read_int(tok: &Vec<char>, signed: bool, lo: i128, hi: i128) -> (r: Result<i128, IntError>)
    requires
        i64::MIN <= lo <= 0 < hi <= u64::MAX,
    ensures
        match r {
            Ok(v) => parse_int(tok@, signed, lo as int, hi as int) == Ok::<int, IntError>(v as int),
            Err(e) => parse_int(tok@, signed, lo as int, hi as int) == Err::<int, IntError>(e),
        },
{
    let len = tok.len();
    if len == 0 {
        return Err(IntError::Empty);
    }
    let mut start: usize = 0;
    let mut neg = false;
    if tok[0] == '+' || (signed && tok[0] == '-') {
        if len == 1 {
            return Err(IntError::InvalidDigit);
        }
        neg = tok[0] == '-';
        start = 1;
    }
    let ghost ds = if start == 1 {
        tok@.drop_first()
    } else {
        tok@
    };
    proof {
        assert(ds =~= tok@.subrange(start as int, len as int));
        assert(parse_int(tok@, signed, lo as int, hi as int) == acc_digits(ds, neg, lo as int, hi as int));
        assert(tok@.subrange(start as int, start as int) =~= Seq::<char>::empty());
    }
    let mut v: i128 = 0;
    let mut j: usize = start;
    while j < len
        invariant
            len == tok@.len(),
            start <= j <= len,
            ds == tok@.subrange(start as int, len as int),
            parse_int(tok@, signed, lo as int, hi as int) == acc_digits(ds, neg, lo as int, hi as int),
            i64::MIN <= lo <= 0 < hi <= u64::MAX,
            lo <= v <= hi,
            acc_digits(tok@.subrange(start as int, j as int), neg, lo as int, hi as int) == Ok::<int, IntError>(v as int),
        decreases len - j,
    {
        let c = tok[j];
        proof {
            assert(tok@.subrange(start as int, j + 1).drop_last() =~= tok@.subrange(start as int, j as int));
            assert(tok@.subrange(start as int, j + 1).last() == c);
        }
        if !('0' <= c && c <= '9') {
            proof {
                assert(acc_digits(tok@.subrange(start as int, j + 1), neg, lo as int, hi as int) == Err::<int, IntError>(IntError::InvalidDigit));
                lemma_acc_err_sticks(tok@, start as int, j + 1, len as int, neg, lo as int, hi as int);
            }
            return Err(IntError::InvalidDigit);
        }
        let d = (c as u32 - '0' as u32) as i128;
        let nv = if neg {
            v * 10 - d
        } else {
            v * 10 + d
        };
        if nv > hi {
            proof {
                assert(acc_digits(tok@.subrange(start as int, j + 1), neg, lo as int, hi as int) == Err::<int, IntError>(IntError::PosOverflow));
                lemma_acc_err_sticks(tok@, start as int, j + 1, len as int, neg, lo as int, hi as int);
            }
            return Err(IntError::PosOverflow);
        }
        if nv < lo {
            proof {
                assert(acc_digits(tok@.subrange(start as int, j + 1), neg, lo as int, hi as int) == Err::<int, IntError>(IntError::NegOverflow));
                lemma_acc_err_sticks(tok@, start as int, j + 1, len as int, neg, lo as int, hi as int);
            }
            return Err(IntError::NegOverflow);
        }
        v = nv;
        j = j + 1;
    }
    proof {
        assert(tok@.subrange(start as int, len as int) =~= ds);
    }
    Ok(v)
}

/// Once reading fails, reading more characters keeps the same failure.
proof fn lemma_acc_err_sticks(tok: Seq<char>, start: int, j: int, len: int, neg: bool, lo: int, hi: int)
    requires
        0 <= start <= j <= len == tok.len(),
        acc_digits(tok.subrange(start, j), neg, lo, hi) is Err,
    ensures
        acc_digits(tok.subrange(start, len), neg, lo, hi) == acc_digits(tok.subrange(start, j), neg, lo, hi),
    decreases len - j,
{
    if j < len {
        assert(tok.subrange(start, j + 1).drop_last() =~= tok.subrange(start, j));
        lemma_acc_err_sticks(tok, start, j + 1, len, neg, lo, hi);
    }
}

// ---------------------------------------------------------------------------
// The map format
// ---------------------------------------------------------------------------

/// The four fields of an edge line.
#[derive(Clone, Copy, Debug, PartialEq, Eq, Structural)]
pub enum Field {
    From,
    To,
    C1,
    C2,
}

/// Why a map text is rejected; `line` counts the non-blank lines after the
/// header from 0.
#[derive(Clone, Copy, Debug, PartialEq, Eq, Structural)]
pub enum DimacsError {
    EmptyInput,
    MissingNodeCount,
    BadNodeCount(IntError),
    MissingEdgeCount,
    BadEdgeCount(IntError),
    MissingField { line: usize, field: Field },
    BadField { line: usize, field: Field, err: IntError },
    NotOneIndexed { line: usize },
    NodeIdTooLarge { line: usize, n: usize },
    NegativeCost { line: usize },
}

/// Field `k` of an edge line as an `i64`.
pub open spec fn field_value(f: Seq<Seq<char>>, k: int, ln: int, field: Field) -> Result<int, DimacsError> {
    if f.len() <= k {
        Err(DimacsError::MissingField { line: ln as usize, field })
    } else {
        match parse_i64(f[k]) {
            Ok(v) => Ok(v),
            Err(e) => Err(DimacsError::BadField { line: ln as usize, field, err: e }),
        }
    }
}

/// Edge line `ln`, in a graph of `n` nodes, as a 0-indexed edge.
pub open spec fn parse_edge_line(f: Seq<Seq<char>>, ln: int, n: int) -> Result<(u32, u32, Cost), DimacsError> {
    match field_value(f, 0, ln, Field::From) {
        Err(e) => Err(e),
        Ok(u) => match field_value(f, 1, ln, Field::To) {
            Err(e) => Err(e),
            Ok(v) => match field_value(f, 2, ln, Field::C1) {
                Err(e) => Err(e),
                Ok(c1) => match field_value(f, 3, ln, Field::C2) {
                    Err(e) => Err(e),
                    Ok(c2) => if u < 1 || v < 1 {
                        Err(DimacsError::NotOneIndexed { line: ln as usize })
                    } else if u > n || v > n {
                        Err(DimacsError::NodeIdTooLarge { line: ln as usize, n: n as usize })
                    } else if c1 < 0 || c2 < 0 {
                        Err(DimacsError::NegativeCost { line: ln as usize })
                    } else {
                        Ok(((u - 1) as u32, (v - 1) as u32, Cost { c1: c1 as i64, c2: c2 as i64 }))
                    },
                },
            },
        },
    }
}

/// All edge lines, stopping at the first rejected one.
pub open spec fn parse_edges(lines: Seq<Seq<Seq<char>>>, n: int) -> Result<Seq<(u32, u32, Cost)>, DimacsError>
    decreases lines.len(),
{
    if lines.len() == 0 {
        Ok(Seq::empty())
    } else {
        match parse_edges(lines.drop_last(), n) {
            Err(e) => Err(e),
            Ok(es) => match parse_edge_line(lines.last(), lines.len() - 1, n) {
                Err(e) => Err(e),
                Ok(x) => Ok(es.push(x)),
            },
        }
    }
}

/// The header line: node count, then edge count (which is read but not
/// enforced).
pub open spec fn parse_header(h: Seq<Seq<char>>) -> Result<int, DimacsError> {
    if h.len() == 0 {
        Err(DimacsError::MissingNodeCount)
    } else {
        match parse_usize(h[0]) {
            Err(e) => Err(DimacsError::BadNodeCount(e)),
            Ok(n) => if h.len() < 2 {
                Err(DimacsError::MissingEdgeCount)
            } else {
                match parse_usize(h[1]) {
                    Err(e) => Err(DimacsError::BadEdgeCount(e)),
                    Ok(_) => Ok(n),
                }
            },
        }
    }
}

/// A whole map text: the node count and the 0-indexed edge list.
pub open spec fn parse_dimacs(s: Seq<char>) -> Result<(int, Seq<(u32, u32, Cost)>), DimacsError> {
    let tl = token_lines(s);
    if tl.len() == 0 {
        Err(DimacsError::EmptyInput)
    } else {
        match parse_header(tl[0]) {
            Err(e) => Err(e),
            Ok(n) => match parse_edges(tl.drop_first(), n) {
                Err(e) => Err(e),
                Ok(es) => Ok((n, es)),
            },
        }
    }
}

fn read_field(f: &Vec<Vec<char>>, k: usize, ln: usize, field: Field) -> (r: Result<i64, DimacsError>)
    ensures
        match r {
            Ok(v) => field_value(views(f@), k as int, ln as int, field) == Ok::<int, DimacsError>(v as int),
            Err(e) => field_value(views(f@), k as int, ln as int, field) == Err::<int, DimacsError>(e),
        },
{
    if f.len() <= k {
        return Err(DimacsError::MissingField { line: ln, field });
    }
    proof {
        assert(views(f@)[k as int] == f@[k as int]@);
    }
    match read_int(&f[k], true, i64::MIN as i128, i64::MAX as i128) {
        Ok(v) => Ok(v as i64),
        Err(e) => Err(DimacsError::BadField { line: ln, field, err: e }),
    }
}

fn read_edge_line(f: &Vec<Vec<char>>, ln: usize, n: usize) -> (r: Result<(u32, u32, Cost), DimacsError>)
    ensures
        r == parse_edge_line(views(f@), ln as int, n as int),
{
    let u = read_field(f, 0, ln, Field::From)?;
    let v = read_field(f, 1, ln, Field::To)?;
    let c1 = read_field(f, 2, ln, Field::C1)?;
    let c2 = read_field(f, 3, ln, Field::C2)?;
    if u < 1 || v < 1 {
        return Err(DimacsError::NotOneIndexed { line: ln });
    }
    if (u as u64) > (n as u64) || (v as u64) > (n as u64) {
        return Err(DimacsError::NodeIdTooLarge { line: ln, n });
    }
    if c1 < 0 || c2 < 0 {
        return Err(DimacsError::NegativeCost { line: ln });
    }
    Ok(((u - 1) as u32, (v - 1) as u32, Cost::new(c1, c2)))
}

fn read_header(h: &Vec<Vec<char>>) -> (r: Result<usize, DimacsError>)
    ensures
        match r {
            Ok(n) => parse_header(views(h@)) == Ok::<int, DimacsError>(n as int),
            Err(e) => parse_header(views(h@)) == Err::<int, DimacsError>(e),
        },
{
    if h.len() == 0 {
        return Err(DimacsError::MissingNodeCount);
    }
    proof {
        assert(views(h@)[0] == h@[0]@);
    }
    let n = match read_int(&h[0], false, 0, usize::MAX as i128) {
        Ok(n) => n as usize,
        Err(e) => {
            return Err(DimacsError::BadNodeCount(e));
        },
    };
    if h.len() < 2 {
        return Err(DimacsError::MissingEdgeCount);
    }
    proof {
        assert(views(h@)[1] == h@[1]@);
    }
    match read_int(&h[1], false, 0, usize::MAX as i128) {
        Ok(_) => Ok(n),
        Err(e) => Err(DimacsError::BadEdgeCount(e)),
    }
}

/// Reads a map text into its node count and 0-indexed edge list.
fn read_dimacs(s: &str) -> (r: Result<(usize, Vec<(u32, u32, Cost)>), DimacsError>)
    ensures
        match r {
            Ok((n, es)) => parse_dimacs(s@) == Ok::<(int, Seq<(u32, u32, Cost)>), DimacsError>((n as int, es@)),
            Err(e) => parse_dimacs(s@) == Err::<(int, Seq<(u32, u32, Cost)>), DimacsError>(e),
        },
{
    let cs = chars_of(s);
    let lines = tokenize(&cs);
    let ghost tl = token_lines(s@);
    if lines.len() == 0 {
        return Err(DimacsError::EmptyInput);
    }
    proof {
        assert(tl[0] == views(lines@[0]@));
    }
    let n = read_header(&lines[0])?;
    let ghost rest = tl.drop_first();
    let mut edges: Vec<(u32, u32, Cost)> = Vec::new();
    let mut i: usize = 1;
    while i < lines.len()
        invariant
            1 <= i <= lines@.len(),
            tl == line_views(lines@),
            tl.len() > 0,
            tl == token_lines(s@),
            parse_header(tl[0]) == Ok::<int, DimacsError>(n as int),
            rest == tl.drop_first(),
            parse_edges(rest.take(i - 1), n as int) == Ok::<Seq<(u32, u32, Cost)>, DimacsError>(edges@),
        decreases lines@.len() - i,
    {
        let ln = i - 1;
        proof {
            assert(rest.take(i as int).drop_last() =~= rest.take(ln as int));
            assert(rest.take(i as int).last() == views(lines@[i as int]@));
        }
        let e = match read_edge_line(&lines[i], ln, n) {
            Ok(e) => e,
            Err(err) => {
                proof {
                    assert(rest.take(i as int).len() - 1 == ln);
                    assert(parse_edges(rest.take(i as int), n as int) == Err::<Seq<(u32, u32, Cost)>, DimacsError>(err));
                    lemma_edges_err_sticks(rest, i as int, n as int);
                    assert(parse_edges(rest, n as int) == Err::<Seq<(u32, u32, Cost)>, DimacsError>(err));
                }
                return Err(err);
            },
        };
        edges.push(e);
        i = i + 1;
    }
    proof {
        assert(rest.take(rest.len() as int) =~= rest);
    }
    Ok((n, edges))
}

/// Once an edge line is rejected, later lines do not change the outcome.
proof fn lemma_edges_err_sticks(lines: Seq<Seq<Seq<char>>>, j: int, n: int)
    requires
        0 <= j <= lines.len(),
        parse_edges(lines.take(j), n) is Err,
    ensures
        parse_edges(lines, n) == parse_edges(lines.take(j), n),
    decreases lines.len() - j,
{
    if j < lines.len() {
        assert(lines.take(j + 1).drop_last() =~= lines.take(j));
        lemma_edges_err_sticks(lines, j + 1, n);
    } else {
        assert(lines.take(j) =~= lines);
    }
}

// ---------------------------------------------------------------------------
// Messages
// ---------------------------------------------------------------------------

pub open spec fn digit_char(d: int) -> char {
    if d == 0 {
        '0'
    } else if d == 1 {
        '1'
    } else if d == 2 {
        '2'
    } else if d == 3 {
        '3'
    } else if d == 4 {
        '4'
    } else if d == 5 {
        '5'
    } else if d == 6 {
        '6'
    } else if d == 7 {
        '7'
    } else if d == 8 {
        '8'
    } else {
        '9'
    }
}

/// Decimal digits of `x`, most significant first.
pub open spec fn decimal(x: nat) -> Seq<char>
    decreases x,
{
    if x < 10 {
        seq![digit_char(x as int)]
    } else {
        decimal(x / 10).push(digit_char((x % 10) as int))
    }
}

/// `digit_char` writes a single digit, and reading it back gives the digit.
proof fn lemma_digit_char(d: int)
    requires
        0 <= d <= 9,
    ensures
        is_digit(digit_char(d)),
        digit_val(digit_char(d)) == d,
{
}

/// Reading the decimal text of `x` digit by digit gives `x`, for any range
/// `[lo, hi]` that holds `0` and `x`; the text is non-empty and starts with
/// a digit.
proof fn lemma_acc_decimal(x: nat, lo: int, hi: int)
    requires
        lo <= 0,
        x <= hi,
    ensures
        decimal(x).len() >= 1,
        is_digit(decimal(x)[0]),
        acc_digits(decimal(x), false, lo, hi) == Ok::<int, IntError>(x as int),
    decreases x,
{
    if x < 10 {
        lemma_digit_char(x as int);
        let t = decimal(x);
        assert(t == seq![digit_char(x as int)]);
        assert(t.drop_last() =~= Seq::<char>::empty());
        assert(acc_digits(t.drop_last(), false, lo, hi) == Ok::<int, IntError>(0));
    } else {
        let q = (x / 10) as nat;
        let d = (x % 10) as int;
        lemma_acc_decimal(q, lo, hi);
        lemma_digit_char(d);
        let t = decimal(x);
        assert(t == decimal(q).push(digit_char(d)));
        assert(t.drop_last() =~= decimal(q));
        assert(t.last() == digit_char(d));
        assert(t[0] == decimal(q)[0]);
        assert(q * 10 + d == x);
    }
}

/// Parsing the decimal text of any `x` in `[lo, hi]` (with `lo <= 0`) gives
/// `x`, signed or not.
pub proof fn lemma_parse_int_decimal(x: nat, signed: bool, lo: int, hi: int)
    requires
        lo <= 0,
        x <= hi,
    ensures
        parse_int(decimal(x), signed, lo, hi) == Ok::<int, IntError>(x as int),
{
    lemma_acc_decimal(x, lo, hi);
    assert(decimal(x)[0] != '+' && decimal(x)[0] != '-');
}

/// Every non-negative `i64` read back from its decimal text is itself.
pub proof fn lemma_parse_i64_decimal(x: nat)
    requires
        x <= i64::MAX,
    ensures
        parse_i64(decimal(x)) == Ok::<int, IntError>(x as int),
{
    lemma_parse_int_decimal(x, true, i64::MIN as int, i64::MAX as int);
}

/// An edge-line field holding the decimal text of `x` has the value `x`.
pub proof fn lemma_field_value_decimal(f: Seq<Seq<char>>, k: int, ln: int, field: Field, x: nat)
    requires
        0 <= k < f.len(),
        f[k] == decimal(x),
        x <= i64::MAX,
    ensures
        field_value(f, k, ln, field) == Ok::<int, DimacsError>(x as int),
{
    lemma_parse_i64_decimal(x);
}

/// An edge line `u v a b` written in decimal, with `u` and `v` among the
/// `n` nodes, is the 0-indexed edge `u - 1 -> v - 1` of cost `(a, b)`;
/// fields after the fourth are ignored.
pub proof fn lemma_edge_line_decimal(f: Seq<Seq<char>>, ln: int, n: int, u: nat, v: nat, a: nat, b: nat)
    requires
        f.len() >= 4,
        f[0] == decimal(u),
        f[1] == decimal(v),
        f[2] == decimal(a),
        f[3] == decimal(b),
        1 <= u <= n,
        1 <= v <= n,
        n <= u32::MAX,
        a <= i64::MAX,
        b <= i64::MAX,
    ensures
        parse_edge_line(f, ln, n) == Ok::<(u32, u32, Cost), DimacsError>(
            ((u - 1) as u32, (v - 1) as u32, Cost { c1: a as i64, c2: b as i64 }),
        ),
{
    lemma_field_value_decimal(f, 0, ln, Field::From, u);
    lemma_field_value_decimal(f, 1, ln, Field::To, v);
    lemma_field_value_decimal(f, 2, ln, Field::C1, a);
    lemma_field_value_decimal(f, 3, ln, Field::C2, b);
}

/// A header `n m` written in decimal gives the node count `n`; fields after
/// the second are ignored.
pub proof fn lemma_header_decimal(h: Seq<Seq<char>>, n: nat, m: nat)
    requires
        h.len() >= 2,
        h[0] == decimal(n),
        h[1] == decimal(m),
        n <= usize::MAX,
        m <= usize::MAX,
    ensures
        parse_header(h) == Ok::<int, DimacsError>(n as int),
{
    lemma_parse_int_decimal(n, false, 0, usize::MAX as int);
    lemma_parse_int_decimal(m, false, 0, usize::MAX as int);
}

pub open spec fn int_error_text(e: IntError) -> Seq<char> {
    match e {
        IntError::Empty => "cannot parse integer from empty string"@,
        IntError::InvalidDigit => "invalid digit found in string"@,
        IntError::PosOverflow => "number too large to fit in target type"@,
        IntError::NegOverflow => "number too small to fit in target type"@,
    }
}

pub open spec fn field_text(f: Field) -> Seq<char> {
    match f {
        Field::From => "from"@,
        Field::To => "to"@,
        Field::C1 => "c1"@,
        Field::C2 => "c2"@,
    }
}

/// The message text of a rejection.
pub open spec fn error_text(e: DimacsError) -> Seq<char> {
    match e {
        DimacsError::EmptyInput => "empty input"@,
        DimacsError::MissingNodeCount => "missing node count"@,
        DimacsError::BadNodeCount(ie) => "bad node count: "@ + int_error_text(ie),
        DimacsError::MissingEdgeCount => "missing edge count"@,
        DimacsError::BadEdgeCount(ie) => "bad edge count: "@ + int_error_text(ie),
        DimacsError::MissingField { line, field } => "line "@ + decimal(line as nat) + ": missing "@
            + field_text(field),
        DimacsError::BadField { line, field, err } => "line "@ + decimal(line as nat) + ": bad "@
            + field_text(field) + ": "@ + int_error_text(err),
        DimacsError::NotOneIndexed { line } => "line "@ + decimal(line as nat)
            + ": node ids must be 1-indexed"@,
        DimacsError::NodeIdTooLarge { line, n } => "line "@ + decimal(line as nat)
            + ": node id exceeds declared count "@ + decimal(n as nat),
        DimacsError::NegativeCost { line } => "line "@ + decimal(line as nat)
            + ": costs must be non-negative"@,
    }
}

fn digit_str(d: usize) -> (r: &'static str)
    requires
        d < 10,
    ensures
        r@ == seq![digit_char(d as int)],
{
    proof {
        reveal_strlit("0");
        reveal_strlit("1");
        reveal_strlit("2");
        reveal_strlit("3");
        reveal_strlit("4");
        reveal_strlit("5");
        reveal_strlit("6");
        reveal_strlit("7");
        reveal_strlit("8");
        reveal_strlit("9");
    }
    if d == 0 {
        "0"
    } else if d == 1 {
        "1"
    } else if d == 2 {
        "2"
    } else if d == 3 {
        "3"
    } else if d == 4 {
        "4"
    } else if d == 5 {
        "5"
    } else if d == 6 {
        "6"
    } else if d == 7 {
        "7"
    } else if d == 8 {
        "8"
    } else {
        "9"
    }
}

/// Appends the decimal digits of `x`.
pub(crate) fn push_decimal(out: &mut String, x: u64)
    ensures
        final(out)@ == old(out)@ + decimal(x as nat),
    decreases x,
{
    if x >= 10 {
        push_decimal(out, x / 10);
    }
    out.append(digit_str((x % 10) as usize));
    proof {
        if x < 10 {
            assert(final(out)@ =~= old(out)@ + decimal(x as nat));
        } else {
            assert(final(out)@ =~= old(out)@ + decimal(x as nat));
        }
    }
}

fn int_error_str(e: IntError) -> (r: &'static str)
    ensures
        r@ == int_error_text(e),
{
    match e {
        IntError::Empty => "cannot parse integer from empty string",
        IntError::InvalidDigit => "invalid digit found in string",
        IntError::PosOverflow => "number too large to fit in target type",
        IntError::NegOverflow => "number too small to fit in target type",
    }
}

fn field_str(f: Field) -> (r: &'static str)
    ensures
        r@ == field_text(f),
{
    match f {
        Field::From => "from",
        Field::To => "to",
        Field::C1 => "c1",
        Field::C2 => "c2",
    }
}

impl DimacsError {
    /// The message text of this rejection.
    pub fn message(&self) -> (r: String)
        ensures
            r@ == error_text(*self),
    {
        match *self {
            DimacsError::EmptyInput => String::from_str("empty input"),
            DimacsError::MissingNodeCount => String::from_str("missing node count"),
            DimacsError::BadNodeCount(ie) => {
                let mut m = String::from_str("bad node count: ");
                m.append(int_error_str(ie));
                m
            },
            DimacsError::MissingEdgeCount => String::from_str("missing edge count"),
            DimacsError::BadEdgeCount(ie) => {
                let mut m = String::from_str("bad edge count: ");
                m.append(int_error_str(ie));
                m
            },
            DimacsError::MissingField { line, field } => {
                let mut m = String::from_str("line ");
                push_decimal(&mut m, line as u64);
                m.append(": missing ");
                m.append(field_str(field));
                m
            },
            DimacsError::BadField { line, field, err } => {
                let mut m = String::from_str("line ");
                push_decimal(&mut m, line as u64);
                m.append(": bad ");
                m.append(field_str(field));
                m.append(": ");
                m.append(int_error_str(err));
                m
            },
            DimacsError::NotOneIndexed { line } => {
                let mut m = String::from_str("line ");
                push_decimal(&mut m, line as u64);
                m.append(": node ids must be 1-indexed");
                m
            },
            DimacsError::NodeIdTooLarge { line, n } => {
                let mut m = String::from_str("line ");
                push_decimal(&mut m, line as u64);
                m.append(": node id exceeds declared count ");
                push_decimal(&mut m, n as u64);
                m
            },
            DimacsError::NegativeCost { line } => {
                let mut m = String::from_str("line ");
                push_decimal(&mut m, line as u64);
                m.append(": costs must be non-negative");
                m
            },
        }
    }
}

impl Graph {
    /// Parse the MBOR `*-road-d.txt` format: the first line is
    /// `<num_nodes> <num_edges>`, then one edge per line as
    /// `<from> <to> <c1> <c2>` with 1-indexed node ids. The returned graph is
    /// 0-indexed. The header edge count is advisory and not enforced.
    pub fn from_dimacs_str(s: &str) -> (r: Result<Graph, String>)
        requires
            parse_dimacs(s@) matches Ok((n, es)) ==> n < usize::MAX && es.len() <= u32::MAX,
        ensures
            match r {
                Ok(g) => parse_dimacs(s@) matches Ok((n, es)) && {
                    &&& g.node_count() == n
                    &&& g.edge_count() == es.len()
                    &&& forall|u: int| 0 <= u < n ==> #[trigger] g.out_edges(u) == outs_of(es, u)
                    &&& targets_in_range(g)
                },
                Err(m) => parse_dimacs(s@) matches Err(e) && m@ == error_text(e),
            },
    {
        match read_dimacs(s) {
            Ok((n, edges)) => {
                proof {
                    lemma_parsed_edges_in_range(token_lines(s@).drop_first(), n as int);
                }
                let ghost es = edges@;
                let g = Graph::from_edges(n, edges);
                proof {
                    assert forall|u: int, k: int|
                        0 <= u < g.node_count() && 0 <= k < g.out_edges(u).len() implies (
                        #[trigger] g.out_edges(u)[k]).0 < g.node_count() by {
                        lemma_outs_of_targets(es, u, n as int);
                    }
                }
                Ok(g)
            },
            Err(e) => Err(e.message()),
        }
    }
}

/// Whether the graph text, if it parses, stays within what a `Graph` can
/// hold: fewer than `usize::MAX` nodes and at most `u32::MAX` edges.
pub fn dimacs_fits(s: &str) -> (r: bool)
    ensures
        r == (parse_dimacs(s@) matches Ok((n, es)) ==> n < usize::MAX && es.len() <= u32::MAX),
{
    match read_dimacs(s) {
        Ok((n, edges)) => n < usize::MAX && edges.len() <= u32::MAX as usize,
        Err(_) => true,
    }
}

/// Parsed edges have both ends below the declared node count.
proof fn lemma_parsed_edges_in_range(lines: Seq<Seq<Seq<char>>>, n: int)
    requires
        parse_edges(lines, n) is Ok,
    ensures
        forall|i: int|
            0 <= i < parse_edges(lines, n)->Ok_0.len() ==> (#[trigger] parse_edges(lines, n)->Ok_0[i]).0 < n
                && parse_edges(lines, n)->Ok_0[i].1 < n,
    decreases lines.len(),
{
    if lines.len() > 0 {
        lemma_parsed_edges_in_range(lines.drop_last(), n);
    }
}

proof fn lemma_outs_of_targets(es: Seq<(u32, u32, Cost)>, u: int, n: int)
    requires
        forall|i: int| 0 <= i < es.len() ==> (#[trigger] es[i]).1 < n,
    ensures
        forall|k: int| 0 <= k < outs_of(es, u).len() ==> (#[trigger] outs_of(es, u)[k]).0 < n,
    decreases es.len(),
{
    if es.len() > 0 {
        let r = es.drop_last();
        assert forall|i: int| 0 <= i < r.len() implies (#[trigger] r[i]).1 < n by {
            assert(r[i] == es[i]);
        }
        lemma_outs_of_targets(r, u, n);
        assert(es[es.len() - 1].1 < n);
        assert forall|k: int| 0 <= k < outs_of(es, u).len() implies (#[trigger] outs_of(es, u)[k]).0 < n by {
            if k < outs_of(r, u).len() {
                assert(outs_of(es, u)[k] == outs_of(r, u)[k]);
            }
        }
    }
}

fn chars_of(s: &str) -> (r: Vec<char>)
    ensures
        r@ == s@,
{
    let mut r: Vec<char> = Vec::new();
    for c in it: s.chars()
        invariant
            r@ == it.seq().take(it.index() as int),
    {
        r.push(c);
    }
    r
}

/// All the fields of the input, line after line.
pub open spec fn join_lines(lines: Seq<Seq<Seq<char>>>) -> Seq<Seq<char>>
    decreases lines.len(),
{
    if lines.len() == 0 {
        Seq::empty()
    } else {
        join_lines(lines.drop_last()) + lines.last()
    }
}

/// Fields read as `u32` values, or the first field that does not read as
/// one, with why.
pub open spec fn parse_u32s(toks: Seq<Seq<char>>) -> Result<Seq<u32>, IntError>
    decreases toks.len(),
{
    if toks.len() == 0 {
        Ok(Seq::empty())
    } else {
        match parse_u32s(toks.drop_last()) {
            Err(e) => Err(e),
            Ok(vs) => match parse_int(toks.last(), false, 0, u32::MAX as int) {
                Ok(v) => Ok(vs.push(v as u32)),
                Err(e) => Err(e),
            },
        }
    }
}

/// Fragment ids written in decimal read back as themselves, in order.
pub proof fn lemma_u32s_decimal(toks: Seq<Seq<char>>, ids: Seq<u32>)
    requires
        toks.len() == ids.len(),
        forall|i: int| 0 <= i < toks.len() ==> #[trigger] toks[i] == decimal(ids[i] as nat),
    ensures
        parse_u32s(toks) == Ok::<Seq<u32>, IntError>(ids),
    decreases toks.len(),
{
    if toks.len() > 0 {
        let t2 = toks.drop_last();
        let i2 = ids.drop_last();
        assert forall|i: int| 0 <= i < t2.len() implies #[trigger] t2[i] == decimal(i2[i] as nat) by {
            assert(toks[i] == decimal(ids[i] as nat));
        }
        lemma_u32s_decimal(t2, i2);
        assert(toks.last() == decimal(ids.last() as nat));
        lemma_parse_int_decimal(ids.last() as nat, false, 0, u32::MAX as int);
        assert(i2.push(ids.last()) =~= ids);
    } else {
        assert(ids =~= Seq::<u32>::empty());
    }
}

/// A query line `o d` written in decimal holds the query `(o, d)`.
pub proof fn lemma_query_line_decimal(f: Seq<Seq<char>>, o: nat, d: nat)
    requires
        f.len() >= 2,
        f[0] == decimal(o),
        f[1] == decimal(d),
        o <= usize::MAX,
        d <= usize::MAX,
    ensures
        query_line(f) == Some((o as int, d as int)),
{
    lemma_parse_int_decimal(o, false, 0, usize::MAX as int);
    lemma_parse_int_decimal(d, false, 0, usize::MAX as int);
}

/// Parse a partition file's text: one fragment id per node, in node order,
/// separated by whitespace. On a field that is not a `u32`, the error is the
/// integer parser's message for it (the first such field).
pub fn parse_partition(s: &str) -> (r: Result<Vec<u32>, String>)
    ensures
        match parse_u32s(join_lines(token_lines(s@))) {
            Ok(vs) => r matches Ok(v) && v@ == vs,
            Err(e) => r matches Err(m) && m@ == int_error_text(e),
        },
{
    let cs = chars_of(s);
    let lines = tokenize(&cs);
    let ghost tl = token_lines(s@);
    let mut out: Vec<u32> = Vec::new();
    let mut i: usize = 0;
    while i < lines.len()
        invariant
            i <= lines@.len(),
            tl == line_views(lines@),
            tl == token_lines(s@),
            parse_u32s(join_lines(tl.take(i as int))) == Ok::<Seq<u32>, IntError>(out@),
        decreases lines@.len() - i,
    {
        let line = &lines[i];
        let ghost base = join_lines(tl.take(i as int));
        let mut j: usize = 0;
        while j < line.len()
            invariant
                i < lines@.len(),
                j <= line@.len(),
                tl == line_views(lines@),
                tl == token_lines(s@),
                line@ == lines@[i as int]@,
                base == join_lines(tl.take(i as int)),
                parse_u32s(base + views(line@).take(j as int)) == Ok::<Seq<u32>, IntError>(out@),
            decreases line@.len() - j,
        {
            let ghost pre = base + views(line@).take(j as int);
            let ghost nxt = base + views(line@).take(j + 1);
            proof {
                assert(nxt.drop_last() =~= pre);
                assert(nxt.last() == line@[j as int]@);
            }
            match read_int(&line[j], false, 0, u32::MAX as i128) {
                Ok(v) => {
                    out.push(v as u32);
                },
                Err(e) => {
                    proof {
                        assert(tl[i as int] == views(line@));
                        assert(parse_u32s(nxt) == Err::<Seq<u32>, IntError>(e));
                        lemma_parse_u32s_err_sticks(tl, i as int, j as int, e);
                        assert(parse_u32s(join_lines(token_lines(s@))) == Err::<Seq<u32>, IntError>(e));
                    }
                    let m = String::from_str(int_error_str(e));
                    assert(m@ == int_error_text(e));
                    return Err(m);
                },
            }
            j = j + 1;
        }
        proof {
            assert(views(line@).take(line@.len() as int) =~= views(line@));
            assert(tl.take(i + 1).drop_last() =~= tl.take(i as int));
            assert(tl.take(i + 1).last() == views(line@));
        }
        i = i + 1;
    }
    proof {
        assert(tl.take(lines@.len() as int) =~= tl);
    }
    Ok(out)
}

/// The `(origin, destination)` ids of a query line, as written: its first
/// two fields read as `usize` values, or `None` when either is missing or
/// does not read as one.
pub open spec fn query_line(f: Seq<Seq<char>>) -> Option<(int, int)> {
    if f.len() < 2 {
        None
    } else {
        match (parse_usize(f[0]), parse_usize(f[1])) {
            (Ok(o), Ok(d)) => Some((o, d)),
            _ => None,
        }
    }
}

/// The queries of the lines that hold one, in order, with their ids as
/// written (1-indexed).
pub open spec fn query_ids(lines: Seq<Seq<Seq<char>>>) -> Seq<(int, int)>
    decreases lines.len(),
{
    if lines.len() == 0 {
        Seq::empty()
    } else {
        let pre = query_ids(lines.drop_last());
        match query_line(lines.last()) {
            Some(q) => pre.push(q),
            None => pre,
        }
    }
}

/// Parse a query file: one query per line, `<origin> <destination>` with
/// 1-indexed node ids; lines without two readable ids are skipped. The
/// queries come back 0-indexed, in file order; `None` when a query names
/// node 0, which no 1-indexed id can be.
#[verifier::spinoff_prover]
pub fn parse_queries(s: &str) -> (r: Option<Vec<(usize, usize)>>)
    ensures
        ({
            let qs = query_ids(token_lines(s@));
            if forall|i: int| 0 <= i < qs.len() ==> #[trigger] qs[i].0 >= 1 && qs[i].1 >= 1 {
                r matches Some(v) && v@.len() == qs.len() && forall|i: int|
                    0 <= i < qs.len() ==> #[trigger] v@[i] == ((qs[i].0 - 1) as usize, (qs[i].1 - 1) as usize)
            } else {
                r is None
            }
        }),
{
    let cs = chars_of(s);
    let lines = tokenize(&cs);
    let ghost tl = token_lines(s@);
    let mut out: Vec<(usize, usize)> = Vec::new();
    let mut i: usize = 0;
    while i < lines.len()
        invariant
            i <= lines@.len(),
            tl == line_views(lines@),
            tl == token_lines(s@),
            ({
                let qs = query_ids(tl.take(i as int));
                &&& out@.len() == qs.len()
                &&& forall|j: int| 0 <= j < qs.len() ==> #[trigger] qs[j].0 >= 1 && qs[j].1 >= 1
                &&& forall|j: int|
                    0 <= j < qs.len() ==> #[trigger] out@[j] == ((qs[j].0 - 1) as usize, (qs[j].1 - 1) as usize)
            }),
        decreases lines@.len() - i,
    {
        let line = &lines[i];
        let ghost pre = tl.take(i as int);
        proof {
            assert(tl.take(i + 1).drop_last() =~= pre);
            assert(tl.take(i + 1).last() == views(line@));
            assert(tl[i as int] == views(line@));
        }
        if line.len() >= 2 {
            let ro = read_int(&line[0], false, 0, usize::MAX as i128);
            let rd = read_int(&line[1], false, 0, usize::MAX as i128);
            match (ro, rd) {
                (Ok(o), Ok(d)) => {
                    proof {
                        assert(query_line(views(line@)) == Some((o as int, d as int)));
                    }
                    if o == 0 || d == 0 {
                        proof {
                            let qs = query_ids(tl);
                            let qi = tl.take(i + 1);
                            assert(qi.drop_last() == pre);
                            assert(query_ids(qi) == query_ids(pre).push((o as int, d as int)));
                            lemma_query_ids_prefix(tl, i + 1);
                            let t = query_ids(pre).len() as int;
                            assert(qs[t] == query_ids(qi)[t]);
                            assert(qs[t] == (o as int, d as int));
                            assert(!(qs[t].0 >= 1 && qs[t].1 >= 1));
                            assert(0 <= t < qs.len());
                            assert(qs == query_ids(token_lines(s@)));
                            assert(!(forall|j: int| 0 <= j < qs.len() ==> #[trigger] qs[j].0 >= 1 && qs[j].1 >= 1));
                        }
                        return None;
                    }
                    let ghost out0 = out@;
                    out.push(((o - 1) as usize, (d - 1) as usize));
                    proof {
                        let q0 = query_ids(pre);
                        let q1 = query_ids(tl.take(i + 1));
                        assert(q1 == q0.push((o as int, d as int)));
                        assert forall|j: int| 0 <= j < q1.len() implies #[trigger] out@[j] == (
                            (q1[j].0 - 1) as usize,
                            (q1[j].1 - 1) as usize,
                        ) by {
                            if j < q0.len() {
                                assert(out@[j] == out0[j]);
                                assert(q1[j] == q0[j]);
                            }
                        }
                        assert forall|j: int| 0 <= j < q1.len() implies #[trigger] q1[j].0 >= 1 && q1[j].1 >= 1 by {
                            if j < q0.len() {
                                assert(q1[j] == q0[j]);
                            }
                        }
                    }
                },
                _ => {
                    proof {
                        assert(query_line(views(line@)) is None);
                        assert(query_ids(tl.take(i + 1)) == query_ids(pre));
                    }
                },
            }
        } else {
            proof {
                assert(query_line(views(line@)) is None);
                assert(query_ids(tl.take(i + 1)) == query_ids(pre));
            }
        }
        i = i + 1;
    }
    proof {
        assert(tl.take(lines@.len() as int) =~= tl);
    }
    Some(out)
}

/// The queries of a prefix of the lines are a prefix of all the queries.
proof fn lemma_query_ids_prefix(tl: Seq<Seq<Seq<char>>>, i: int)
    requires
        0 <= i <= tl.len(),
    ensures
        query_ids(tl.take(i)).len() <= query_ids(tl).len(),
        forall|j: int| 0 <= j < query_ids(tl.take(i)).len() ==> #[trigger] query_ids(tl)[j] == query_ids(tl.take(i))[j],
    decreases tl.len(),
{
    if i < tl.len() {
        lemma_query_ids_prefix(tl.drop_last(), i);
        assert(tl.drop_last().take(i) =~= tl.take(i));
    } else {
        assert(tl.take(i) =~= tl);
    }
}

/// Once a field fails to read, the whole list fails with that field's error.
proof fn lemma_parse_u32s_err_sticks(tl: Seq<Seq<Seq<char>>>, i: int, j: int, e: IntError)
    requires
        0 <= i < tl.len(),
        0 <= j < tl[i].len(),
        parse_u32s(join_lines(tl.take(i)) + tl[i].take(j + 1)) == Err::<Seq<u32>, IntError>(e),
    ensures
        parse_u32s(join_lines(tl)) == Err::<Seq<u32>, IntError>(e),
{
    lemma_join_prefix(tl, i, j + 1);
    lemma_parse_u32s_prefix_err(join_lines(tl.take(i)) + tl[i].take(j + 1), join_lines(tl), e);
}

/// `join_lines(tl)` extends the fields before line `i` plus the first `j`
/// fields of line `i`.
proof fn lemma_join_prefix(tl: Seq<Seq<Seq<char>>>, i: int, j: int)
    requires
        0 <= i < tl.len(),
        0 <= j <= tl[i].len(),
    ensures
        (join_lines(tl.take(i)) + tl[i].take(j)).len() <= join_lines(tl).len(),
        join_lines(tl).take((join_lines(tl.take(i)) + tl[i].take(j)).len() as int) == join_lines(tl.take(i)) + tl[i].take(j),
    decreases tl.len(),
{
    if i < tl.len() - 1 {
        lemma_join_prefix(tl.drop_last(), i, j);
        assert(tl.drop_last().take(i) =~= tl.take(i));
        assert(tl.drop_last()[i] == tl[i]);
        let a = join_lines(tl.drop_last());
        assert(join_lines(tl) == a + tl.last());
        let k = (join_lines(tl.take(i)) + tl[i].take(j)).len() as int;
        assert((a + tl.last()).take(k) =~= a.take(k));
    } else {
        assert(tl.take(i) =~= tl.drop_last());
        assert(join_lines(tl) == join_lines(tl.take(i)) + tl[i]);
        let k = (join_lines(tl.take(i)) + tl[i].take(j)).len() as int;
        assert((join_lines(tl.take(i)) + tl[i]).take(k) =~= join_lines(tl.take(i)) + tl[i].take(j));
    }
}

/// A failure on a prefix is the failure of the whole list.
proof fn lemma_parse_u32s_prefix_err(pre: Seq<Seq<char>>, all: Seq<Seq<char>>, e: IntError)
    requires
        pre.len() <= all.len(),
        all.take(pre.len() as int) == pre,
        parse_u32s(pre) == Err::<Seq<u32>, IntError>(e),
    ensures
        parse_u32s(all) == Err::<Seq<u32>, IntError>(e),
    decreases all.len(),
{
    if all.len() > pre.len() {
        assert(all.drop_last().take(pre.len() as int) =~= pre);
        lemma_parse_u32s_prefix_err(pre, all.drop_last(), e);
    } else {
        assert(all =~= pre);
    }
}

} // verus!
