use vstd::prelude::*;
use crate::text::push_char;

verus! {

pub open spec fn is_space(c: char) -> bool {
    c == ' ' || c == '\t' || c == '\n' || c == '\r'
}

pub open spec fn is_digit(c: char) -> bool {
    '0' <= c && c <= '9'
}

pub open spec fn is_ident_start(c: char) -> bool {
    ('a' <= c && c <= 'z') || ('A' <= c && c <= 'Z') || c == '_'
}

pub open spec fn is_ident_char(c: char) -> bool {
    is_ident_start(c) || is_digit(c)
}

/// `s[i]` exists and is `c`.
pub open spec fn at(s: Seq<char>, i: int, c: char) -> bool {
    0 <= i < s.len() && s[i] == c
}

/// Where the run of whitespace and comments that starts at `i` ends.
/// A line comment runs to the end of its line or of the input; a block
/// comment runs to the first `*/`, and one that is never closed is not
/// skipped.
pub open spec fn gap_end(s: Seq<char>, i: int) -> int
    decreases s.len() - i,
{
    if i < 0 || i >= s.len() {
        i
    } else if is_space(s[i]) {
        gap_end(s, i + 1)
    } else if s[i] == '/' && at(s, i + 1, '/') {
        line_tail(s, i + 2)
    } else if s[i] == '/' && at(s, i + 1, '*') {
        block_tail(s, i + 2, i)
    } else {
        i
    }
}

/// The rest of the gap, from inside a line comment at `j`.
pub open spec fn line_tail(s: Seq<char>, j: int) -> int
    decreases s.len() - j,
{
    if j < 0 || j >= s.len() {
        j
    } else if s[j] == '\n' {
        gap_end(s, j + 1)
    } else {
        line_tail(s, j + 1)
    }
}

/// The rest of the gap, from inside a block comment that opened at `start`.
pub open spec fn block_tail(s: Seq<char>, j: int, start: int) -> int
    decreases s.len() - j,
{
    if j < 0 || j + 1 >= s.len() {
        start
    } else if s[j] == '*' && s[j + 1] == '/' {
        gap_end(s, j + 2)
    } else {
        block_tail(s, j + 1, start)
    }
}

pub proof fn lemma_gap_bounds(s: Seq<char>, i: int)
    requires
        0 <= i <= s.len(),
    ensures
        i <= gap_end(s, i) <= s.len(),
    decreases s.len() - i, 2int,
{
    if i < s.len() {
        if is_space(s[i]) {
            lemma_gap_bounds(s, i + 1);
        } else if s[i] == '/' && at(s, i + 1, '/') {
            lemma_line_bounds(s, i + 2);
        } else if s[i] == '/' && at(s, i + 1, '*') {
            lemma_block_bounds(s, i + 2, i);
        }
    }
}

proof fn lemma_line_bounds(s: Seq<char>, j: int)
    requires
        0 <= j <= s.len(),
    ensures
        j <= line_tail(s, j) <= s.len(),
    decreases s.len() - j, 1int,
{
    if j < s.len() {
        if s[j] == '\n' {
            lemma_gap_bounds(s, j + 1);
        } else {
            lemma_line_bounds(s, j + 1);
        }
    }
}

proof fn lemma_block_bounds(s: Seq<char>, j: int, start: int)
    requires
        0 <= start <= j <= s.len(),
    ensures
        start <= block_tail(s, j, start) <= s.len(),
    decreases s.len() - j, 0int,
{
    if j + 1 < s.len() {
        if s[j] == '*' && s[j + 1] == '/' {
            lemma_gap_bounds(s, j + 2);
        } else {
            lemma_block_bounds(s, j + 1, start);
        }
    }
}

/// Skips whitespace and comments from `i`.
pub(crate) fn skip_gap(s: &Vec<char>, i: usize) -> (r: usize)
    requires
        i <= s.len(),
    ensures
        r == gap_end(s@, i as int),
        i <= r <= s.len(),
{
    proof {
        lemma_gap_bounds(s@, i as int);
    }
    let n = s.len();
    let mut j = i;
    // 0: between tokens; 1: in a line comment; 2: in a block comment
    let mut mode: u8 = 0;
    let mut start = i;
    loop
        invariant
            j <= n == s.len(),
            start <= j,
            mode <= 2,
            i <= gap_end(s@, i as int) <= n,
            mode == 0 ==> gap_end(s@, i as int) == gap_end(s@, j as int),
            mode == 1 ==> gap_end(s@, i as int) == line_tail(s@, j as int),
            mode == 2 ==> gap_end(s@, i as int) == block_tail(s@, j as int, start as int),
        decreases n - j,
    {
        if mode == 0 {
            if j >= n {
                return j;
            }
            let c = s[j];
            if c == ' ' || c == '\t' || c == '\n' || c == '\r' {
                j += 1;
            } else if c == '/' && j + 1 < n && s[j + 1] == '/' {
                j += 2;
                mode = 1;
            } else if c == '/' && j + 1 < n && s[j + 1] == '*' {
                start = j;
                j += 2;
                mode = 2;
            } else {
                return j;
            }
        } else if mode == 1 {
            if j >= n {
                return j;
            }
            if s[j] == '\n' {
                mode = 0;
            }
            j += 1;
        } else {
            if n - j < 2 {
                return start;
            }
            if s[j] == '*' && s[j + 1] == '/' {
                j += 2;
                mode = 0;
            } else {
                j += 1;
            }
        }
    }
}

/// Where the run of identifier characters that starts at `i` ends.
pub open spec fn ident_end(s: Seq<char>, i: int) -> int
    decreases s.len() - i,
{
    if 0 <= i < s.len() && is_ident_char(s[i]) {
        ident_end(s, i + 1)
    } else {
        i
    }
}

pub proof fn lemma_ident_bounds(s: Seq<char>, i: int)
    requires
        0 <= i <= s.len(),
    ensures
        i <= ident_end(s, i) <= s.len(),
        forall|k: int| i <= k < ident_end(s, i) ==> is_ident_char(#[trigger] s[k]),
    decreases s.len() - i,
{
    if i < s.len() && is_ident_char(s[i]) {
        lemma_ident_bounds(s, i + 1);
    }
}

/// Scans the identifier characters from `i`.
pub(crate) fn scan_ident(s: &Vec<char>, i: usize) -> (r: usize)
    requires
        i <= s.len(),
    ensures
        r == ident_end(s@, i as int),
        i <= r <= s.len(),
{
    proof {
        lemma_ident_bounds(s@, i as int);
    }
    let mut j = i;
    while j < s.len() && is_ident_char_exec(s[j])
        invariant
            i <= j <= s.len(),
            ident_end(s@, i as int) == ident_end(s@, j as int),
        decreases s.len() - j,
    {
        j += 1;
    }
    j
}

pub(crate) fn is_ident_start_exec(c: char) -> (r: bool)
    ensures
        r == is_ident_start(c),
{
    ('a' <= c && c <= 'z') || ('A' <= c && c <= 'Z') || c == '_'
}

pub(crate) fn is_ident_char_exec(c: char) -> (r: bool)
    ensures
        r == is_ident_char(c),
{
    is_ident_start_exec(c) || ('0' <= c && c <= '9')
}

/// What the escape `\c` inside a string literal stands for. Escapes that
/// are not listed here are kept as written.
pub open spec fn escaped(c: char) -> Seq<char> {
    if c == 'n' {
        seq!['\n']
    } else if c == 't' {
        seq!['\t']
    } else if c == 'r' {
        seq!['\r']
    } else if c == 'b' {
        seq!['\u{8}']
    } else if c == 'f' {
        seq!['\u{c}']
    } else if c == '\\' || c == '/' || c == '"' {
        seq![c]
    } else {
        seq!['\\', c]
    }
}

/// The text of a string literal whose body starts at `j`, and the position
/// after its closing quote; `None` when the literal is never closed.
pub open spec fn string_tail(s: Seq<char>, j: int) -> Option<(Seq<char>, int)>
    decreases s.len() - j,
{
    if j < 0 || j >= s.len() {
        None
    } else if s[j] == '"' {
        Some((Seq::empty(), j + 1))
    } else if s[j] == '\\' {
        if j + 1 >= s.len() {
            None
        } else {
            prepend(escaped(s[j + 1]), string_tail(s, j + 2))
        }
    } else {
        prepend(seq![s[j]], string_tail(s, j + 1))
    }
}

pub open spec fn prepend(a: Seq<char>, o: Option<(Seq<char>, int)>) -> Option<(Seq<char>, int)> {
    match o {
        Some((t, e)) => Some((a + t, e)),
        None => None,
    }
}

pub proof fn lemma_string_bounds(s: Seq<char>, j: int)
    requires
        0 <= j,
    ensures
        string_tail(s, j) matches Some((t, e)) ==> j < e <= s.len(),
    decreases s.len() - j,
{
    if 0 <= j < s.len() && s[j] != '"' {
        if s[j] == '\\' {
            if j + 1 < s.len() {
                lemma_string_bounds(s, j + 2);
            }
        } else {
            lemma_string_bounds(s, j + 1);
        }
    }
}

/// Scans the body of a string literal from `j`, just after its opening quote.
pub(crate) fn scan_string(s: &Vec<char>, j: usize) -> (r: Option<(String, usize)>)
    requires
        j <= s.len(),
    ensures
        match r {
            Some((t, e)) => string_tail(s@, j as int) == Some((t@, e as int)),
            None => string_tail(s@, j as int) is None,
        },
        r matches Some((t, e)) ==> j < e <= s.len(),
{
    proof {
        lemma_string_bounds(s@, j as int);
    }
    let n = s.len();
    let mut acc = String::new();
    let mut k = j;
    while k < n
        invariant
            j <= k <= n == s.len(),
            string_tail(s@, j as int) == prepend(acc@, string_tail(s@, k as int)),
        decreases n - k,
    {
        let c = s[k];
        let ghost prev = acc@;
        if c == '"' {
            assert(acc@ + Seq::<char>::empty() =~= acc@);
            return Some((acc, k + 1));
        } else if c == '\\' {
            if k + 1 >= n {
                return None;
            }
            let d = s[k + 1];
            if d == 'n' {
                push_char(&mut acc, '\n');
            } else if d == 't' {
                push_char(&mut acc, '\t');
            } else if d == 'r' {
                push_char(&mut acc, '\r');
            } else if d == 'b' {
                push_char(&mut acc, '\u{8}');
            } else if d == 'f' {
                push_char(&mut acc, '\u{c}');
            } else if d == '\\' || d == '/' || d == '"' {
                push_char(&mut acc, d);
            } else {
                push_char(&mut acc, '\\');
                push_char(&mut acc, d);
            }
            assert(acc@ =~= prev + escaped(d));
            proof {
                if let Some((t, e)) = string_tail(s@, k + 2) {
                    assert(prev + (escaped(d) + t) =~= acc@ + t);
                }
            }
            k += 2;
        } else {
            push_char(&mut acc, c);
            proof {
                if let Some((t, e)) = string_tail(s@, k + 1) {
                    assert(prev + (seq![c] + t) =~= acc@ + t);
                }
            }
            k += 1;
        }
    }
    None
}

/// Where the run of decimal digits that starts at `i` ends.
pub open spec fn digits_end(s: Seq<char>, i: int) -> int
    decreases s.len() - i,
{
    if 0 <= i < s.len() && is_digit(s[i]) {
        digits_end(s, i + 1)
    } else {
        i
    }
}

/// The number that a run of decimal digits writes.
pub open spec fn digits_value(d: Seq<char>) -> int
    decreases d.len(),
{
    if d.len() == 0 {
        0
    } else {
        digits_value(d.drop_last()) * 10 + (d.last() as int - '0' as int)
    }
}

/// The integer literal at `i` (an optional `-`, then at least one digit):
/// its value and the position after it.
pub open spec fn integer_token(s: Seq<char>, i: int) -> Option<(int, int)> {
    let neg = at(s, i, '-');
    let ds = if neg { i + 1 } else { i };
    let de = digits_end(s, ds);
    if de == ds {
        None
    } else {
        let m = digits_value(s.subrange(ds, de));
        Some((if neg { -m } else { m }, de))
    }
}

pub open spec fn fits_i64(v: int) -> bool {
    i64::MIN <= v <= i64::MAX
}

proof fn lemma_digits_bounds(s: Seq<char>, i: int)
    requires
        0 <= i <= s.len(),
    ensures
        i <= digits_end(s, i) <= s.len(),
        forall|k: int| i <= k < digits_end(s, i) ==> is_digit(#[trigger] s[k]),
    decreases s.len() - i,
{
    if i < s.len() && is_digit(s[i]) {
        lemma_digits_bounds(s, i + 1);
    }
}

/// Scans an integer literal at `i`. `None`: there is none; `Some((None, e))`:
/// there is one, ending at `e`, and it does not fit in an `i64`.
pub(crate) fn scan_integer(s: &Vec<char>, i: usize) -> (r: Option<(Option<i64>, usize)>)
    requires
        i <= s.len(),
    ensures
        match r {
            None => integer_token(s@, i as int) is None,
            Some((o, e)) => integer_token(s@, i as int) matches Some((v, e2)) && e2 == e && i < e
                <= s.len() && o == (if fits_i64(v) { Some(v as i64) } else { None }),
        },
{
    let n = s.len();
    let neg = i < n && s[i] == '-';
    let ds = if neg { i + 1 } else { i };
    proof {
        lemma_digits_bounds(s@, ds as int);
    }
    let cap: u128 = 9223372036854775809;
    let mut acc: u128 = 0;
    let mut k = ds;
    assert(s@.subrange(ds as int, ds as int) =~= Seq::<char>::empty());
    while k < n && '0' <= s[k] && s[k] <= '9'
        invariant
            ds <= k <= n == s.len(),
            digits_end(s@, ds as int) == digits_end(s@, k as int),
            forall|m: int| ds <= m < k ==> is_digit(#[trigger] s@[m]),
            digits_value(s@.subrange(ds as int, k as int)) >= 0,
            cap == 9223372036854775809,
            acc <= cap,
            acc == (if digits_value(s@.subrange(ds as int, k as int)) < cap {
                digits_value(s@.subrange(ds as int, k as int))
            } else {
                cap as int
            }),
        decreases n - k,
    {
        let ghost before = digits_value(s@.subrange(ds as int, k as int));
        let d = (s[k] as u32 - '0' as u32) as u128;
        assert(s@.subrange(ds as int, k + 1).drop_last() =~= s@.subrange(ds as int, k as int));
        assert(digits_value(s@.subrange(ds as int, k + 1)) == before * 10 + d);
        assert(d <= 9);
        if acc < cap {
            assert(acc * 10 + d <= cap * 10 + 9) by (nonlinear_arith)
                requires acc < cap, d <= 9;
            let next = acc * 10 + d;
            acc = if next < cap { next } else { cap };
        } else {
            assert(before * 10 + d >= cap) by (nonlinear_arith)
                requires before >= cap, d >= 0, cap > 0;
        }
        k += 1;
    }
    if k == ds {
        return None;
    }
    let ghost m = digits_value(s@.subrange(ds as int, k as int));
    if neg {
        if acc <= 9223372036854775808 {
            let v = (0i128 - acc as i128) as i64;
            Some((Some(v), k))
        } else {
            Some((None, k))
        }
    } else {
        if acc <= 9223372036854775807 {
            Some((Some(acc as i64), k))
        } else {
            Some((None, k))
        }
    }
}

/// A gap never ends before it starts.
pub proof fn lemma_gap_ge(s: Seq<char>, i: int)
    requires
        0 <= i,
    ensures
        i <= gap_end(s, i),
        i <= s.len() ==> gap_end(s, i) <= s.len(),
{
    if i <= s.len() {
        lemma_gap_bounds(s, i);
    }
}

} // verus!
