use vstd::prelude::*;
use crate::concat::{concat_model, concat_values};
use crate::error::{commit, fail, miss, within, Fault, Label, Note, SyntaxError};
use crate::lexer::{at, fits_i64, gap_end, ident_end, integer_token, is_ident_start, lemma_gap_ge, lemma_ident_bounds, string_tail, is_ident_start_exec, scan_ident, scan_integer, scan_string, skip_gap};
use crate::value::{dict_insert, models, value_model, Dict, Function, Value, ValueModel};
use crate::text::text_of;

verus! {

/// What is left of the input from `i`, as a measure of progress.
pub open spec fn rest(s: Seq<char>, i: int) -> int {
    if i < s.len() {
        s.len() - i
    } else {
        0
    }
}

pub open spec fn true_word() -> Seq<char> {
    seq!['t', 'r', 'u', 'e']
}

pub open spec fn false_word() -> Seq<char> {
    seq!['f', 'a', 'l', 's', 'e']
}

/// The results of the value rules: what was read and how many characters
/// it took, or why it failed.
pub type Read<T> = Result<(T, nat), Fault>;

/// `expr := primary (gap '+' gap primary)*`, read at `i` (where no gap is
/// left to skip), reduced by the rule of `+`.
pub open spec fn expr(s: Seq<char>, i: int) -> Read<ValueModel>
    decreases rest(s, i), 4int,
{
    match primary(s, i) {
        Err(f) => Err(f),
        Ok((v, n)) => match operands(s, i + n) {
            Err(f) => Err(f),
            Ok((vs, m)) => match concat_model(seq![v] + vs) {
                Ok(c) => Ok((c, n + m)),
                Err(l) => Err(Fault {
                    committed: true,
                    trace: seq![(i, Note::Context(l)), (i, Note::Context(Label::Value))],
                }),
            },
        },
    }
}

/// The operands that follow a first one ending at `j`: each after a `+`.
pub open spec fn operands(s: Seq<char>, j: int) -> Read<Seq<ValueModel>>
    decreases rest(s, j), 3int,
{
    if j < 0 {
        Ok((Seq::empty(), 0))
    } else {
        let k = gap_end(s, j);
        if at(s, k, '+') {
            let m = gap_end(s, k + 1);
            proof {
                lemma_gap_ge(s, j);
                lemma_gap_ge(s, k + 1);
            }
            match primary(s, m) {
                Err(f) => Err(commit(f)),
                Ok((v, n)) => match operands(s, m + n) {
                    Err(f) => Err(f),
                    Ok((vs, q)) => Ok((seq![v] + vs, (m + n + q - j) as nat)),
                },
            }
        } else {
            Ok((Seq::empty(), 0))
        }
    }
}

/// `primary := array | string | boolean | dict | call | identifier | integer`.
pub open spec fn primary(s: Seq<char>, i: int) -> Read<ValueModel>
    decreases rest(s, i), 2int,
{
    if i < 0 || i >= s.len() {
        Err(miss(i, Note::Context(Label::Value)))
    } else if s[i] == '[' {
        match items(s, i + 1, ']', false) {
            Ok((vs, n)) => Ok((ValueModel::Array(vs), n + 1)),
            Err(f) => Err(within(f, i, Label::Array)),
        }
    } else if s[i] == '{' {
        match fields(s, i + 1, Seq::empty(), ':', '}', false) {
            Ok((d, n)) => Ok((ValueModel::Dict(d), n + 1)),
            Err(f) => Err(within(f, i, Label::Dict)),
        }
    } else if s[i] == '"' {
        match string_tail(s, i + 1) {
            Some((t, e)) => Ok((ValueModel::Str(t), (e - i) as nat)),
            None => Err(within(fail(s.len() as int, Note::Expected('"')), i, Label::Str)),
        }
    } else if is_ident_start(s[i]) {
        let e = ident_end(s, i);
        let name = s.subrange(i, e);
        let p = gap_end(s, e);
        proof {
            lemma_ident_bounds(s, i);
            lemma_gap_ge(s, e);
        }
        if name == true_word() {
            Ok((ValueModel::Bool(true), (e - i) as nat))
        } else if name == false_word() {
            Ok((ValueModel::Bool(false), (e - i) as nat))
        } else if at(s, p, '(') {
            match items(s, p + 1, ')', false) {
                Ok((args, n)) => Ok((ValueModel::Call(name, args), (p + 1 + n - i) as nat)),
                Err(f) => Err(within(f, i, Label::Call)),
            }
        } else {
            Ok((ValueModel::Ident(name), (e - i) as nat))
        }
    } else {
        match integer_token(s, i) {
            Some((v, e)) => if fits_i64(v) {
                Ok((ValueModel::Int(v), (e - i) as nat))
            } else {
                Err(within(fail(i, Note::Context(Label::IntegerOverflow)), i, Label::Integer))
            },
            None => Err(miss(i, Note::Context(Label::Value))),
        }
    }
}

/// Whether a list closed by `close` may end with a comma.
pub open spec fn trailing_comma_ok(close: char) -> bool {
    close != ')'
}

/// The rest of a list of values closed by `close`, from `p`, just after its
/// opening delimiter (or just after a comma, when `after_comma`).
pub open spec fn items(s: Seq<char>, p: int, close: char, after_comma: bool) -> Read<Seq<ValueModel>>
    decreases rest(s, p), 5int,
{
    if p < 0 {
        Err(fail(p, Note::Expected(close)))
    } else {
        let k = gap_end(s, p);
        proof {
            lemma_gap_ge(s, p);
        }
        if at(s, k, close) && (!after_comma || trailing_comma_ok(close)) {
            Ok((Seq::empty(), (k + 1 - p) as nat))
        } else {
            match expr(s, k) {
                Err(f) => Err(commit(f)),
                Ok((v, n)) => {
                    let t = gap_end(s, k + n);
                    proof {
                        lemma_gap_ge(s, k + n);
                    }
                    if at(s, t, ',') {
                        match items(s, t + 1, close, true) {
                            Ok((vs, m)) => Ok((seq![v] + vs, (t + 1 + m - p) as nat)),
                            Err(f) => Err(f),
                        }
                    } else if at(s, t, close) {
                        Ok((seq![v], (t + 1 - p) as nat))
                    } else {
                        Err(fail(t, Note::Expected(close)))
                    }
                },
            }
        }
    }
}

/// The rest of a list of `key <bind> value` entries closed by `close`, from
/// `p`, added to `acc` (a later entry under a key replaces an earlier one).
pub open spec fn fields(
    s: Seq<char>,
    p: int,
    acc: Seq<(Seq<char>, ValueModel)>,
    bind: char,
    close: char,
    after_comma: bool,
) -> Read<Seq<(Seq<char>, ValueModel)>>
    decreases rest(s, p), 5int,
{
    if p < 0 {
        Err(fail(p, Note::Expected(close)))
    } else {
        let k = gap_end(s, p);
        proof {
            lemma_gap_ge(s, p);
        }
        if at(s, k, close) && (!after_comma || trailing_comma_ok(close)) {
            Ok((acc, (k + 1 - p) as nat))
        } else if 0 <= k < s.len() && is_ident_start(s[k]) {
            let ke = ident_end(s, k);
            let key = s.subrange(k, ke);
            let c = gap_end(s, ke);
            proof {
                lemma_ident_bounds(s, k);
                lemma_gap_ge(s, ke);
            }
            if !at(s, c, bind) {
                Err(within(fail(c, Note::Expected(bind)), k, Label::Entry))
            } else {
                let v0 = gap_end(s, c + 1);
                proof {
                    lemma_gap_ge(s, c + 1);
                }
                match expr(s, v0) {
                    Err(f) => Err(within(commit(f), k, Label::Entry)),
                    Ok((v, n)) => {
                        let t = gap_end(s, v0 + n);
                        let acc2 = dict_insert(acc, key, v);
                        proof {
                            lemma_gap_ge(s, v0 + n);
                        }
                        if at(s, t, ',') {
                            match fields(s, t + 1, acc2, bind, close, true) {
                                Ok((d, m)) => Ok((d, (t + 1 + m - p) as nat)),
                                Err(f) => Err(f),
                            }
                        } else if at(s, t, close) {
                            Ok((acc2, (t + 1 - p) as nat))
                        } else {
                            Err(fail(t, Note::Expected(close)))
                        }
                    },
                }
            }
        } else {
            Err(fail(k, Note::Expected(close)))
        }
    }
}

/// `r`, a value read from `i`, is what `want` says.
pub open spec fn value_read(
    s: Seq<char>,
    i: int,
    want: Read<ValueModel>,
    r: Result<(Value, usize), SyntaxError>,
) -> bool {
    match r {
        Ok((v, e)) => want == Ok::<(ValueModel, nat), Fault>((value_model(v), (e - i) as nat)) && i
            <= e <= s.len(),
        Err(f) => want == Err::<(ValueModel, nat), Fault>(f@),
    }
}

/// `r`, a list of values read from `i`, is what `want` says.
pub open spec fn list_read(
    s: Seq<char>,
    i: int,
    want: Read<Seq<ValueModel>>,
    r: Result<(Vec<Value>, usize), SyntaxError>,
) -> bool {
    match r {
        Ok((vs, e)) => want == Ok::<(Seq<ValueModel>, nat), Fault>((models(vs@), (e - i) as nat))
            && i <= e <= s.len(),
        Err(f) => want == Err::<(Seq<ValueModel>, nat), Fault>(f@),
    }
}

/// `r`, a dictionary read from `i`, is what `want` says.
pub open spec fn dict_read(
    s: Seq<char>,
    i: int,
    want: Read<Seq<(Seq<char>, ValueModel)>>,
    r: Result<(Dict, usize), SyntaxError>,
) -> bool {
    match r {
        Ok((d, e)) => want == Ok::<(Seq<(Seq<char>, ValueModel)>, nat), Fault>(
            (d.model(), (e - i) as nat),
        ) && i <= e <= s.len(),
        Err(f) => want == Err::<(Seq<(Seq<char>, ValueModel)>, nat), Fault>(f@),
    }
}

/// Whether `s[i..e]` is `word`.
pub(crate) fn word_is(s: &Vec<char>, i: usize, e: usize, word: &Vec<char>) -> (r: bool)
    requires
        i <= e <= s.len(),
    ensures
        r == (s@.subrange(i as int, e as int) == word@),
{
    if e - i != word.len() {
        return false;
    }
    let mut k: usize = 0;
    while k < word.len()
        invariant
            e - i == word.len(),
            i <= e <= s.len(),
            k <= word.len(),
            forall|j: int| 0 <= j < k ==> s@[i + j] == word@[j],
        decreases word.len() - k,
    {
        if s[i + k] != word[k] {
            assert(s@.subrange(i as int, e as int)[k as int] != word@[k as int]);
            return false;
        }
        k += 1;
    }
    assert(s@.subrange(i as int, e as int) =~= word@);
    true
}

/// Reads an expression at `i`.
pub(crate) fn expr_at(s: &Vec<char>, i: usize) -> (r: Result<(Value, usize), SyntaxError>)
    requires
        i <= s.len(),
    ensures
        value_read(s@, i as int, expr(s@, i as int), r),
    decreases rest(s@, i as int), 4int,
{
    let (v, e) = match primary_at(s, i) {
        Err(f) => return Err(f),
        Ok(x) => x,
    };
    let (vs, e2) = match operands_at(s, e) {
        Err(f) => return Err(f),
        Ok(x) => x,
    };
    let ghost vm = value_model(v);
    let ghost vsm = models(vs@);
    let mut ops: Vec<Value> = Vec::new();
    ops.push(v);
    let mut vs = vs;
    ops.append(&mut vs);
    assert(models(ops@) =~= seq![vm] + vsm);
    match concat_values(ops) {
        Ok(c) => Ok((c, e2)),
        Err(l) => {
            let f = SyntaxError::at(i, Note::Context(l), true);
            assert(seq![(i as int, Note::Context(l))].push((i as int, Note::Context(Label::Value)))
                =~= seq![(i as int, Note::Context(l)), (i as int, Note::Context(Label::Value))]);
            Err(f.within(i, Label::Value))
        },
    }
}

/// Reads the operands that follow a first one ending at `j`.
fn operands_at(s: &Vec<char>, j: usize) -> (r: Result<(Vec<Value>, usize), SyntaxError>)
    requires
        j <= s.len(),
    ensures
        list_read(s@, j as int, operands(s@, j as int), r),
    decreases rest(s@, j as int), 3int,
{
    let k = skip_gap(s, j);
    if k < s.len() && s[k] == '+' {
        let m = skip_gap(s, k + 1);
        let (v, e) = match primary_at(s, m) {
            Err(f) => return Err(f.commit()),
            Ok(x) => x,
        };
        let (vs, e2) = match operands_at(s, e) {
            Err(f) => return Err(f),
            Ok(x) => x,
        };
        let ghost vm = value_model(v);
        let ghost vsm = models(vs@);
        let mut out: Vec<Value> = Vec::new();
        out.push(v);
        let mut vs = vs;
        out.append(&mut vs);
        assert(models(out@) =~= seq![vm] + vsm);
        Ok((out, e2))
    } else {
        let out: Vec<Value> = Vec::new();
        assert(models(out@) =~= Seq::<ValueModel>::empty());
        Ok((out, j))
    }
}

/// Reads a primary value at `i`.
fn primary_at(s: &Vec<char>, i: usize) -> (r: Result<(Value, usize), SyntaxError>)
    requires
        i <= s.len(),
    ensures
        value_read(s@, i as int, primary(s@, i as int), r),
    decreases rest(s@, i as int), 2int,
{
    let n = s.len();
    if i >= n {
        return Err(SyntaxError::at(i, Note::Context(Label::Value), false));
    }
    let c = s[i];
    if c == '[' {
        match items_at(s, i + 1, ']', false) {
            Ok((vs, e)) => Ok((Value::Array(vs), e)),
            Err(f) => Err(f.within(i, Label::Array)),
        }
    } else if c == '{' {
        match fields_at(s, i + 1, Dict::new(), ':', '}', false) {
            Ok((d, e)) => Ok((Value::Dict(d), e)),
            Err(f) => Err(f.within(i, Label::Dict)),
        }
    } else if c == '"' {
        match scan_string(s, i + 1) {
            Some((t, e)) => Ok((Value::String(t), e)),
            None => Err(SyntaxError::at(n, Note::Expected('"'), true).within(i, Label::Str)),
        }
    } else if is_ident_start_exec(c) {
        let e = scan_ident(s, i);
        let p = skip_gap(s, e);
        let t = vec!['t', 'r', 'u', 'e'];
        let f = vec!['f', 'a', 'l', 's', 'e'];
        assert(t@ =~= true_word());
        assert(f@ =~= false_word());
        if word_is(s, i, e, &t) {
            Ok((Value::Boolean(true), e))
        } else if word_is(s, i, e, &f) {
            Ok((Value::Boolean(false), e))
        } else if p < n && s[p] == '(' {
            match items_at(s, p + 1, ')', false) {
                Ok((args, e2)) => Ok((Value::Function(Function { name: text_of(s, i, e), args }), e2)),
                Err(f) => Err(f.within(i, Label::Call)),
            }
        } else {
            Ok((Value::Ident(text_of(s, i, e)), e))
        }
    } else {
        match scan_integer(s, i) {
            Some((Some(v), e)) => Ok((Value::Integer(v), e)),
            Some((None, _)) => Err(
                SyntaxError::at(i, Note::Context(Label::IntegerOverflow), true).within(i, Label::Integer),
            ),
            None => Err(SyntaxError::at(i, Note::Context(Label::Value), false)),
        }
    }
}

/// `r`, read from a later position, seen from a position `off` characters
/// earlier, after the values `front`.
pub open spec fn after_items(front: Seq<ValueModel>, r: Read<Seq<ValueModel>>, off: int) -> Read<Seq<ValueModel>> {
    match r {
        Ok((vs, m)) => Ok((front + vs, (off + m) as nat)),
        Err(f) => Err(f),
    }
}

/// `r`, read from a later position, seen from a position `off` characters
/// earlier.
pub open spec fn after_fields(
    r: Read<Seq<(Seq<char>, ValueModel)>>,
    off: int,
) -> Read<Seq<(Seq<char>, ValueModel)>> {
    match r {
        Ok((d, m)) => Ok((d, (off + m) as nat)),
        Err(f) => Err(f),
    }
}

/// Reads the rest of a list of values closed by `close`, from `p`.
pub(crate) fn items_at(s: &Vec<char>, p: usize, close: char, after_comma: bool) -> (r: Result<
    (Vec<Value>, usize),
    SyntaxError,
>)
    requires
        p <= s.len(),
    ensures
        list_read(s@, p as int, items(s@, p as int, close, after_comma), r),
    decreases rest(s@, p as int), 5int,
{
    let n = s.len();
    let mut out: Vec<Value> = Vec::new();
    let mut q = p;
    let mut comma = after_comma;
    assert(Seq::<ValueModel>::empty() + Seq::<ValueModel>::empty() =~= Seq::<ValueModel>::empty());
    assert(models(out@) =~= Seq::<ValueModel>::empty());
    loop
        invariant
            p <= q <= n == s.len(),
            q == p || comma,
            items(s@, p as int, close, after_comma) == after_items(
                models(out@),
                items(s@, q as int, close, comma),
                q - p,
            ),
        decreases rest(s@, q as int),
    {
        let k = skip_gap(s, q);
        if k < n && s[k] == close && (!comma || close != ')') {
            assert(models(out@) + Seq::<ValueModel>::empty() =~= models(out@));
            return Ok((out, k + 1));
        }
        let (v, e) = match expr_at(s, k) {
            Err(f) => return Err(f.commit()),
            Ok(x) => x,
        };
        let t = skip_gap(s, e);
        let ghost before = models(out@);
        let ghost vm = value_model(v);
        out.push(v);
        assert(models(out@) =~= before.push(vm));
        if t < n && s[t] == ',' {
            proof {
                if let Ok((vs, m)) = items(s@, t + 1, close, true) {
                    assert(before + (seq![vm] + vs) =~= models(out@) + vs);
                }
            }
            q = t + 1;
            comma = true;
        } else if t < n && s[t] == close {
            assert(before + seq![vm] =~= models(out@));
            return Ok((out, t + 1));
        } else {
            return Err(SyntaxError::at(t, Note::Expected(close), true));
        }
    }
}

/// Reads the rest of a list of `key <bind> value` entries closed by `close`,
/// from `p`, into `entries`.
pub(crate) fn fields_at(
    s: &Vec<char>,
    p: usize,
    entries: Dict,
    bind: char,
    close: char,
    after_comma: bool,
) -> (r: Result<(Dict, usize), SyntaxError>)
    requires
        p <= s.len(),
    ensures
        dict_read(s@, p as int, fields(s@, p as int, entries.model(), bind, close, after_comma), r),
    decreases rest(s@, p as int), 5int,
{
    let n = s.len();
    let ghost acc0 = entries.model();
    let mut acc = entries;
    let mut q = p;
    let mut comma = after_comma;
    loop
        invariant
            p <= q <= n == s.len(),
            acc0 == entries.model(),
            fields(s@, p as int, acc0, bind, close, after_comma) == after_fields(
                fields(s@, q as int, acc.model(), bind, close, comma),
                q - p,
            ),
        decreases rest(s@, q as int),
    {
        let k = skip_gap(s, q);
        if k < n && s[k] == close && (!comma || close != ')') {
            return Ok((acc, k + 1));
        }
        if !(k < n && is_ident_start_exec(s[k])) {
            return Err(SyntaxError::at(k, Note::Expected(close), true));
        }
        let ke = scan_ident(s, k);
        let c = skip_gap(s, ke);
        if !(c < n && s[c] == bind) {
            return Err(SyntaxError::at(c, Note::Expected(bind), true).within(k, Label::Entry));
        }
        let v0 = skip_gap(s, c + 1);
        let (v, e) = match expr_at(s, v0) {
            Err(f) => return Err(f.commit().within(k, Label::Entry)),
            Ok(x) => x,
        };
        let t = skip_gap(s, e);
        acc.insert(text_of(s, k, ke), v);
        if t < n && s[t] == ',' {
            q = t + 1;
            comma = true;
        } else if t < n && s[t] == close {
            return Ok((acc, t + 1));
        } else {
            return Err(SyntaxError::at(t, Note::Expected(close), true));
        }
    }
}

} // verus!
