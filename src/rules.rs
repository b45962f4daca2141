use vstd::prelude::*;
use vstd::string::StrSliceExecFns;
use crate::document::{Module, ModuleModel};
use crate::error::{commit, fail, miss, within, Fault, Label, Note, SyntaxError};
use crate::grammar::{expr, expr_at, false_word, fields, fields_at, items, items_at, true_word, word_is};
use crate::lexer::{
    at, fits_i64, gap_end, ident_end, integer_token, is_ident_start, is_ident_start_exec, scan_ident,
    scan_integer, skip_gap,
};
use crate::text::{chars_of, text_of};
use crate::value::{models, value_model, Dict, Value, ValueModel};

verus! {

// Each grammar rule on its own, read at the start of a text. Each returns
// what is left of the text and what was read.

/// What a rule read from the start of `s`: the number of characters it took
/// and `rest`, what is left, agree.
pub open spec fn leaves(s: Seq<char>, n: nat, rest: Seq<char>) -> bool {
    n <= s.len() && rest == s.skip(n as int)
}

/// An array, with the whitespace and comments around it.
pub open spec fn array_text(s: Seq<char>) -> Result<(Seq<ValueModel>, nat), Fault> {
    let k = gap_end(s, 0);
    if at(s, k, '[') {
        match items(s, k + 1, ']', false) {
            Ok((vs, n)) => Ok((vs, gap_end(s, k + 1 + n) as nat)),
            Err(f) => Err(within(f, k, Label::Array)),
        }
    } else {
        Err(within(miss(k, Note::Expected('[')), k, Label::Array))
    }
}

/// An entry `key: value`, with the whitespace and comments around it.
pub open spec fn entry_text(s: Seq<char>) -> Result<((Seq<char>, ValueModel), nat), Fault> {
    let k = gap_end(s, 0);
    if !(0 <= k < s.len() && is_ident_start(s[k])) {
        Err(miss(k, Note::Context(Label::Entry)))
    } else {
        let ke = ident_end(s, k);
        let c = gap_end(s, ke);
        if !at(s, c, ':') {
            Err(within(miss(c, Note::Expected(':')), k, Label::Entry))
        } else {
            let v0 = gap_end(s, c + 1);
            match expr(s, v0) {
                Err(f) => Err(within(commit(f), k, Label::Entry)),
                Ok((v, n)) => Ok(((s.subrange(k, ke), v), gap_end(s, v0 + n) as nat)),
            }
        }
    }
}

/// A module in either form, with the whitespace and comments around it.
pub open spec fn module_text(s: Seq<char>) -> Result<(ModuleModel, nat), Fault> {
    let k = gap_end(s, 0);
    if !(0 <= k < s.len() && is_ident_start(s[k])) {
        Err(miss(k, Note::Context(Label::Module)))
    } else {
        let ke = ident_end(s, k);
        let c = gap_end(s, ke);
        if at(s, c, '{') || at(s, c, '(') {
            let brace = s[c] == '{';
            match fields(s, c + 1, Seq::empty(), if brace { ':' } else { '=' }, if brace { '}' } else { ')' }, false) {
                Ok((d, n)) => Ok((ModuleModel { typ: s.subrange(k, ke), entries: d }, gap_end(s, c + 1 + n) as nat)),
                Err(f) => Err(within(f, k, Label::Module)),
            }
        } else {
            Err(within(miss(c, Note::Expected('{')), k, Label::Module))
        }
    }
}

/// The literal `true` or `false`.
pub open spec fn bool_text(s: Seq<char>) -> Result<(bool, nat), Fault> {
    if 0 < s.len() && is_ident_start(s[0]) && s.take(ident_end(s, 0)) == true_word() {
        Ok((true, 4))
    } else if 0 < s.len() && is_ident_start(s[0]) && s.take(ident_end(s, 0)) == false_word() {
        Ok((false, 5))
    } else {
        Err(miss(0, Note::Context(Label::Value)))
    }
}

/// An integer literal.
pub open spec fn int_text(s: Seq<char>) -> Result<(int, nat), Fault> {
    match integer_token(s, 0) {
        Some((v, e)) => if fits_i64(v) {
            Ok((v, e as nat))
        } else {
            Err(within(fail(0, Note::Context(Label::IntegerOverflow)), 0, Label::Integer))
        },
        None => Err(miss(0, Note::Context(Label::Integer))),
    }
}

/// Reads an expression at the start of `input`.
pub fn parse_expr(input: &str) -> (r: Result<(&str, Value), SyntaxError>)
    ensures
        match r {
            Ok((rest, v)) => expr(input@, 0) matches Ok((m, n)) && m == value_model(v) && leaves(input@, n, rest@),
            Err(e) => expr(input@, 0) == Err::<(ValueModel, nat), Fault>(e@),
        },
{
    let s = chars_of(input);
    match expr_at(&s, 0) {
        Ok((v, e)) => Ok((input.substring_char(e, s.len()), v)),
        Err(f) => Err(f),
    }
}

/// Reads an array at the start of `input`.
pub fn parse_array(input: &str) -> (r: Result<(&str, Vec<Value>), SyntaxError>)
    ensures
        match r {
            Ok((rest, vs)) => array_text(input@) matches Ok((m, n)) && m == models(vs@) && leaves(input@, n, rest@),
            Err(e) => array_text(input@) == Err::<(Seq<ValueModel>, nat), Fault>(e@),
        },
{
    let s = chars_of(input);
    let k = skip_gap(&s, 0);
    if !(k < s.len() && s[k] == '[') {
        return Err(SyntaxError::at(k, Note::Expected('['), false).within(k, Label::Array));
    }
    match items_at(&s, k + 1, ']', false) {
        Ok((vs, e)) => {
            let t = skip_gap(&s, e);
            Ok((input.substring_char(t, s.len()), vs))
        },
        Err(f) => Err(f.within(k, Label::Array)),
    }
}

/// Reads an entry `key: value` at the start of `input`.
pub fn parse_module_entry(input: &str) -> (r: Result<(&str, (String, Value)), SyntaxError>)
    ensures
        match r {
            Ok((rest, (key, v))) => entry_text(input@) matches Ok((m, n)) && m == (key@, value_model(v))
                && leaves(input@, n, rest@),
            Err(e) => entry_text(input@) == Err::<((Seq<char>, ValueModel), nat), Fault>(e@),
        },
{
    let s = chars_of(input);
    let n = s.len();
    let k = skip_gap(&s, 0);
    if !(k < n && is_ident_start_exec(s[k])) {
        return Err(SyntaxError::at(k, Note::Context(Label::Entry), false));
    }
    let ke = scan_ident(&s, k);
    let c = skip_gap(&s, ke);
    if !(c < n && s[c] == ':') {
        return Err(SyntaxError::at(c, Note::Expected(':'), false).within(k, Label::Entry));
    }
    let v0 = skip_gap(&s, c + 1);
    match expr_at(&s, v0) {
        Ok((v, e)) => {
            let t = skip_gap(&s, e);
            Ok((input.substring_char(t, n), (text_of(&s, k, ke), v)))
        },
        Err(f) => Err(f.commit().within(k, Label::Entry)),
    }
}

/// Reads a module, in either form, at the start of `input`.
pub fn parse_module(input: &str) -> (r: Result<(&str, Module), SyntaxError>)
    ensures
        match r {
            Ok((rest, m)) => module_text(input@) matches Ok((mm, n)) && mm == m.model() && leaves(input@, n, rest@),
            Err(e) => module_text(input@) == Err::<(ModuleModel, nat), Fault>(e@),
        },
{
    let s = chars_of(input);
    let n = s.len();
    let k = skip_gap(&s, 0);
    if !(k < n && is_ident_start_exec(s[k])) {
        return Err(SyntaxError::at(k, Note::Context(Label::Module), false));
    }
    let ke = scan_ident(&s, k);
    let c = skip_gap(&s, ke);
    if !(c < n && (s[c] == '{' || s[c] == '(')) {
        return Err(SyntaxError::at(c, Note::Expected('{'), false).within(k, Label::Module));
    }
    let brace = s[c] == '{';
    let bind = if brace { ':' } else { '=' };
    let close = if brace { '}' } else { ')' };
    match fields_at(&s, c + 1, Dict::new(), bind, close, false) {
        Ok((d, e)) => {
            let t = skip_gap(&s, e);
            Ok((input.substring_char(t, n), Module { typ: text_of(&s, k, ke), entries: d }))
        },
        Err(f) => Err(f.within(k, Label::Module)),
    }
}

/// Reads the literal `true` or `false` at the start of `input`.
pub fn parse_bool(input: &str) -> (r: Result<(&str, bool), SyntaxError>)
    ensures
        match r {
            Ok((rest, b)) => bool_text(input@) matches Ok((m, n)) && m == b && leaves(input@, n, rest@),
            Err(e) => bool_text(input@) == Err::<(bool, nat), Fault>(e@),
        },
{
    let s = chars_of(input);
    let n = s.len();
    if n > 0 && is_ident_start_exec(s[0]) {
        let e = scan_ident(&s, 0);
        let t = vec!['t', 'r', 'u', 'e'];
        let f = vec!['f', 'a', 'l', 's', 'e'];
        assert(t@ =~= true_word());
        assert(f@ =~= false_word());
        assert(s@.take(e as int) =~= s@.subrange(0, e as int));
        if word_is(&s, 0, e, &t) {
            return Ok((input.substring_char(4, n), true));
        } else if word_is(&s, 0, e, &f) {
            return Ok((input.substring_char(5, n), false));
        }
    }
    Err(SyntaxError::at(0, Note::Context(Label::Value), false))
}

/// Reads an integer literal at the start of `input`.
pub fn parse_int(input: &str) -> (r: Result<(&str, i64), SyntaxError>)
    ensures
        match r {
            Ok((rest, v)) => int_text(input@) matches Ok((m, n)) && m == v as int && leaves(input@, n, rest@),
            Err(e) => int_text(input@) == Err::<(int, nat), Fault>(e@),
        },
{
    let s = chars_of(input);
    match scan_integer(&s, 0) {
        Some((Some(v), e)) => Ok((input.substring_char(e, s.len()), v)),
        Some((None, _)) => Err(SyntaxError::at(0, Note::Context(Label::IntegerOverflow), true).within(0, Label::Integer)),
        None => Err(SyntaxError::at(0, Note::Context(Label::Integer), false)),
    }
}

} // verus!
