use vstd::prelude::*;
use crate::concat::{concat_model, extend_model, is_symbolic, join_arrays, join_strs};
use crate::document::{
    blueprint_model, declaration, declarations, lemma_declaration_progress, BluePrintModel, ModuleModel, Step,
};
use crate::rules::module_text;
use crate::grammar::{fields, items, rest};
use crate::lexer::{at, fits_i64, gap_end, block_tail, is_space, line_tail, lemma_gap_ge};
use crate::value::{dict_get, dict_insert, find_key, keys_unique, lemma_find_key, ValueModel};

verus! {

/// Parsing is a function of the text: the same text always gives the same
/// blueprint, or the same failure.
pub proof fn parse_is_deterministic(a: Seq<char>, b: Seq<char>)
    requires
        a == b,
    ensures
        blueprint_model(a) == blueprint_model(b),
{
}

/// `a + b` on two strings is one string: their texts joined.
pub proof fn concat_of_strings(a: Seq<char>, b: Seq<char>)
    ensures
        concat_model(seq![ValueModel::Str(a), ValueModel::Str(b)]) == Ok::<ValueModel, crate::error::Label>(
            ValueModel::Str(a + b),
        ),
{
    let ops = seq![ValueModel::Str(a), ValueModel::Str(b)];
    assert(!is_symbolic(ops[0]) && !is_symbolic(ops[1]));
    assert(ops.drop_last() =~= seq![ValueModel::Str(a)]);
    assert(ops.drop_last().drop_last() =~= Seq::<ValueModel>::empty());
    assert(join_strs(ops.drop_last().drop_last()) =~= Seq::<char>::empty());
    assert(join_strs(ops.drop_last()) =~= a);
    assert(join_strs(ops) =~= a + b);
}

/// `a + b` on two arrays is one array: the elements of `a`, then those of `b`.
pub proof fn concat_of_arrays(a: Seq<ValueModel>, b: Seq<ValueModel>)
    ensures
        concat_model(seq![ValueModel::Array(a), ValueModel::Array(b)])
            == Ok::<ValueModel, crate::error::Label>(ValueModel::Array(a + b)),
{
    let ops = seq![ValueModel::Array(a), ValueModel::Array(b)];
    assert(!is_symbolic(ops[0]) && !is_symbolic(ops[1]));
    assert(ops.drop_last() =~= seq![ValueModel::Array(a)]);
    assert(ops.drop_last().drop_last() =~= Seq::<ValueModel>::empty());
    assert(join_arrays(ops.drop_last().drop_last()) =~= Seq::<ValueModel>::empty());
    assert(join_arrays(ops.drop_last()) =~= a);
    assert(join_arrays(ops) =~= a + b);
}

/// A chain of two or more operands with a name or a call among them is kept
/// as written: every operand, in order.
pub proof fn concat_keeps_symbolic_chains(ops: Seq<ValueModel>, k: int)
    requires
        ops.len() >= 2,
        0 <= k < ops.len(),
        ops[k] is Ident || ops[k] is Call,
    ensures
        concat_model(ops) == Ok::<ValueModel, crate::error::Label>(ValueModel::Concat(ops)),
{
    assert(is_symbolic(ops[k]));
}

/// `x += n` on an integer variable adds (when the sum fits in 64 bits).
pub proof fn extend_adds_integers(a: int, b: int)
    requires
        fits_i64(a + b),
    ensures
        extend_model(ValueModel::Int(a), ValueModel::Int(b)) == Ok::<ValueModel, crate::error::Label>(
            ValueModel::Int(a + b),
        ),
{
}

/// `x += v` on strings and arrays follows the rule of `+`.
pub proof fn extend_is_concat(old: ValueModel, new: ValueModel)
    requires
        old is Str || old is Array,
        new is Str || new is Array,
    ensures
        extend_model(old, new) == concat_model(seq![old, new]),
{
}

/// Storing under a key keeps its entry the only one under that key, and
/// the last value stored is the one read back.
pub proof fn last_write_wins<V>(d: Seq<(Seq<char>, V)>, key: Seq<char>, first: V, second: V)
    requires
        keys_unique(d),
    ensures
        keys_unique(dict_insert(dict_insert(d, key, first), key, second)),
        dict_get(dict_insert(dict_insert(d, key, first), key, second), key) == Some(second),
{
    lemma_insert_unique(d, key, first);
    lemma_insert_unique(dict_insert(d, key, first), key, second);
}

proof fn lemma_insert_unique<V>(d: Seq<(Seq<char>, V)>, key: Seq<char>, value: V)
    requires
        keys_unique(d),
    ensures
        keys_unique(dict_insert(d, key, value)),
        dict_get(dict_insert(d, key, value), key) == Some(value),
{
    lemma_find_key(d, key);
    let e = dict_insert(d, key, value);
    lemma_find_key(e, key);
    if find_key(d, key) < 0 {
        assert forall|a: int| 0 <= a < d.len() implies d[a].0 != key by {
            assert(find_key(d, key) < a);
        }
        assert(e.last().0 == key);
    } else {
        let k = find_key(d, key);
        assert forall|a: int| k < a < e.len() implies e[a].0 != key by {
            assert(e[a] == d[a]);
        }
        assert(e[k].0 == key);
        assert(find_key(e, key) == k);
    }
}

/// The entries of a dictionary or a module read from text never share a
/// key: a later entry under a key replaces the earlier one.
pub proof fn parsed_entries_are_unique(
    s: Seq<char>,
    p: int,
    acc: Seq<(Seq<char>, ValueModel)>,
    bind: char,
    close: char,
    after_comma: bool,
)
    requires
        keys_unique(acc),
    ensures
        fields(s, p, acc, bind, close, after_comma) matches Ok((d, _)) ==> keys_unique(d),
    decreases rest(s, p),
{
    if p >= 0 {
        let k = gap_end(s, p);
        lemma_gap_ge(s, p);
        if !(at(s, k, close) && (!after_comma || close != ')')) && 0 <= k < s.len() {
            let ke = crate::lexer::ident_end(s, k);
            crate::lexer::lemma_ident_bounds(s, k);
            let c = gap_end(s, ke);
            lemma_gap_ge(s, ke);
            let v0 = gap_end(s, c + 1);
            lemma_gap_ge(s, c + 1);
            if crate::lexer::is_ident_start(s[k]) && at(s, c, bind) {
                if let Ok((v, n)) = crate::grammar::expr(s, v0) {
                    let t = gap_end(s, v0 + n);
                    lemma_gap_ge(s, v0 + n);
                    let acc2 = dict_insert(acc, s.subrange(k, ke), v);
                    lemma_insert_unique(acc, s.subrange(k, ke), v);
                    if at(s, t, ',') {
                        parsed_entries_are_unique(s, t + 1, acc2, bind, close, true);
                    }
                }
            }
        }
    }
}

/// After a comma, whitespace or comments and then the closing bracket, an
/// array ends with no further element (so `[a, b,]` reads as `[a, b]`).
pub proof fn trailing_comma_ends_array(s: Seq<char>, t: int)
    requires
        0 <= t,
        at(s, t, ','),
        at(s, gap_end(s, t + 1), ']'),
    ensures
        items(s, t + 1, ']', true) matches Ok((vs, _)) && vs.len() == 0,
{
}

/// After a comma, whitespace or comments and then the closing brace, a
/// dictionary or a module ends with the entries read so far.
pub proof fn trailing_comma_ends_dict(s: Seq<char>, t: int, acc: Seq<(Seq<char>, ValueModel)>)
    requires
        0 <= t,
        at(s, t, ','),
        at(s, gap_end(s, t + 1), '}'),
    ensures
        fields(s, t + 1, acc, ':', '}', true) matches Ok((d, _)) && d == acc,
{
}

/// A line comment is skipped like whitespace: the gap that starts with it
/// ends where the gap after its line ends.
pub proof fn line_comment_is_skipped(s: Seq<char>, i: int, j: int)
    requires
        0 <= i,
        i + 2 <= j < s.len(),
        at(s, i, '/'),
        at(s, i + 1, '/'),
        s[j] == '\n',
        forall|m: int| i + 2 <= m < j ==> s[m] != '\n',
    ensures
        gap_end(s, i) == gap_end(s, j + 1),
    decreases j - i,
{
    lemma_line_tail_to(s, i + 2, j);
}

proof fn lemma_line_tail_to(s: Seq<char>, m: int, j: int)
    requires
        0 <= m <= j < s.len(),
        s[j] == '\n',
        forall|x: int| m <= x < j ==> s[x] != '\n',
    ensures
        line_tail(s, m) == gap_end(s, j + 1),
    decreases j - m,
{
    if m < j {
        lemma_line_tail_to(s, m + 1, j);
    }
}

/// A closed block comment is skipped like whitespace: the gap that starts
/// with it ends where the gap after its first `*/` ends.
pub proof fn block_comment_is_skipped(s: Seq<char>, i: int, j: int)
    requires
        0 <= i,
        i + 2 <= j,
        j + 1 < s.len(),
        at(s, i, '/'),
        at(s, i + 1, '*'),
        s[j] == '*' && s[j + 1] == '/',
        forall|m: int| i + 2 <= m < j ==> !(#[trigger] s[m] == '*' && s[m + 1] == '/'),
    ensures
        gap_end(s, i) == gap_end(s, j + 2),
{
    lemma_block_tail_to(s, i + 2, j, i);
}

proof fn lemma_block_tail_to(s: Seq<char>, m: int, j: int, start: int)
    requires
        0 <= m <= j,
        j + 1 < s.len(),
        s[j] == '*' && s[j + 1] == '/',
        forall|x: int| m <= x < j ==> !(#[trigger] s[x] == '*' && s[x + 1] == '/'),
    ensures
        block_tail(s, m, start) == gap_end(s, j + 2),
    decreases j - m,
{
    if m < j {
        lemma_block_tail_to(s, m + 1, j, start);
    }
}

/// Where the type name of a module text starts, ends, and what follows it.
pub open spec fn module_head(s: Seq<char>) -> (int, int, int) {
    let k = gap_end(s, 0);
    let ke = crate::lexer::ident_end(s, k);
    (k, ke, gap_end(s, ke))
}

/// The brace form `name { key: value, ... }` and the call form
/// `name(key = value, ...)` of a module give the same module when they name
/// the same type and their attributes read the same.
pub proof fn module_forms_agree(brace: Seq<char>, call: Seq<char>)
    requires
        ({
            let (k1, e1, c1) = module_head(brace);
            let (k2, e2, c2) = module_head(call);
            &&& 0 <= k1 < brace.len() && crate::lexer::is_ident_start(brace[k1])
            &&& 0 <= k2 < call.len() && crate::lexer::is_ident_start(call[k2])
            &&& brace.subrange(k1, e1) == call.subrange(k2, e2)
            &&& at(brace, c1, '{')
            &&& at(call, c2, '(')
            &&& fields(brace, c1 + 1, Seq::empty(), ':', '}', false) matches Ok((d1, _))
            &&& fields(call, c2 + 1, Seq::empty(), '=', ')', false) matches Ok((d2, _))
            &&& d1 == d2
        }),
    ensures
        module_text(brace) matches Ok((m1, _)) && module_text(call) matches Ok((m2, _)) && m1 == m2,
{
}

/// No module and no variable mapping of a parsed blueprint holds two
/// entries under one key: a later write replaces the earlier.
pub proof fn parsed_blueprint_keys_are_unique(s: Seq<char>)
    ensures
        blueprint_model(s) matches Ok(bp) ==> keys_unique(bp.variables) && forall|m: int|
            0 <= m < bp.modules.len() ==> keys_unique(#[trigger] bp.modules[m].entries),
{
    lemma_declarations_unique(s, 0, BluePrintModel { variables: Seq::empty(), modules: Seq::empty() });
}

pub open spec fn blueprint_keys_unique(doc: BluePrintModel) -> bool {
    keys_unique(doc.variables) && forall|m: int|
        0 <= m < doc.modules.len() ==> keys_unique(#[trigger] doc.modules[m].entries)
}

proof fn lemma_declarations_unique(s: Seq<char>, i: int, doc: BluePrintModel)
    requires
        blueprint_keys_unique(doc),
    ensures
        declarations(s, i, doc) matches Ok(bp) ==> blueprint_keys_unique(bp),
    decreases rest(s, i),
{
    if i >= 0 {
        lemma_declaration_progress(s, i, doc);
        if let Step::Continue(next, j) = declaration(s, i, doc) {
            lemma_declaration_unique(s, i, doc);
            lemma_declarations_unique(s, j, next);
        }
    }
}

proof fn lemma_declaration_unique(s: Seq<char>, i: int, doc: BluePrintModel)
    requires
        blueprint_keys_unique(doc),
    ensures
        declaration(s, i, doc) matches Step::Continue(next, _) ==> blueprint_keys_unique(next),
{
    let k = gap_end(s, i);
    if k < s.len() && 0 <= k && crate::lexer::is_ident_start(s[k]) {
        let ke = crate::lexer::ident_end(s, k);
        let name = s.subrange(k, ke);
        let c = gap_end(s, ke);
        if at(s, c, '{') || at(s, c, '(') {
            let brace = s[c] == '{';
            let bind = if brace { ':' } else { '=' };
            let close = if brace { '}' } else { ')' };
            parsed_entries_are_unique(s, c + 1, Seq::empty(), bind, close, false);
            if let Ok((d, n)) = fields(s, c + 1, Seq::empty(), bind, close, false) {
                let mods = doc.modules.push(ModuleModel { typ: name, entries: d });
                assert forall|m: int| 0 <= m < mods.len() implies keys_unique(#[trigger] mods[m].entries) by {
                    if m < doc.modules.len() {
                        assert(mods[m] == doc.modules[m]);
                    }
                }
            }
        } else if at(s, c, '=') {
            if let Ok((v, n)) = crate::grammar::expr(s, gap_end(s, c + 1)) {
                lemma_insert_unique(doc.variables, name, v);
            }
        } else if at(s, c, '+') && at(s, c + 1, '=') {
            if let Ok((v, n)) = crate::grammar::expr(s, gap_end(s, c + 2)) {
                if let Some(old) = dict_get(doc.variables, name) {
                    if let Ok(m) = extend_model(old, v) {
                        lemma_insert_unique(doc.variables, name, m);
                    }
                }
            }
        }
    }
}

/// `c` is a line comment, its newline included.
pub open spec fn is_line_comment(c: Seq<char>) -> bool {
    &&& c.len() >= 3
    &&& c[0] == '/' && c[1] == '/'
    &&& c.last() == '\n'
    &&& forall|m: int| 2 <= m < c.len() - 1 ==> c[m] != '\n'
}

/// `c` is a block comment, closed by its first `*/`.
pub open spec fn is_block_comment(c: Seq<char>) -> bool {
    &&& c.len() >= 4
    &&& c[0] == '/' && c[1] == '*'
    &&& c[c.len() - 2] == '*' && c[c.len() - 1] == '/'
    &&& forall|m: int| 2 <= m < c.len() - 2 ==> !(#[trigger] c[m] == '*' && c[m + 1] == '/')
}

proof fn lemma_gap_prefix(p: Seq<char>, t: Seq<char>, i: int)
    requires
        0 <= i,
    ensures
        gap_end(p + t, p.len() + i) == p.len() + gap_end(t, i),
    decreases t.len() - i, 2int,
{
    let s = p + t;
    if i < t.len() {
        assert(s[p.len() + i] == t[i]);
        if i + 1 < t.len() {
            assert(s[p.len() + i + 1] == t[i + 1]);
        }
        if is_space(t[i]) {
            lemma_gap_prefix(p, t, i + 1);
        } else if t[i] == '/' && at(t, i + 1, '/') {
            lemma_line_prefix(p, t, i + 2);
        } else if t[i] == '/' && at(t, i + 1, '*') {
            lemma_block_prefix(p, t, i + 2, i);
        }
    }
}

proof fn lemma_line_prefix(p: Seq<char>, t: Seq<char>, j: int)
    requires
        0 <= j,
    ensures
        line_tail(p + t, p.len() + j) == p.len() + line_tail(t, j),
    decreases t.len() - j, 1int,
{
    let s = p + t;
    if j < t.len() {
        assert(s[p.len() + j] == t[j]);
        if t[j] == '\n' {
            lemma_gap_prefix(p, t, j + 1);
        } else {
            lemma_line_prefix(p, t, j + 1);
        }
    }
}

proof fn lemma_block_prefix(p: Seq<char>, t: Seq<char>, j: int, start: int)
    requires
        0 <= j,
    ensures
        block_tail(p + t, p.len() + j, p.len() + start) == p.len() + block_tail(t, j, start),
    decreases t.len() - j, 0int,
{
    let s = p + t;
    if j + 1 < t.len() {
        assert(s[p.len() + j] == t[j]);
        assert(s[p.len() + j + 1] == t[j + 1]);
        if t[j] == '*' && t[j + 1] == '/' {
            lemma_gap_prefix(p, t, j + 2);
        } else {
            lemma_block_prefix(p, t, j + 1, start);
        }
    }
}

/// A comment put where a run of whitespace and comments may start is
/// skipped with it: the run ends where it ended before, moved by the
/// comment's length.
pub proof fn inserted_comment_is_skipped(s: Seq<char>, c: Seq<char>, q: int)
    requires
        0 <= q <= s.len(),
        is_line_comment(c) || is_block_comment(c),
    ensures
        gap_end(s.take(q) + c + s.skip(q), q) == gap_end(s, q) + c.len(),
{
    let pre = s.take(q);
    let post = s.skip(q);
    let s2 = pre + c + post;
    assert(s =~= pre + post);
    lemma_gap_prefix(pre, post, 0);
    lemma_gap_prefix(pre + c, post, 0);
    assert forall|m: int| 0 <= m < c.len() implies s2[q + m] == c[m] by {}
    if is_line_comment(c) {
        assert forall|m: int| q + 2 <= m < q + c.len() - 1 implies s2[m] != '\n' by {
            assert(s2[m] == c[m - q]);
        }
        line_comment_is_skipped(s2, q, q + c.len() - 1);
    } else {
        assert forall|m: int| q + 2 <= m < q + c.len() - 2 implies !(#[trigger] s2[m] == '*' && s2[m + 1] == '/') by {
            assert(s2[m] == c[m - q]);
            assert(s2[m + 1] == c[m - q + 1]);
        }
        block_comment_is_skipped(s2, q, q + c.len() - 2);
    }
}

} // verus!
