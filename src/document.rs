use vstd::prelude::*;
use crate::concat::{extend_model, extend_value};
use crate::error::{commit, fail, within, Fault, Label, Note, SyntaxError};
use crate::grammar::{expr, expr_at, fields, fields_at, rest};
use crate::lexer::{
    at, gap_end, ident_end, is_ident_start, is_ident_start_exec, lemma_gap_ge, lemma_ident_bounds,
    scan_ident, skip_gap,
};
use crate::diagnostics::{diagnostic, format_err};
use crate::text::{chars_of, same_text, text_of};
use crate::value::{dict_get, dict_insert, lemma_find_key, value_model, models, Dict, Value, ValueModel};

verus! {

/// A module as a mathematical object: its type name and its attributes.
pub struct ModuleModel {
    pub typ: Seq<char>,
    pub entries: Seq<(Seq<char>, ValueModel)>,
}

/// A parsed file as a mathematical object: its variables and its modules in
/// the order they were declared.
pub struct BluePrintModel {
    pub variables: Seq<(Seq<char>, ValueModel)>,
    pub modules: Seq<ModuleModel>,
}

/// A module in a blueprint file: a typed block of attributes.
#[derive(Debug, PartialEq, Eq)]
pub struct Module {
    pub typ: String,
    pub entries: Dict,
}

/// A blueprint file.
#[derive(Debug, PartialEq, Eq)]
pub struct BluePrint {
    /// Variables, set at the top level with `name = value` or `name += value`.
    pub variables: Dict,
    /// All modules, in the order they were declared.
    pub modules: Vec<Module>,
}

impl Module {
    pub open spec fn model(&self) -> ModuleModel {
        ModuleModel { typ: self.typ@, entries: self.entries.model() }
    }
}

pub open spec fn module_models(ms: Seq<Module>) -> Seq<ModuleModel> {
    Seq::new(ms.len(), |k: int| ms[k].model())
}

impl BluePrint {
    pub open spec fn model(&self) -> BluePrintModel {
        BluePrintModel { variables: self.variables.model(), modules: module_models(self.modules@) }
    }
}

pub open spec fn empty_blueprint() -> BluePrintModel {
    BluePrintModel { variables: Seq::empty(), modules: Seq::empty() }
}

/// What one declaration at `i` (after whitespace and comments) does to
/// `doc`.
pub enum Step {
    /// Nothing but whitespace and comments is left.
    Finished,
    /// The declaration ends at the position given; this is the new document.
    Continue(BluePrintModel, int),
    /// The declaration is malformed.
    Stop(Fault),
}

/// One declaration at `i`: a module (`name { key: value, ... }` or
/// `name(key = value, ...)`), a definition (`name = value`) or an extension
/// (`name += value`).
pub open spec fn declaration(s: Seq<char>, i: int, doc: BluePrintModel) -> Step {
    let k = gap_end(s, i);
    if k >= s.len() {
        Step::Finished
    } else if !(0 <= k && is_ident_start(s[k])) {
        Step::Stop(fail(k, Note::Context(Label::TrailingInput)))
    } else {
        let ke = ident_end(s, k);
        let name = s.subrange(k, ke);
        let c = gap_end(s, ke);
        if at(s, c, '{') || at(s, c, '(') {
            let brace = s[c] == '{';
            match fields(s, c + 1, Seq::empty(), if brace { ':' } else { '=' }, if brace { '}' } else { ')' }, false) {
                Ok((d, n)) => Step::Continue(
                    BluePrintModel {
                        variables: doc.variables,
                        modules: doc.modules.push(ModuleModel { typ: name, entries: d }),
                    },
                    c + 1 + n,
                ),
                Err(f) => Step::Stop(within(f, k, Label::Module)),
            }
        } else if at(s, c, '=') {
            let v0 = gap_end(s, c + 1);
            match expr(s, v0) {
                Ok((v, n)) => Step::Continue(
                    BluePrintModel { variables: dict_insert(doc.variables, name, v), modules: doc.modules },
                    v0 + n,
                ),
                Err(f) => Step::Stop(within(commit(f), k, Label::Define)),
            }
        } else if at(s, c, '+') && at(s, c + 1, '=') {
            let v0 = gap_end(s, c + 2);
            match expr(s, v0) {
                Err(f) => Step::Stop(within(commit(f), k, Label::Extend)),
                Ok((v, n)) => match dict_get(doc.variables, name) {
                    None => Step::Stop(within(fail(k, Note::Context(Label::UndefinedVariable)), k, Label::Extend)),
                    Some(old) => match extend_model(old, v) {
                        Ok(m) => Step::Continue(
                            BluePrintModel { variables: dict_insert(doc.variables, name, m), modules: doc.modules },
                            v0 + n,
                        ),
                        Err(l) => Step::Stop(within(fail(v0, Note::Context(l)), k, Label::Extend)),
                    },
                },
            }
        } else {
            Step::Stop(fail(k, Note::Context(Label::TrailingInput)))
        }
    }
}

/// A declaration that goes on ends past where it started.
pub proof fn lemma_declaration_progress(s: Seq<char>, i: int, doc: BluePrintModel)
    requires
        0 <= i,
    ensures
        declaration(s, i, doc) matches Step::Continue(_, j) ==> i < s.len() && i < j,
{
    lemma_gap_ge(s, i);
    let k = gap_end(s, i);
    if k < s.len() && 0 <= k && is_ident_start(s[k]) {
        lemma_ident_bounds(s, k);
        let ke = ident_end(s, k);
        lemma_gap_ge(s, ke);
        let c = gap_end(s, ke);
        lemma_gap_ge(s, c + 1);
        lemma_gap_ge(s, c + 2);
    }
}

/// The declarations from `i` to the end of the input, applied to `doc` in
/// turn.
pub open spec fn declarations(s: Seq<char>, i: int, doc: BluePrintModel) -> Result<BluePrintModel, Fault>
    decreases rest(s, i),
{
    if i < 0 {
        Ok(doc)
    } else {
        proof {
            lemma_declaration_progress(s, i, doc);
        }
        match declaration(s, i, doc) {
            Step::Finished => Ok(doc),
            Step::Stop(f) => Err(f),
            Step::Continue(next, j) => declarations(s, j, next),
        }
    }
}

/// The blueprint that the text `s` describes, or the failure that stops it.
pub open spec fn blueprint_model(s: Seq<char>) -> Result<BluePrintModel, Fault> {
    declarations(s, 0, empty_blueprint())
}

/// Reads the declaration at `i` into `variables` and `modules`: `None` when
/// nothing is left to read, else where it ends.
fn declaration_at(
    s: &Vec<char>,
    i: usize,
    variables: &mut Dict,
    modules: &mut Vec<Module>,
) -> (r: Result<Option<usize>, SyntaxError>)
    requires
        i <= s.len(),
    ensures
        ({
            let doc = BluePrintModel { variables: old(variables).model(), modules: module_models(old(modules)@) };
            let after = BluePrintModel { variables: final(variables).model(), modules: module_models(final(modules)@) };
            match r {
                Ok(None) => declaration(s@, i as int, doc) == Step::Finished && after == doc,
                Ok(Some(j)) => declaration(s@, i as int, doc) == Step::Continue(after, j as int) && j <= s.len(),
                Err(f) => declaration(s@, i as int, doc) == Step::Stop(f@),
            }
        }),
{
    let n = s.len();
    let k = skip_gap(s, i);
    if k >= n {
        return Ok(None);
    }
    if !is_ident_start_exec(s[k]) {
        return Err(SyntaxError::at(k, Note::Context(Label::TrailingInput), true));
    }
    let ke = scan_ident(s, k);
    let c = skip_gap(s, ke);
    if c < n && (s[c] == '{' || s[c] == '(') {
        let brace = s[c] == '{';
        let bind = if brace { ':' } else { '=' };
        let close = if brace { '}' } else { ')' };
        match fields_at(s, c + 1, Dict::new(), bind, close, false) {
            Ok((d, e)) => {
                let ghost before = modules@;
                let m = Module { typ: text_of(s, k, ke), entries: d };
                let ghost mm = m.model();
                modules.push(m);
                assert(module_models(modules@) =~= module_models(before).push(mm));
                Ok(Some(e))
            },
            Err(f) => Err(f.within(k, Label::Module)),
        }
    } else if c < n && s[c] == '=' {
        let v0 = skip_gap(s, c + 1);
        match expr_at(s, v0) {
            Ok((v, e)) => {
                variables.insert(text_of(s, k, ke), v);
                Ok(Some(e))
            },
            Err(f) => Err(f.commit().within(k, Label::Define)),
        }
    } else if c < n && n - c >= 2 && s[c] == '+' && s[c + 1] == '=' {
        let v0 = skip_gap(s, c + 2);
        let (v, e) = match expr_at(s, v0) {
            Ok(x) => x,
            Err(f) => return Err(f.commit().within(k, Label::Extend)),
        };
        let name = text_of(s, k, ke);
        match variables.find(name.as_str()) {
            None => Err(SyntaxError::at(k, Note::Context(Label::UndefinedVariable), true).within(k, Label::Extend)),
            Some(idx) => {
                let ghost d = variables.model();
                proof {
                    lemma_find_key(d, name@);
                }
                let (key, old) = variables.0.remove(idx);
                assert(value_model(old) == d[idx as int].1);
                assert(key@ == name@);
                match extend_value(old, v) {
                    Ok(merged) => {
                        let ghost mm = value_model(merged);
                        variables.0.insert(idx, (key, merged));
                        assert(variables.model() =~= d.update(idx as int, (name@, mm)));
                        Ok(Some(e))
                    },
                    Err(l) => Err(SyntaxError::at(v0, Note::Context(l), true).within(k, Label::Extend)),
                }
            },
        }
    } else {
        Err(SyntaxError::at(k, Note::Context(Label::TrailingInput), true))
    }
}

/// Reads the whole input as a blueprint.
pub(crate) fn parse_chars(s: &Vec<char>) -> (r: Result<BluePrint, SyntaxError>)
    ensures
        match r {
            Ok(bp) => blueprint_model(s@) == Ok::<BluePrintModel, Fault>(bp.model()),
            Err(f) => blueprint_model(s@) == Err::<BluePrintModel, Fault>(f@),
        },
{
    let mut variables = Dict::new();
    let mut modules: Vec<Module> = Vec::new();
    let mut i: usize = 0;
    assert(module_models(modules@) =~= Seq::<ModuleModel>::empty());
    loop
        invariant
            i <= s.len(),
            blueprint_model(s@) == declarations(
                s@,
                i as int,
                BluePrintModel { variables: variables.model(), modules: module_models(modules@) },
            ),
        decreases rest(s@, i as int),
    {
        proof {
            lemma_declaration_progress(
                s@,
                i as int,
                BluePrintModel { variables: variables.model(), modules: module_models(modules@) },
            );
        }
        match declaration_at(s, i, &mut variables, &mut modules) {
            Ok(None) => {
                let bp = BluePrint { variables, modules };
                return Ok(bp);
            },
            Ok(Some(j)) => {
                i = j;
            },
            Err(f) => {
                return Err(f);
            },
        }
    }
}

impl Module {
    /// The value of the attribute `key`, if the module has one.
    pub fn get(&self, key: &str) -> (r: Option<&Value>)
        ensures
            match r {
                Some(v) => dict_get(self.model().entries, key@) == Some(value_model(*v)),
                None => dict_get(self.model().entries, key@) is None,
            },
    {
        self.entries.get(key)
    }

    /// The attribute `key`, if it holds a string.
    pub fn get_string(&self, key: &str) -> (r: Option<&String>)
        ensures
            match r {
                Some(t) => dict_get(self.model().entries, key@) == Some(ValueModel::Str(t@)),
                None => !(dict_get(self.model().entries, key@) matches Some(ValueModel::Str(_))),
            },
    {
        match self.get(key) {
            Some(Value::String(t)) => Some(t),
            _ => None,
        }
    }

    /// The attribute `key`, if it holds a boolean.
    pub fn get_bool(&self, key: &str) -> (r: Option<bool>)
        ensures
            match r {
                Some(b) => dict_get(self.model().entries, key@) == Some(ValueModel::Bool(b)),
                None => !(dict_get(self.model().entries, key@) matches Some(ValueModel::Bool(_))),
            },
    {
        match self.get(key) {
            Some(Value::Boolean(b)) => Some(*b),
            _ => None,
        }
    }

    /// The attribute `key`, if it holds an array.
    pub fn get_array(&self, key: &str) -> (r: Option<&Vec<Value>>)
        ensures
            match r {
                Some(a) => dict_get(self.model().entries, key@) == Some(ValueModel::Array(models(a@))),
                None => !(dict_get(self.model().entries, key@) matches Some(ValueModel::Array(_))),
            },
    {
        match self.get(key) {
            Some(Value::Array(a)) => Some(a),
            _ => None,
        }
    }

    /// The attribute `key`, if it holds a dictionary.
    pub fn get_map(&self, key: &str) -> (r: Option<&Dict>)
        ensures
            match r {
                Some(d) => dict_get(self.model().entries, key@) == Some(ValueModel::Dict(d.model())),
                None => !(dict_get(self.model().entries, key@) matches Some(ValueModel::Dict(_))),
            },
    {
        match self.get(key) {
            Some(Value::Dict(d)) => Some(d),
            _ => None,
        }
    }

    /// The attribute `key`, if it holds an identifier.
    pub fn get_ident(&self, key: &str) -> (r: Option<&String>)
        ensures
            match r {
                Some(t) => dict_get(self.model().entries, key@) == Some(ValueModel::Ident(t@)),
                None => !(dict_get(self.model().entries, key@) matches Some(ValueModel::Ident(_))),
            },
    {
        match self.get(key) {
            Some(Value::Ident(t)) => Some(t),
            _ => None,
        }
    }
}

/// The modules of `ms` whose type is `typ`, in order.
pub open spec fn of_type(ms: Seq<ModuleModel>, typ: Seq<char>) -> Seq<ModuleModel> {
    ms.filter(|m: ModuleModel| m.typ == typ)
}

impl BluePrint {
    /// Parses a blueprint file from its text. On failure the message names
    /// the line, the column and the rules that were being read.
    pub fn parse(input: &str) -> (r: Result<BluePrint, String>)
        ensures
            match r {
                Ok(bp) => blueprint_model(input@) == Ok::<BluePrintModel, Fault>(bp.model()),
                Err(msg) => blueprint_model(input@) matches Err(f) && msg@ == diagnostic(input@, f.trace),
            },
    {
        let s = chars_of(input);
        match parse_chars(&s) {
            Ok(bp) => Ok(bp),
            Err(e) => Err(format_err(input, &s, &e)),
        }
    }

    /// The modules whose type is `typ`, in the order they were declared.
    pub fn modules_by_type(&self, typ: &str) -> (r: Vec<&Module>)
        ensures
            Seq::new(r@.len(), |k: int| r@[k].model()) == of_type(self.model().modules, typ@),
    {
        let ghost ms = self.model().modules;
        let ghost pred = |m: ModuleModel| m.typ == typ@;
        let mut r: Vec<&Module> = Vec::new();
        let mut k: usize = 0;
        proof {
            reveal(Seq::filter);
            assert(ms.take(0).filter(pred) =~= Seq::<ModuleModel>::empty());
        }
        while k < self.modules.len()
            invariant
                k <= self.modules.len() == ms.len(),
                ms == self.model().modules,
                pred == (|m: ModuleModel| m.typ == typ@),
                Seq::new(r@.len(), |j: int| r@[j].model()) == ms.take(k as int).filter(pred),
            decreases self.modules.len() - k,
        {
            let m = &self.modules[k];
            let ghost before = Seq::new(r@.len(), |j: int| r@[j].model());
            proof {
                assert(ms.take(k + 1) =~= ms.take(k as int).push(m.model()));
                ms.take(k as int).lemma_filter_push(m.model(), pred);
            }
            if same_text(m.typ.as_str(), typ) {
                r.push(m);
                assert(Seq::new(r@.len(), |j: int| r@[j].model()) =~= before.push(m.model()));
            }
            k += 1;
        }
        assert(ms.take(ms.len() as int) =~= ms);
        r
    }
}

impl Clone for Module {
    fn clone(&self) -> (r: Module)
        ensures
            r.model() == self.model(),
    {
        Module { typ: self.typ.clone(), entries: self.entries.clone() }
    }
}

impl Clone for BluePrint {
    fn clone(&self) -> (r: BluePrint)
        ensures
            r.model() == self.model(),
    {
        let mut modules: Vec<Module> = Vec::new();
        let mut k: usize = 0;
        while k < self.modules.len()
            invariant
                k <= self.modules.len(),
                modules@.len() == k,
                forall|j: int| 0 <= j < k ==> (#[trigger] modules@[j]).model() == self.modules@[j].model(),
            decreases self.modules.len() - k,
        {
            modules.push(self.modules[k].clone());
            k += 1;
        }
        let r = BluePrint { variables: self.variables.clone(), modules };
        assert(module_models(r.modules@) =~= module_models(self.modules@));
        r
    }
}

} // verus!
