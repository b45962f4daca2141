use vstd::prelude::*;
use crate::text::same_text;

verus! {

/// What a parsed value stands for, as a mathematical object.
pub enum ValueModel {
    Str(Seq<char>),
    Int(int),
    Bool(bool),
    Array(Seq<ValueModel>),
    Dict(Seq<(Seq<char>, ValueModel)>),
    Ident(Seq<char>),
    Call(Seq<char>, Seq<ValueModel>),
    Concat(Seq<ValueModel>),
}

/// A value in a blueprint file.
#[derive(Debug, PartialEq, Eq)]
pub enum Value {
    String(String),
    Integer(i64),
    Array(Vec<Value>),
    Boolean(bool),
    Dict(Dict),
    Ident(String),
    ConcatExpr(Vec<Value>),
    Function(Function),
}

/// A call-shaped expression, kept as written.
#[derive(Debug, PartialEq, Eq)]
pub struct Function {
    pub name: String,
    pub args: Vec<Value>,
}

/// A dictionary: entries in the order their keys first appeared, each key once.
#[derive(Debug, PartialEq, Eq)]
pub struct Dict(pub Vec<(String, Value)>);

/// The model of each value of a sequence, in order.
pub open spec fn models(vs: Seq<Value>) -> Seq<ValueModel>
    decreases vs,
{
    Seq::new(vs.len(), |i: int| if 0 <= i < vs.len() { value_model(vs[i]) } else { ValueModel::Bool(false) })
}

/// The model of each entry of a dictionary, in order.
pub open spec fn entry_models(es: Seq<(String, Value)>) -> Seq<(Seq<char>, ValueModel)>
    decreases es,
{
    Seq::new(es.len(), |i: int| if 0 <= i < es.len() { (es[i].0@, value_model(es[i].1)) } else { (Seq::empty(), ValueModel::Bool(false)) })
}

/// What a value stands for.
pub open spec fn value_model(v: Value) -> ValueModel
    decreases v,
{
    match v {
        Value::String(s) => ValueModel::Str(s@),
        Value::Integer(n) => ValueModel::Int(n as int),
        Value::Boolean(b) => ValueModel::Bool(b),
        Value::Ident(s) => ValueModel::Ident(s@),
        Value::Array(a) => ValueModel::Array(models(a@)),
        Value::ConcatExpr(a) => ValueModel::Concat(models(a@)),
        Value::Function(f) => ValueModel::Call(f.name@, models(f.args@)),
        Value::Dict(m) => ValueModel::Dict(entry_models(m.0@)),
    }
}

/// The index of the last entry of `d` under `key`, or -1 if there is none.
pub open spec fn find_key<V>(d: Seq<(Seq<char>, V)>, key: Seq<char>) -> int
    decreases d.len(),
{
    if d.len() == 0 {
        -1
    } else if d.last().0 == key {
        d.len() - 1
    } else {
        find_key(d.drop_last(), key)
    }
}

/// The value stored under `key`: that of its last entry.
pub open spec fn dict_get<V>(d: Seq<(Seq<char>, V)>, key: Seq<char>) -> Option<V> {
    let k = find_key(d, key);
    if k >= 0 {
        Some(d[k].1)
    } else {
        None
    }
}

/// `d` with `value` stored under `key`: an entry already under `key` has its
/// value replaced in place; otherwise the entry is added at the end.
pub open spec fn dict_insert<V>(d: Seq<(Seq<char>, V)>, key: Seq<char>, value: V) -> Seq<(Seq<char>, V)> {
    let k = find_key(d, key);
    if k >= 0 {
        d.update(k, (key, value))
    } else {
        d.push((key, value))
    }
}

/// No two entries of `d` share a key.
pub open spec fn keys_unique<V>(d: Seq<(Seq<char>, V)>) -> bool {
    forall|a: int, b: int| 0 <= a < b < d.len() ==> d[a].0 != d[b].0
}

pub proof fn lemma_find_key<V>(d: Seq<(Seq<char>, V)>, key: Seq<char>)
    ensures
        -1 <= find_key(d, key) < d.len(),
        find_key(d, key) >= 0 ==> d[find_key(d, key)].0 == key,
        forall|k: int| find_key(d, key) < k < d.len() ==> d[k].0 != key,
    decreases d.len(),
{
    if d.len() > 0 && d.last().0 != key {
        let e = d.drop_last();
        lemma_find_key(e, key);
        assert forall|k: int| find_key(d, key) < k < d.len() implies d[k].0 != key by {
            if k < d.len() - 1 {
                assert(d[k] == e[k]);
            }
        }
    }
}

impl Dict {
    /// The entries, as a mathematical sequence.
    pub open spec fn model(&self) -> Seq<(Seq<char>, ValueModel)> {
        entry_models(self.0@)
    }

    /// An empty dictionary.
    pub fn new() -> (r: Dict)
        ensures
            r.model() == Seq::<(Seq<char>, ValueModel)>::empty(),
    {
        let r = Dict(Vec::new());
        assert(r.model() =~= Seq::<(Seq<char>, ValueModel)>::empty());
        r
    }

    /// The number of entries.
    pub fn len(&self) -> (r: usize)
        ensures
            r == self.model().len(),
    {
        self.0.len()
    }

    /// The index of the last entry under `key`.
    pub(crate) fn find(&self, key: &str) -> (r: Option<usize>)
        ensures
            match r {
                Some(k) => find_key(self.model(), key@) == k as int,
                None => find_key(self.model(), key@) == -1,
            },
            r matches Some(k) ==> k < self.0.len(),
    {
        let ghost d = self.model();
        let mut j = self.0.len();
        assert(d.subrange(0, j as int) =~= d);
        while j > 0
            invariant
                j <= self.0.len() == d.len(),
                d == self.model(),
                find_key(d, key@) == find_key(d.subrange(0, j as int), key@),
            decreases j,
        {
            let ghost sub = d.subrange(0, j as int);
            assert(sub.drop_last() =~= d.subrange(0, j - 1));
            if same_text(self.0[j - 1].0.as_str(), key) {
                assert(sub.last().0 == key@);
                return Some(j - 1);
            }
            j -= 1;
        }
        None
    }

    /// The value stored under `key`, if any.
    pub fn get(&self, key: &str) -> (r: Option<&Value>)
        ensures
            match r {
                Some(v) => dict_get(self.model(), key@) == Some(value_model(*v)),
                None => dict_get(self.model(), key@) is None,
            },
    {
        match self.find(key) {
            Some(k) => {
                assert(self.model()[k as int].1 == value_model(self.0@[k as int].1));
                Some(&self.0[k].1)
            },
            None => None,
        }
    }

    /// Stores `value` under `key`; a later write to a key replaces the earlier.
    pub fn insert(&mut self, key: String, value: Value)
        ensures
            final(self).model() == dict_insert(old(self).model(), key@, value_model(value)),
    {
        let ghost d = self.model();
        let ghost vm = value_model(value);
        let ghost k = key@;
        match self.find(key.as_str()) {
            Some(idx) => {
                self.0[idx] = (key, value);
                assert(self.model() =~= d.update(idx as int, (k, vm)));
            },
            None => {
                self.0.push((key, value));
                assert(self.model() =~= d.push((k, vm)));
            },
        }
    }

    /// The keys, in the order of their entries.
    pub fn keys(&self) -> (r: Vec<String>)
        ensures
            r@.len() == self.model().len(),
            forall|k: int| 0 <= k < r@.len() ==> #[trigger] r@[k]@ == self.model()[k].0,
    {
        let mut r: Vec<String> = Vec::new();
        let mut j: usize = 0;
        while j < self.0.len()
            invariant
                j <= self.0.len(),
                r@.len() == j,
                forall|k: int| 0 <= k < j ==> #[trigger] r@[k]@ == self.model()[k].0,
            decreases self.0.len() - j,
        {
            r.push(self.0[j].0.clone());
            j += 1;
        }
        r
    }
}

impl Clone for Value {
    fn clone(&self) -> (r: Value)
        ensures
            value_model(r) == value_model(*self),
        decreases self,
    {
        match self {
            Value::String(t) => Value::String(t.clone()),
            Value::Integer(n) => Value::Integer(*n),
            Value::Boolean(b) => Value::Boolean(*b),
            Value::Ident(t) => Value::Ident(t.clone()),
            Value::Array(a) => Value::Array(copy_values(a)),
            Value::ConcatExpr(a) => Value::ConcatExpr(copy_values(a)),
            Value::Function(f) => Value::Function(Function { name: f.name.clone(), args: copy_values(&f.args) }),
            Value::Dict(d) => Value::Dict(Dict(copy_entries(&d.0))),
        }
    }
}

impl Clone for Function {
    fn clone(&self) -> (r: Function)
        ensures
            r.name@ == self.name@,
            models(r.args@) == models(self.args@),
    {
        Function { name: self.name.clone(), args: copy_values(&self.args) }
    }
}

impl Clone for Dict {
    fn clone(&self) -> (r: Dict)
        ensures
            r.model() == self.model(),
    {
        Dict(copy_entries(&self.0))
    }
}

fn copy_values(a: &Vec<Value>) -> (r: Vec<Value>)
    ensures
        models(r@) == models(a@),
    decreases a,
{
    let mut r: Vec<Value> = Vec::new();
    let mut k: usize = 0;
    while k < a.len()
        invariant
            k <= a.len(),
            r@.len() == k,
            forall|j: int| 0 <= j < k ==> value_model(#[trigger] r@[j]) == value_model(a@[j]),
        decreases a.len() - k,
    {
        r.push(a[k].clone());
        k += 1;
    }
    assert(models(r@) =~= models(a@));
    r
}

fn copy_entries(a: &Vec<(String, Value)>) -> (r: Vec<(String, Value)>)
    ensures
        entry_models(r@) == entry_models(a@),
    decreases a,
{
    let mut r: Vec<(String, Value)> = Vec::new();
    let mut k: usize = 0;
    while k < a.len()
        invariant
            k <= a.len(),
            r@.len() == k,
            forall|j: int| 0 <= j < k ==> (#[trigger] r@[j]).0@ == a@[j].0@ && value_model(r@[j].1) == value_model(a@[j].1),
        decreases a.len() - k,
    {
        r.push((a[k].0.clone(), a[k].1.clone()));
        k += 1;
    }
    assert(entry_models(r@) =~= entry_models(a@));
    r
}

} // verus!
