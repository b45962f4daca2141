use vstd::prelude::*;
use crate::error::Label;
use crate::lexer::fits_i64;
use crate::value::{models, value_model, Value, ValueModel};

verus! {

/// A value that only a later evaluation can resolve: a name, a call, or a
/// chain that holds one of those.
pub open spec fn is_symbolic(v: ValueModel) -> bool {
    v is Ident || v is Call || v is Concat
}

pub open spec fn text_of_str(v: ValueModel) -> Seq<char> {
    match v {
        ValueModel::Str(t) => t,
        _ => Seq::empty(),
    }
}

pub open spec fn items_of_array(v: ValueModel) -> Seq<ValueModel> {
    match v {
        ValueModel::Array(a) => a,
        _ => Seq::empty(),
    }
}

/// The texts of the operands, joined in order.
pub open spec fn join_strs(ops: Seq<ValueModel>) -> Seq<char>
    decreases ops.len(),
{
    if ops.len() == 0 {
        Seq::empty()
    } else {
        join_strs(ops.drop_last()) + text_of_str(ops.last())
    }
}

/// The elements of the operands, appended in order.
pub open spec fn join_arrays(ops: Seq<ValueModel>) -> Seq<ValueModel>
    decreases ops.len(),
{
    if ops.len() == 0 {
        Seq::empty()
    } else {
        join_arrays(ops.drop_last()) + items_of_array(ops.last())
    }
}

/// What the chain `ops[0] + ops[1] + ...` stands for: one operand stands for
/// itself; a chain with a symbolic operand is kept as it is; strings join,
/// arrays append; anything else is an error.
pub open spec fn concat_model(ops: Seq<ValueModel>) -> Result<ValueModel, Label> {
    if ops.len() == 1 {
        Ok(ops[0])
    } else if exists|k: int| 0 <= k < ops.len() && is_symbolic(#[trigger] ops[k]) {
        Ok(ValueModel::Concat(ops))
    } else if ops[0] is Str {
        if forall|k: int| 0 <= k < ops.len() ==> #[trigger] ops[k] is Str {
            Ok(ValueModel::Str(join_strs(ops)))
        } else {
            Err(Label::MixedTypes)
        }
    } else if ops[0] is Array {
        if forall|k: int| 0 <= k < ops.len() ==> #[trigger] ops[k] is Array {
            Ok(ValueModel::Array(join_arrays(ops)))
        } else {
            Err(Label::MixedTypes)
        }
    } else {
        Err(Label::NotConcatenable)
    }
}

/// The operands that a value contributes to a chain.
pub open spec fn operands_of(v: ValueModel) -> Seq<ValueModel> {
    match v {
        ValueModel::Concat(ops) => ops,
        _ => seq![v],
    }
}

/// What `x += new` makes of a variable `x` that holds `old`: integers add;
/// anything else follows the rule of `+`.
pub open spec fn extend_model(old: ValueModel, new: ValueModel) -> Result<ValueModel, Label> {
    if old is Int && new is Int {
        let sum = old->Int_0 + new->Int_0;
        if fits_i64(sum) {
            Ok(ValueModel::Int(sum))
        } else {
            Err(Label::IntegerOverflow)
        }
    } else if is_symbolic(old) || is_symbolic(new) {
        Ok(ValueModel::Concat(operands_of(old) + operands_of(new)))
    } else {
        concat_model(seq![old, new])
    }
}

pub(crate) fn is_symbolic_exec(v: &Value) -> (r: bool)
    ensures
        r == is_symbolic(value_model(*v)),
{
    match v {
        Value::Ident(_) | Value::Function(_) | Value::ConcatExpr(_) => true,
        _ => false,
    }
}

proof fn lemma_models_remove_first(v: Seq<Value>)
    requires
        v.len() > 0,
    ensures
        models(v.subrange(1, v.len() as int)) == models(v).subrange(1, v.len() as int),
        models(v)[0] == value_model(v[0]),
{
    assert(models(v.subrange(1, v.len() as int)) =~= models(v).subrange(1, v.len() as int));
}

/// Reduces the chain `ops[0] + ops[1] + ...`.
pub(crate) fn concat_values(input: Vec<Value>) -> (r: Result<Value, Label>)
    requires
        input.len() >= 1,
    ensures
        match r {
            Ok(v) => concat_model(models(input@)) == Ok::<ValueModel, Label>(value_model(v)),
            Err(l) => concat_model(models(input@)) == Err::<ValueModel, Label>(l),
        },
{
    let ghost m = models(input@);
    let n = input.len();
    let mut ops = input;
    if n == 1 {
        let v = ops.pop().unwrap();
        return Ok(v);
    }
    let mut k: usize = 0;
    while k < n
        invariant
            k <= n == ops.len() == m.len(),
            n >= 2,
            m == models(ops@),
            m == models(input@),
            forall|j: int| 0 <= j < k ==> !is_symbolic(#[trigger] m[j]),
        decreases n - k,
    {
        if is_symbolic_exec(&ops[k]) {
            assert(is_symbolic(m[k as int]));
            assert(concat_model(m) == Ok::<ValueModel, Label>(ValueModel::Concat(m)));
            let r = Value::ConcatExpr(ops);
            assert(value_model(r) == ValueModel::Concat(m));
            return Ok(r);
        }
        k += 1;
    }
    let ghost all = ops@;
    assert(!exists|k: int| 0 <= k < m.len() && is_symbolic(#[trigger] m[k]));
    if let Value::String(_) = &ops[0] {
        assert(m[0] is Str);
        let mut acc = String::new();
        let mut k: usize = 0;
        assert(m.subrange(0, 0) =~= Seq::<ValueModel>::empty());
        while k < n
            invariant
                k <= n == m.len(),
                m == models(all),
                m == models(input@),
                ops@ == all.subrange(k as int, n as int),
                forall|j: int| 0 <= j < k ==> #[trigger] m[j] is Str,
                n >= 2,
                m[0] is Str,
                !exists|j: int| 0 <= j < m.len() && is_symbolic(#[trigger] m[j]),
                acc@ == join_strs(m.subrange(0, k as int)),
            decreases n - k,
        {
            proof {
                lemma_models_remove_first(ops@);
                assert(all.subrange(k as int, n as int)[0] == all[k as int]);
            }
            let x = ops.remove(0);
            assert(ops@ =~= all.subrange(k + 1, n as int));
            assert(m.subrange(0, k + 1).drop_last() =~= m.subrange(0, k as int));
            match x {
                Value::String(t) => {
                    acc.append(t.as_str());
                },
                _ => {
                    assert(!(m[k as int] is Str));
                    return Err(Label::MixedTypes);
                },
            }
            k += 1;
        }
        assert(m.subrange(0, n as int) =~= m);
        Ok(Value::String(acc))
    } else if let Value::Array(_) = &ops[0] {
        assert(m[0] is Array);
        let mut acc: Vec<Value> = Vec::new();
        let mut k: usize = 0;
        assert(m.subrange(0, 0) =~= Seq::<ValueModel>::empty());
        assert(models(acc@) =~= Seq::<ValueModel>::empty());
        while k < n
            invariant
                k <= n == m.len(),
                m == models(all),
                m == models(input@),
                ops@ == all.subrange(k as int, n as int),
                forall|j: int| 0 <= j < k ==> #[trigger] m[j] is Array,
                n >= 2,
                m[0] is Array,
                !exists|j: int| 0 <= j < m.len() && is_symbolic(#[trigger] m[j]),
                models(acc@) == join_arrays(m.subrange(0, k as int)),
            decreases n - k,
        {
            proof {
                lemma_models_remove_first(ops@);
                assert(all.subrange(k as int, n as int)[0] == all[k as int]);
            }
            let x = ops.remove(0);
            assert(ops@ =~= all.subrange(k + 1, n as int));
            assert(m.subrange(0, k + 1).drop_last() =~= m.subrange(0, k as int));
            match x {
                Value::Array(mut a) => {
                    let ghost before = acc@;
                    let ghost am = a@;
                    acc.append(&mut a);
                    assert(models(acc@) =~= models(before) + models(am));
                },
                _ => {
                    assert(!(m[k as int] is Array));
                    return Err(Label::MixedTypes);
                },
            }
            k += 1;
        }
        assert(m.subrange(0, n as int) =~= m);
        Ok(Value::Array(acc))
    } else {
        assert(!(m[0] is Str) && !(m[0] is Array));
        Err(Label::NotConcatenable)
    }
}

/// Merges `new` into the value `old` of a variable, as `+=` does.
pub(crate) fn extend_value(old: Value, new: Value) -> (r: Result<Value, Label>)
    ensures
        match r {
            Ok(v) => extend_model(value_model(old), value_model(new)) == Ok::<ValueModel, Label>(value_model(v)),
            Err(l) => extend_model(value_model(old), value_model(new)) == Err::<ValueModel, Label>(l),
        },
{
    let ghost om = value_model(old);
    let ghost nm = value_model(new);
    if let (Value::Integer(a), Value::Integer(b)) = (&old, &new) {
        let sum = *a as i128 + *b as i128;
        if sum < i64::MIN as i128 || sum > i64::MAX as i128 {
            return Err(Label::IntegerOverflow);
        }
        return Ok(Value::Integer(sum as i64));
    }
    if is_symbolic_exec(&old) || is_symbolic_exec(&new) {
        let mut ops: Vec<Value> = match old {
            Value::ConcatExpr(xs) => xs,
            other => vec![other],
        };
        assert(models(ops@) =~= operands_of(om));
        let mut tail: Vec<Value> = match new {
            Value::ConcatExpr(xs) => xs,
            other => vec![other],
        };
        assert(models(tail@) =~= operands_of(nm));
        let ghost before = ops@;
        let ghost tm = tail@;
        ops.append(&mut tail);
        assert(models(ops@) =~= models(before) + models(tm));
        return Ok(Value::ConcatExpr(ops));
    }
    let ops = vec![old, new];
    assert(models(ops@) =~= seq![om, nm]);
    concat_values(ops)
}

} // verus!
