use vstd::prelude::*;
use vstd::string::StringExecFns;
use crate::model::{
    CellValue, Condition, Entity, Operator, Type, Value, find_value, find_value_from,
};
use crate::text::{decimal, decimal_string, concat3};

verus! {

/// Whether a stored value `a` stands in relation `op` to the given value `b`.
/// Integers compare by every operator; text compares by `Eq` and `Ne` only;
/// values of different kinds never match.
pub open spec fn compare_holds(a: CellValue, b: CellValue, op: Operator) -> bool {
    match (a, b) {
        (CellValue::Int(x), CellValue::Int(y)) => match op {
            Operator::Eq => x == y,
            Operator::Ne => x != y,
            Operator::Gt => x > y,
            Operator::Ge => x >= y,
            Operator::Lt => x < y,
            Operator::Le => x <= y,
        },
        (CellValue::VarChar(x), CellValue::VarChar(y)) => match op {
            Operator::Eq => x == y,
            Operator::Ne => x != y,
            _ => false,
        },
        _ => false,
    }
}

/// Whether the row `data` meets condition `c`.  A comparison on a name that
/// the row lacks is false; it uses the first value of that name.
pub open spec fn cond_holds(data: Seq<(Seq<char>, CellValue)>, c: Condition) -> bool
    decreases c,
{
    match c {
        Condition::Compare { attr, value, op } => match find_value(data, attr@) {
            None => false,
            Some(v) => compare_holds(v, value@, op),
        },
        Condition::And(l, r) => cond_holds(data, *l) && cond_holds(data, *r),
        Condition::Or(l, r) => cond_holds(data, *l) || cond_holds(data, *r),
    }
}

/// Whether the row `data` meets every condition of `conds`.
pub open spec fn all_hold(data: Seq<(Seq<char>, CellValue)>, conds: Seq<Condition>) -> bool {
    forall|i: int| 0 <= i < conds.len() ==> #[trigger] cond_holds(data, conds[i])
}

/// The display text of a column type.
pub open spec fn type_text(t: Type) -> Seq<char> {
    match t {
        Type::Int => "INT"@,
        Type::VarChar(n) => "VARCHAR("@ + decimal(n as nat) + ")"@,
    }
}

/// The display text of a value's kind.
pub open spec fn kind_text(v: CellValue) -> Seq<char> {
    match v {
        CellValue::Int(_) => "INT"@,
        CellValue::VarChar(_) => "VARCHAR"@,
    }
}

impl Type {
    /// The display text of the type: `INT` or `VARCHAR(n)`.
    pub fn display_text(&self) -> (r: String)
        ensures
            r@ == type_text(*self),
    {
        match self {
            Type::Int => String::from_str("INT"),
            Type::VarChar(n) => {
                let d = decimal_string(*n);
                concat3("VARCHAR(", d.as_str(), ")")
            },
        }
    }
}

impl Value {
    /// The display text of the value's kind: `INT` or `VARCHAR`.
    pub fn display_text(&self) -> (r: String)
        ensures
            r@ == kind_text(self@),
    {
        match self {
            Value::Int(_) => String::from_str("INT"),
            Value::VarChar(_) => String::from_str("VARCHAR"),
        }
    }
}

fn compare(a: &Value, b: &Value, op: Operator) -> (r: bool)
    ensures
        r == compare_holds(a@, b@, op),
{
    match (a, b) {
        (Value::Int(x), Value::Int(y)) => match op {
            Operator::Eq => *x == *y,
            Operator::Ne => *x != *y,
            Operator::Gt => *x > *y,
            Operator::Ge => *x >= *y,
            Operator::Lt => *x < *y,
            Operator::Le => *x <= *y,
        },
        (Value::VarChar(x), Value::VarChar(y)) => match op {
            Operator::Eq => *x == *y,
            Operator::Ne => *x != *y,
            _ => false,
        },
        _ => false,
    }
}

/// Whether `entity` meets `condition`.
#[verifier::loop_isolation(false)]
pub fn match_condition(entity: &Entity, condition: &Condition) -> (r: bool)
    ensures
        r == cond_holds(entity@.data, *condition),
    decreases condition,
{
    match condition {
        Condition::Compare { attr, value, op } => {
            let mut i: usize = 0;
            while i < entity.data.len()
                invariant
                    i <= entity.data@.len(),
                    find_value(entity@.data, attr@) == find_value_from(entity@.data, attr@, i as int),
                decreases entity.data@.len() - i,
            {
                assert(entity@.data[i as int] == entity.data@[i as int]@);
                if entity.data[i].name == *attr {
                    assert(find_value_from(entity@.data, attr@, i as int) == Some(
                        entity.data@[i as int].value@,
                    ));
                    return compare(&entity.data[i].value, value, *op);
                }
                i = i + 1;
            }
            false
        },
        Condition::And(left, right) => {
            match_condition(entity, left) && match_condition(entity, right)
        },
        Condition::Or(left, right) => {
            match_condition(entity, left) || match_condition(entity, right)
        },
    }
}

/// Whether `entity` meets every condition of `conditions`.
pub fn match_all(entity: &Entity, conditions: &Vec<Condition>) -> (r: bool)
    ensures
        r == all_hold(entity@.data, conditions@),
{
    let mut i: usize = 0;
    while i < conditions.len()
        invariant
            i <= conditions@.len(),
            forall|k: int| 0 <= k < i ==> #[trigger] cond_holds(entity@.data, conditions@[k]),
        decreases conditions@.len() - i,
    {
        if !match_condition(entity, &conditions[i]) {
            return false;
        }
        i = i + 1;
    }
    true
}

} // verus!
