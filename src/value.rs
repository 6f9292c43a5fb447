use vstd::prelude::*;

use crate::tree::JsonValue;

verus! {

broadcast use vstd::seq::axiom_seq_index_decreases, vstd::seq::axiom_seq_subrange_decreases,
    vstd::std_specs::vec::axiom_vec_decreases_to_view;

/// A parsed JSON value. An object keeps its members in order, a repeated key
/// included; `get` reads the last member of a key.
#[derive(Debug, PartialEq)]
pub enum Value {
    String(String),
    Boolean(bool),
    Integer(i64),
    Float(String),
    Null,
    Object(Vec<(String, Value)>),
    Array(Vec<Value>),
}

pub open spec fn value_view(v: Value) -> JsonValue
    decreases v,
{
    match v {
        Value::String(s) => JsonValue::Str(s@),
        Value::Boolean(b) => JsonValue::Bool(b),
        Value::Integer(i) => JsonValue::Int(i as int),
        Value::Float(f) => JsonValue::Float(f@),
        Value::Null => JsonValue::Null,
        Value::Object(m) => {
            proof {
                assert(decreases_to!(m => m@));
            }
            JsonValue::Object(members_view(m@))
        },
        Value::Array(a) => {
            proof {
                assert(decreases_to!(a => a@));
            }
            JsonValue::Array(elements_view(a@))
        },
    }
}

pub open spec fn members_view(m: Seq<(String, Value)>) -> Seq<(Seq<char>, JsonValue)>
    decreases m,
{
    if m.len() == 0 {
        seq![]
    } else {
        proof {
            assert(decreases_to!(m => m[m.len() - 1]));
        }
        members_view(m.drop_last()).push((m[m.len() - 1].0@, value_view(m[m.len() - 1].1)))
    }
}

pub open spec fn elements_view(a: Seq<Value>) -> Seq<JsonValue>
    decreases a,
{
    if a.len() == 0 {
        seq![]
    } else {
        elements_view(a.drop_last()).push(value_view(a[a.len() - 1]))
    }
}

impl View for Value {
    type V = JsonValue;

    open spec fn view(&self) -> JsonValue {
        value_view(*self)
    }
}

pub proof fn lemma_members_view_push(m: Seq<(String, Value)>, x: (String, Value))
    ensures
        members_view(m.push(x)) == members_view(m).push((x.0@, value_view(x.1))),
{
    assert(m.push(x).drop_last() =~= m);
}

pub proof fn lemma_elements_view_push(a: Seq<Value>, x: Value)
    ensures
        elements_view(a.push(x)) == elements_view(a).push(value_view(x)),
{
    assert(a.push(x).drop_last() =~= a);
}

pub proof fn lemma_members_view_index(m: Seq<(String, Value)>)
    ensures
        members_view(m).len() == m.len(),
        forall|i: int|
            0 <= i < m.len() ==> #[trigger] members_view(m)[i] == (m[i].0@, value_view(m[i].1)),
    decreases m.len(),
{
    if m.len() > 0 {
        lemma_members_view_index(m.drop_last());
    }
}

/// The value of the last member whose key is `k`, if any member has it.
pub open spec fn lookup(m: Seq<(Seq<char>, JsonValue)>, k: Seq<char>) -> Option<JsonValue>
    decreases m.len(),
{
    if m.len() == 0 {
        None
    } else if m.last().0 == k {
        Some(m.last().1)
    } else {
        lookup(m.drop_last(), k)
    }
}

impl Value {
    /// The value of the last member named `key` in an object: where a key
    /// is repeated, the last occurrence wins. `None` for other values.
    pub fn get(&self, key: &String) -> (r: Option<&Value>)
        ensures
            match self@ {
                JsonValue::Object(m) => match lookup(m, key@) {
                    Some(v) => r matches Some(x) && x@ == v,
                    None => r is None,
                },
                _ => r is None,
            },
    {
        match self {
            Value::Object(members) => {
                let ghost m = members_view(members@);
                proof {
                    lemma_members_view_index(members@);
                    assert(m.subrange(0, members@.len() as int) =~= m);
                    assert(self@ == JsonValue::Object(m));
                }
                let mut i: usize = members.len();
                while i > 0
                    invariant
                        i <= members@.len(),
                        m == members_view(members@),
                        m.len() == members@.len(),
                        forall|j: int|
                            0 <= j < members@.len() ==> #[trigger] m[j] == (members@[j].0@, value_view(members@[j].1)),
                        lookup(m, key@) == lookup(m.subrange(0, i as int), key@),
                        self@ == JsonValue::Object(m),
                    decreases i,
                {
                    let ghost prefix = m.subrange(0, i as int);
                    if members[i - 1].0 == *key {
                        assert(prefix.last() == m[i - 1]);
                        assert(lookup(prefix, key@) == Some(value_view(members@[i - 1].1)));
                        return Some(&members[i - 1].1);
                    }
                    proof {
                        assert(prefix.drop_last() =~= m.subrange(0, i - 1));
                    }
                    i = i - 1;
                }
                None
            },
            _ => None,
        }
    }
}

} // verus!
