use vstd::prelude::*;
use crate::fraction::Fraction;
use crate::text::{int_text, push_i64_text};

verus! {

/// Mathematical model of a runtime datum: fractions become integer pairs,
/// strings become character sequences, vectors become sequences of models.
#[verifier::ext_equal]
pub enum ValModel {
    Num { n: int, d: int },
    Str(Seq<char>),
    Bool(bool),
    Sym(Seq<char>),
    Arr(Seq<ValModel>),
    Nil,
}

/// The runtime's tagged union of datum kinds.
#[derive(Debug)]
pub enum ValueType {
    Number(Fraction),
    String(String),
    Boolean(bool),
    Symbol(String),
    Vector(Vec<Value>),
    Nil,
}

/// A runtime datum. Equality is structural and identity plays no role.
#[derive(Debug)]
pub struct Value {
    pub val_type: ValueType,
}

/// Model of a sequence of values, element by element.
pub open spec fn vals_model(s: Seq<Value>) -> Seq<ValModel>
    decreases s,
{
    if s.len() == 0 {
        Seq::empty()
    } else {
        vals_model(s.drop_last()).push(s.last().model())
    }
}

/// `vals_model` maps the sequence pointwise.
pub proof fn lemma_vals_model(s: Seq<Value>)
    ensures
        vals_model(s).len() == s.len(),
        forall|i: int| 0 <= i < s.len() ==> vals_model(s)[i] == s[i].model(),
    decreases s,
{
    if s.len() > 0 {
        lemma_vals_model(s.drop_last());
    }
}

/// An element of a vector datum sits below the datum in the termination order.
pub proof fn lemma_vec_elem_smaller(v: Value, i: int)
    requires
        v.val_type matches ValueType::Vector(items) && 0 <= i < items@.len(),
    ensures
        decreases_to!(v => (v.val_type->Vector_0)@[i]),
{
    let items = v.val_type->Vector_0;
    assert(decreases_to!(v => v.val_type));
    assert(decreases_to!(v.val_type => items));
    assert(decreases_to!(items => items@));
    assert(decreases_to!(items@ => items@[i]));
}

impl Value {
    /// The mathematical model of this datum.
    pub open spec fn model(self) -> ValModel
        decreases self,
    {
        match self.val_type {
            ValueType::Number(f) => ValModel::Num { n: f.num(), d: f.den() },
            ValueType::String(s) => ValModel::Str(s@),
            ValueType::Boolean(b) => ValModel::Bool(b),
            ValueType::Symbol(s) => ValModel::Sym(s@),
            ValueType::Vector(v) => ValModel::Arr(vals_model(v@)),
            ValueType::Nil => ValModel::Nil,
        }
    }
}

/// Textual form of a fraction: plain integer when the denominator is one.
pub open spec fn frac_text(n: int, d: int) -> Seq<char> {
    if d == 1 {
        int_text(n)
    } else {
        int_text(n) + seq!['/'] + int_text(d)
    }
}

/// Canonical display text of a datum: numbers in lowest terms, strings in
/// quotes, vectors bracketed with single spaces between items.
pub open spec fn vm_text(v: ValModel) -> Seq<char>
    decreases v,
{
    match v {
        ValModel::Num { n, d } => frac_text(n, d),
        ValModel::Str(s) => seq!['"'] + s + seq!['"'],
        ValModel::Bool(b) => if b {
            "true"@
        } else {
            "false"@
        },
        ValModel::Sym(s) => s,
        ValModel::Arr(els) => seq!['[', ' '] + arr_text(els) + seq![' ', ']'],
        ValModel::Nil => "nil"@,
    }
}

/// Display text of vector items, separated by single spaces.
pub open spec fn arr_text(els: Seq<ValModel>) -> Seq<char>
    decreases els,
{
    if els.len() == 0 {
        Seq::empty()
    } else if els.len() == 1 {
        vm_text(els[0])
    } else {
        arr_text(els.drop_last()) + seq![' '] + vm_text(els.last())
    }
}

/// Unfolding `arr_text` along a prefix of the item sequence.
pub proof fn lemma_arr_text_snoc(els: Seq<ValModel>, i: int)
    requires
        0 <= i < els.len(),
    ensures
        arr_text(els.take(i + 1)) == if i == 0 {
            vm_text(els[0])
        } else {
            arr_text(els.take(i)) + seq![' '] + vm_text(els[i])
        },
{
    assert(els.take(i + 1).drop_last() =~= els.take(i));
    assert(els.take(i + 1).last() == els[i]);
    if i == 0 {
        assert(els.take(1).len() == 1);
        assert(els.take(1)[0] == els[0]);
    }
}

/// Append the characters of a string slice to `out`.
pub fn push_str_chars(s: &str, out: &mut Vec<char>)
    ensures
        final(out)@ == old(out)@ + s@,
{
    let n = s.unicode_len();
    let mut i: usize = 0;
    while i < n
        invariant
            n == s@.len(),
            i <= n,
            out@ =~= old(out)@ + s@.take(i as int),
        decreases n - i,
    {
        out.push(s.get_char(i));
        i += 1;
        proof {
            assert(out@ =~= old(out)@ + s@.take(i as int));
        }
    }
    proof {
        assert(s@.take(n as int) =~= s@);
        assert(out@ =~= old(out)@ + s@);
    }
}

/// Append the display text of a datum to `out`.
#[verifier::loop_isolation(false)]
pub fn push_value_text(v: &Value, out: &mut Vec<char>)
    ensures
        final(out)@ == old(out)@ + vm_text(v.model()),
    decreases v,
{
    match &v.val_type {
        ValueType::Number(f) => {
            let num = f.numerator();
            let den = f.denominator();
            push_i64_text(num, out);
            if den != 1 {
                out.push('/');
                push_i64_text(den, out);
                proof {
                    assert(out@ =~= old(out)@ + vm_text(v.model()));
                }
            } else {
                proof {
                    assert(out@ =~= old(out)@ + vm_text(v.model()));
                }
            }
        },
        ValueType::String(s) => {
            out.push('"');
            push_str_chars(s.as_str(), out);
            out.push('"');
            proof {
                assert(out@ =~= old(out)@ + vm_text(v.model()));
            }
        },
        ValueType::Boolean(b) => {
            if *b {
                push_str_chars("true", out);
            } else {
                push_str_chars("false", out);
            }
        },
        ValueType::Symbol(s) => {
            push_str_chars(s.as_str(), out);
        },
        ValueType::Vector(items) => {
            let ghost ms = vals_model(items@);
            proof {
                lemma_vals_model(items@);
            }
            out.push('[');
            out.push(' ');
            let ghost base = old(out)@ + seq!['[', ' '];
            proof {
                assert(out@ =~= base + arr_text(ms.take(0)));
            }
            let mut i: usize = 0;
            while i < items.len()
                invariant
                    ms == vals_model(items@),
                    ms.len() == items@.len(),
                    forall|k: int| 0 <= k < items@.len() ==> ms[k] == items@[k].model(),
                    i <= items@.len(),
                    base == old(out)@ + seq!['[', ' '],
                    out@ == base + arr_text(ms.take(i as int)),
                decreases items@.len() - i,
            {
                if i > 0 {
                    out.push(' ');
                }
                proof {
                    assert(*items == v.val_type->Vector_0);
                    lemma_vec_elem_smaller(*v, i as int);
                }
                push_value_text(&items[i], out);
                proof {
                    lemma_arr_text_snoc(ms, i as int);
                    if i == 0 {
                        assert(out@ =~= base + arr_text(ms.take(i + 1)));
                    } else {
                        assert(out@ =~= base + arr_text(ms.take(i + 1)));
                    }
                }
                i += 1;
            }
            out.push(' ');
            out.push(']');
            proof {
                assert(ms.take(items@.len() as int) =~= ms);
                assert(out@ =~= old(out)@ + vm_text(v.model()));
            }
        },
        ValueType::Nil => {
            push_str_chars("nil", out);
        },
    }
}

/// Deep structural equality of two datums.
#[verifier::loop_isolation(false)]
pub fn value_eq(a: &Value, b: &Value) -> (r: bool)
    ensures
        r == (a.model() == b.model()),
    decreases a,
{
    match (&a.val_type, &b.val_type) {
        (ValueType::Number(f1), ValueType::Number(f2)) => {
            f1.numerator() == f2.numerator() && f1.denominator() == f2.denominator()
        },
        (ValueType::String(s1), ValueType::String(s2)) => *s1 == *s2,
        (ValueType::Boolean(b1), ValueType::Boolean(b2)) => *b1 == *b2,
        (ValueType::Symbol(s1), ValueType::Symbol(s2)) => *s1 == *s2,
        (ValueType::Vector(v1), ValueType::Vector(v2)) => {
            proof {
                lemma_vals_model(v1@);
                lemma_vals_model(v2@);
                assert(a.model() == ValModel::Arr(vals_model(v1@)));
                assert(b.model() == ValModel::Arr(vals_model(v2@)));
            }
            if v1.len() != v2.len() {
                proof {
                    assert(vals_model(v1@).len() != vals_model(v2@).len());
                }
                return false;
            }
            let mut i: usize = 0;
            while i < v1.len()
                invariant
                    v1@.len() == v2@.len(),
                    i <= v1@.len(),
                    vals_model(v1@).len() == v1@.len(),
                    vals_model(v2@).len() == v2@.len(),
                    forall|k: int| 0 <= k < v1@.len() ==> vals_model(v1@)[k] == v1@[k].model(),
                    forall|k: int| 0 <= k < v2@.len() ==> vals_model(v2@)[k] == v2@[k].model(),
                    forall|k: int| 0 <= k < i ==> v1@[k].model() == v2@[k].model(),
                decreases v1@.len() - i,
            {
                proof {
                    assert(*v1 == a.val_type->Vector_0);
                    lemma_vec_elem_smaller(*a, i as int);
                }
                if !value_eq(&v1[i], &v2[i]) {
                    proof {
                        assert(vals_model(v1@)[i as int] != vals_model(v2@)[i as int]);
                    }
                    return false;
                }
                i += 1;
            }
            proof {
                assert(vals_model(v1@) =~= vals_model(v2@));
            }
            true
        },
        (ValueType::Nil, ValueType::Nil) => true,
        _ => false,
    }
}

/// A deep copy of a datum, equal to the original in the model.
#[verifier::loop_isolation(false)]
pub fn clone_value(v: &Value) -> (r: Value)
    ensures
        r.model() == v.model(),
    decreases v,
{
    match &v.val_type {
        ValueType::Number(f) => Value { val_type: ValueType::Number(*f) },
        ValueType::String(s) => Value { val_type: ValueType::String(s.clone()) },
        ValueType::Boolean(b) => Value { val_type: ValueType::Boolean(*b) },
        ValueType::Symbol(s) => Value { val_type: ValueType::Symbol(s.clone()) },
        ValueType::Vector(items) => {
            proof {
                lemma_vals_model(items@);
            }
            let mut copy: Vec<Value> = Vec::new();
            let mut i: usize = 0;
            while i < items.len()
                invariant
                    i <= items@.len(),
                    copy@.len() == i,
                    vals_model(items@).len() == items@.len(),
                    forall|k: int| 0 <= k < items@.len() ==> vals_model(items@)[k]
                        == items@[k].model(),
                    forall|k: int| 0 <= k < i ==> copy@[k].model() == items@[k].model(),
                decreases items@.len() - i,
            {
                proof {
                    assert(*items == v.val_type->Vector_0);
                    lemma_vec_elem_smaller(*v, i as int);
                }
                let c = clone_value(&items[i]);
                copy.push(c);
                i += 1;
            }
            proof {
                lemma_vals_model(copy@);
                assert(vals_model(copy@) =~= vals_model(items@));
            }
            Value { val_type: ValueType::Vector(copy) }
        },
        ValueType::Nil => Value { val_type: ValueType::Nil },
    }
}

} // verus!
