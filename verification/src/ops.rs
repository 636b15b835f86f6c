use vstd::prelude::*;
use crate::fraction::{Fraction, red_num, red_den, frac_fits};
use crate::value::{Value, ValueType, ValModel, vals_model, lemma_vals_model, clone_value};
use crate::errors::{EvalError, ErrModel};
use crate::text::str_to_chars;

verus! {

/// The four arithmetic operators.
#[derive(Clone, Copy, Debug, PartialEq, Eq, Structural)]
pub enum ArithOp {
    Add,
    Sub,
    Mul,
    Div,
}

/// The four ordering comparisons.
#[derive(Clone, Copy, Debug, PartialEq, Eq, Structural)]
pub enum CmpOp {
    Gt,
    Ge,
    Lt,
    Le,
}

/// The numerator of the unreduced result of an arithmetic operation on two
/// fractions, by cross-multiplication.
pub open spec fn raw_n(op: ArithOp, n1: int, d1: int, n2: int, d2: int) -> int {
    match op {
        ArithOp::Add => n1 * d2 + n2 * d1,
        ArithOp::Sub => n1 * d2 - n2 * d1,
        ArithOp::Mul => n1 * n2,
        ArithOp::Div => n1 * d2,
    }
}

/// The denominator of the unreduced result.
pub open spec fn raw_d(op: ArithOp, n1: int, d1: int, n2: int, d2: int) -> int {
    match op {
        ArithOp::Add => d1 * d2,
        ArithOp::Sub => d1 * d2,
        ArithOp::Mul => d1 * d2,
        ArithOp::Div => d1 * n2,
    }
}

/// Arithmetic on two number models: division by zero is an error, and a
/// reduced result that no longer fits the machine word is an overflow.
pub open spec fn num_arith(op: ArithOp, n1: int, d1: int, n2: int, d2: int) -> Result<
    ValModel,
    ErrModel,
> {
    if op == ArithOp::Div && n2 == 0 {
        Err(ErrModel::DivisionByZero)
    } else {
        let n = raw_n(op, n1, d1, n2, d2);
        let d = raw_d(op, n1, d1, n2, d2);
        if frac_fits(n, d) {
            Ok(ValModel::Num { n: red_num(n, d), d: red_den(n, d) })
        } else {
            Err(ErrModel::NumericOverflow)
        }
    }
}

/// One element of a broadcast: numbers are combined, anything else passes
/// through unchanged.
pub open spec fn bcast_elem(op: ArithOp, e: ValModel, n2: int, d2: int, scalar_left: bool) -> Result<
    ValModel,
    ErrModel,
> {
    match e {
        ValModel::Num { n, d } => if scalar_left {
            num_arith(op, n2, d2, n, d)
        } else {
            num_arith(op, n, d, n2, d2)
        },
        _ => Ok(e),
    }
}

/// Broadcast a scalar across a vector of elements, stopping at the first
/// failure.
pub open spec fn bcast_seq(
    op: ArithOp,
    els: Seq<ValModel>,
    n2: int,
    d2: int,
    scalar_left: bool,
) -> Result<Seq<ValModel>, ErrModel>
    decreases els,
{
    if els.len() == 0 {
        Ok(Seq::empty())
    } else {
        match bcast_seq(op, els.drop_last(), n2, d2, scalar_left) {
            Ok(rs) => match bcast_elem(op, els.last(), n2, d2, scalar_left) {
                Ok(e) => Ok(rs.push(e)),
                Err(e) => Err(e),
            },
            Err(e) => Err(e),
        }
    }
}

/// One element pair of an element-wise operation: two numbers are combined,
/// any other pair keeps the left element.
pub open spec fn zip_elem(op: ArithOp, a: ValModel, b: ValModel) -> Result<ValModel, ErrModel> {
    match (a, b) {
        (ValModel::Num { n: n1, d: d1 }, ValModel::Num { n: n2, d: d2 }) => num_arith(
            op,
            n1,
            d1,
            n2,
            d2,
        ),
        _ => Ok(a),
    }
}

/// Element-wise arithmetic over two equal-length vectors.
pub open spec fn zip_seq(op: ArithOp, a: Seq<ValModel>, b: Seq<ValModel>) -> Result<
    Seq<ValModel>,
    ErrModel,
>
    decreases a,
{
    if a.len() == 0 {
        Ok(Seq::empty())
    } else {
        match zip_seq(op, a.drop_last(), b.drop_last()) {
            Ok(rs) => match zip_elem(op, a.last(), b.last()) {
                Ok(e) => Ok(rs.push(e)),
                Err(e) => Err(e),
            },
            Err(e) => Err(e),
        }
    }
}

/// Arithmetic with implicit broadcasting: number with number directly, vector
/// with scalar element-wise over the vector, vector with vector of the same
/// length pairwise (`LengthMismatch` otherwise), anything else a type error.
pub open spec fn spec_arith(op: ArithOp, a: ValModel, b: ValModel) -> Result<ValModel, ErrModel> {
    match (a, b) {
        (ValModel::Num { n: n1, d: d1 }, ValModel::Num { n: n2, d: d2 }) => num_arith(
            op,
            n1,
            d1,
            n2,
            d2,
        ),
        (ValModel::Arr(els), ValModel::Num { n: n2, d: d2 }) => match bcast_seq(
            op,
            els,
            n2,
            d2,
            false,
        ) {
            Ok(rs) => Ok(ValModel::Arr(rs)),
            Err(e) => Err(e),
        },
        (ValModel::Num { n: n2, d: d2 }, ValModel::Arr(els)) => match bcast_seq(
            op,
            els,
            n2,
            d2,
            true,
        ) {
            Ok(rs) => Ok(ValModel::Arr(rs)),
            Err(e) => Err(e),
        },
        (ValModel::Arr(x), ValModel::Arr(y)) => if x.len() != y.len() {
            Err(ErrModel::LengthMismatch)
        } else {
            match zip_seq(op, x, y) {
                Ok(rs) => Ok(ValModel::Arr(rs)),
                Err(e) => Err(e),
            }
        },
        _ => Err(
            ErrModel::TypeError {
                operation: op_text(op),
                expected: "numbers or vectors"@,
            },
        ),
    }
}

/// The printable name of an arithmetic operator.
pub open spec fn op_text(op: ArithOp) -> Seq<char> {
    match op {
        ArithOp::Add => "+"@,
        ArithOp::Sub => "-"@,
        ArithOp::Mul => "*"@,
        ArithOp::Div => "/"@,
    }
}

/// The printable name of a comparison operator.
pub open spec fn cmp_text(op: CmpOp) -> Seq<char> {
    match op {
        CmpOp::Gt => ">"@,
        CmpOp::Ge => ">="@,
        CmpOp::Lt => "<"@,
        CmpOp::Le => "<="@,
    }
}

/// An ordering comparison of two number models, by cross-multiplication.
pub open spec fn num_cmp(op: CmpOp, n1: int, d1: int, n2: int, d2: int) -> bool {
    match op {
        CmpOp::Gt => n1 * d2 > n2 * d1,
        CmpOp::Ge => n1 * d2 >= n2 * d1,
        CmpOp::Lt => n1 * d2 < n2 * d1,
        CmpOp::Le => n1 * d2 <= n2 * d1,
    }
}

/// One element of a comparison broadcast: a non-number becomes `false`.
pub open spec fn cmp_elem(op: CmpOp, e: ValModel, n2: int, d2: int, scalar_left: bool) -> ValModel {
    match e {
        ValModel::Num { n, d } => if scalar_left {
            ValModel::Bool(num_cmp(op, n2, d2, n, d))
        } else {
            ValModel::Bool(num_cmp(op, n, d, n2, d2))
        },
        _ => ValModel::Bool(false),
    }
}

/// Comparison broadcast of a scalar across vector elements.
pub open spec fn cmp_bcast_seq(
    op: CmpOp,
    els: Seq<ValModel>,
    n2: int,
    d2: int,
    scalar_left: bool,
) -> Seq<ValModel> {
    els.map_values(|e: ValModel| cmp_elem(op, e, n2, d2, scalar_left))
}

/// One element pair of an element-wise comparison.
pub open spec fn cmp_zip_elem(op: CmpOp, a: ValModel, b: ValModel) -> ValModel {
    match (a, b) {
        (ValModel::Num { n: n1, d: d1 }, ValModel::Num { n: n2, d: d2 }) => ValModel::Bool(
            num_cmp(op, n1, d1, n2, d2),
        ),
        _ => ValModel::Bool(false),
    }
}

/// Ordering comparison with implicit broadcasting, mirroring the arithmetic
/// shape; non-numeric elements compare to `false`.
pub open spec fn spec_cmp(op: CmpOp, a: ValModel, b: ValModel) -> Result<ValModel, ErrModel> {
    match (a, b) {
        (ValModel::Num { n: n1, d: d1 }, ValModel::Num { n: n2, d: d2 }) => Ok(
            ValModel::Bool(num_cmp(op, n1, d1, n2, d2)),
        ),
        (ValModel::Arr(els), ValModel::Num { n: n2, d: d2 }) => Ok(
            ValModel::Arr(cmp_bcast_seq(op, els, n2, d2, false)),
        ),
        (ValModel::Num { n: n2, d: d2 }, ValModel::Arr(els)) => Ok(
            ValModel::Arr(cmp_bcast_seq(op, els, n2, d2, true)),
        ),
        (ValModel::Arr(x), ValModel::Arr(y)) => if x.len() != y.len() {
            Err(ErrModel::LengthMismatch)
        } else {
            Ok(ValModel::Arr(Seq::new(x.len(), |i: int| cmp_zip_elem(op, x[i], y[i]))))
        },
        _ => Err(
            ErrModel::TypeError {
                operation: cmp_text(op),
                expected: "numbers or vectors"@,
            },
        ),
    }
}

/// Structural equality as the `=` word sees it: numbers by value, scalars by
/// content, vectors deeply; different kinds compare to `false`.
pub open spec fn spec_equal(a: ValModel, b: ValModel) -> bool {
    match (a, b) {
        (ValModel::Num { n: n1, d: d1 }, ValModel::Num { n: n2, d: d2 }) => n1 * d2 == n2 * d1,
        (ValModel::Str(s1), ValModel::Str(s2)) => s1 == s2,
        (ValModel::Bool(b1), ValModel::Bool(b2)) => b1 == b2,
        (ValModel::Sym(s1), ValModel::Sym(s2)) => s1 == s2,
        (ValModel::Nil, ValModel::Nil) => true,
        (ValModel::Arr(x), ValModel::Arr(y)) => x == y,
        _ => false,
    }
}

/// Logical negation: a boolean flips; in a vector each boolean flips and any
/// other element passes through; anything else is a type error.
pub open spec fn spec_not(a: ValModel) -> Result<ValModel, ErrModel> {
    match a {
        ValModel::Bool(b) => Ok(ValModel::Bool(!b)),
        ValModel::Arr(els) => Ok(
            ValModel::Arr(
                els.map_values(
                    |e: ValModel|
                        match e {
                            ValModel::Bool(b) => ValModel::Bool(!b),
                            _ => e,
                        },
                ),
            ),
        ),
        _ => Err(
            ErrModel::TypeError { operation: "NOT"@, expected: "a boolean or vector"@ },
        ),
    }
}

/// Make a number value from a fraction.
fn num_value(f: Fraction) -> (r: Value)
    ensures
        r.model() == (ValModel::Num { n: f.num(), d: f.den() }),
{
    Value { val_type: ValueType::Number(f) }
}

/// Combine two fractions under an arithmetic operator.
fn frac_arith(op: ArithOp, f1: &Fraction, f2: &Fraction) -> (r: Result<Fraction, EvalError>)
    ensures
        (match r {
            Ok(f) => num_arith(op, f1.num(), f1.den(), f2.num(), f2.den()) == Ok::<
                ValModel,
                ErrModel,
            >(ValModel::Num { n: f.num(), d: f.den() }),
            Err(e) => num_arith(op, f1.num(), f1.den(), f2.num(), f2.den()) == Err::<
                ValModel,
                ErrModel,
            >(e.model()),
        }),
{
    let res: Option<Fraction> = match op {
        ArithOp::Add => f1.add(f2),
        ArithOp::Sub => f1.sub(f2),
        ArithOp::Mul => f1.mul(f2),
        ArithOp::Div => {
            if f2.numerator() == 0 {
                return Err(EvalError::DivisionByZero);
            }
            f1.div(f2)
        },
    };
    match res {
        Some(f) => Ok(f),
        None => Err(EvalError::NumericOverflow),
    }
}

/// Compare two fractions under an ordering operator.
fn frac_cmp(op: CmpOp, f1: &Fraction, f2: &Fraction) -> (r: bool)
    ensures
        r == num_cmp(op, f1.num(), f1.den(), f2.num(), f2.den()),
{
    match op {
        CmpOp::Gt => f1.gt(f2),
        CmpOp::Ge => f1.ge(f2),
        CmpOp::Lt => f1.lt(f2),
        CmpOp::Le => f1.le(f2),
    }
}

/// Apply an arithmetic operator to two operands with implicit broadcasting.
#[verifier::loop_isolation(false)]
#[verifier::rlimit(100)]
pub fn eval_arith(op: ArithOp, a: &Value, b: &Value) -> (r: Result<Value, EvalError>)
    ensures
        (match r {
            Ok(v) => spec_arith(op, a.model(), b.model()) == Ok::<ValModel, ErrModel>(v.model()),
            Err(e) => spec_arith(op, a.model(), b.model()) == Err::<ValModel, ErrModel>(e.model()),
        }),
{
    match (&a.val_type, &b.val_type) {
        (ValueType::Number(f1), ValueType::Number(f2)) => {
            match frac_arith(op, f1, f2) {
                Ok(f) => Ok(num_value(f)),
                Err(e) => Err(e),
            }
        },
        (ValueType::Vector(els), ValueType::Number(f2)) => {
            let ghost ems = vals_model(els@);
            proof {
                lemma_vals_model(els@);
            }
            let mut out: Vec<Value> = Vec::new();
            let mut i: usize = 0;
            while i < els.len()
                invariant
                    i <= els@.len(),
                    bcast_seq(op, ems.take(i as int), f2.num(), f2.den(), false) == Ok::<
                        Seq<ValModel>,
                        ErrModel,
                    >(vals_model(out@)),
                decreases els@.len() - i,
            {
                let ghost outv0 = out@;
                let ghost outm0 = vals_model(out@);
                match &els[i].val_type {
                    ValueType::Number(f1) => {
                        match frac_arith(op, f1, f2) {
                            Ok(f) => {
                                out.push(num_value(f));
                            },
                            Err(e) => {
                                proof {
                                    lemma_bcast_prefix_err(op, ems, i as int, f2.num(), f2.den(), false, e.model());
                                }
                                return Err(e);
                            },
                        }
                    },
                    _ => {
                        let c = clone_value(&els[i]);
                        out.push(c);
                    },
                }
                i += 1;
                proof {
                    assert(out@.drop_last() =~= outv0);
                    assert(vals_model(out@) == vals_model(outv0).push(out@.last().model()));
                    assert(ems.take(i as int).drop_last() =~= ems.take(i - 1));
                    assert(ems.take(i as int).last() == ems[i - 1]);
                }
            }
            proof {
                assert(ems.take(els@.len() as int) =~= ems);
            }
            Ok(Value { val_type: ValueType::Vector(out) })
        },
        (ValueType::Number(f2), ValueType::Vector(els)) => {
            let ghost ems = vals_model(els@);
            proof {
                lemma_vals_model(els@);
            }
            let mut out: Vec<Value> = Vec::new();
            let mut i: usize = 0;
            while i < els.len()
                invariant
                    i <= els@.len(),
                    bcast_seq(op, ems.take(i as int), f2.num(), f2.den(), true) == Ok::<
                        Seq<ValModel>,
                        ErrModel,
                    >(vals_model(out@)),
                decreases els@.len() - i,
            {
                let ghost outv0 = out@;
                let ghost outm0 = vals_model(out@);
                match &els[i].val_type {
                    ValueType::Number(f1) => {
                        match frac_arith(op, f2, f1) {
                            Ok(f) => {
                                out.push(num_value(f));
                            },
                            Err(e) => {
                                proof {
                                    lemma_bcast_prefix_err(op, ems, i as int, f2.num(), f2.den(), true, e.model());
                                }
                                return Err(e);
                            },
                        }
                    },
                    _ => {
                        let c = clone_value(&els[i]);
                        out.push(c);
                    },
                }
                i += 1;
                proof {
                    assert(out@.drop_last() =~= outv0);
                    assert(vals_model(out@) == vals_model(outv0).push(out@.last().model()));
                    assert(ems.take(i as int).drop_last() =~= ems.take(i - 1));
                    assert(ems.take(i as int).last() == ems[i - 1]);
                }
            }
            proof {
                assert(ems.take(els@.len() as int) =~= ems);
            }
            Ok(Value { val_type: ValueType::Vector(out) })
        },
        (ValueType::Vector(x), ValueType::Vector(y)) => {
            let ghost xm = vals_model(x@);
            let ghost ym = vals_model(y@);
            proof {
                lemma_vals_model(x@);
                lemma_vals_model(y@);
            }
            if x.len() != y.len() {
                return Err(EvalError::LengthMismatch);
            }
            let mut out: Vec<Value> = Vec::new();
            let mut i: usize = 0;
            while i < x.len()
                invariant
                    i <= x@.len(),
                    zip_seq(op, xm.take(i as int), ym.take(i as int)) == Ok::<
                        Seq<ValModel>,
                        ErrModel,
                    >(vals_model(out@)),
                decreases x@.len() - i,
            {
                let ghost outv0 = out@;
                let ghost outm0 = vals_model(out@);
                match (&x[i].val_type, &y[i].val_type) {
                    (ValueType::Number(f1), ValueType::Number(f2)) => {
                        match frac_arith(op, f1, f2) {
                            Ok(f) => {
                                out.push(num_value(f));
                            },
                            Err(e) => {
                                proof {
                                    lemma_zip_prefix_err(op, xm, ym, i as int, e.model());
                                }
                                return Err(e);
                            },
                        }
                    },
                    _ => {
                        let c = clone_value(&x[i]);
                        out.push(c);
                    },
                }
                i += 1;
                proof {
                    assert(out@.drop_last() =~= outv0);
                    assert(vals_model(out@) == vals_model(outv0).push(out@.last().model()));
                    assert(xm.take(i as int).drop_last() =~= xm.take(i - 1));
                    assert(ym.take(i as int).drop_last() =~= ym.take(i - 1));
                }
            }
            proof {
                assert(xm.take(x@.len() as int) =~= xm);
                assert(ym.take(y@.len() as int) =~= ym);
            }
            Ok(Value { val_type: ValueType::Vector(out) })
        },
        _ => {
            Err(
                EvalError::TypeError {
                    operation: op_name(op),
                    expected: str_to_string("numbers or vectors"),
                },
            )
        },
    }
}

/// Apply an ordering comparison to two operands with implicit broadcasting.
#[verifier::loop_isolation(false)]
#[verifier::rlimit(60)]
pub fn eval_cmp(op: CmpOp, a: &Value, b: &Value) -> (r: Result<Value, EvalError>)
    ensures
        (match r {
            Ok(v) => spec_cmp(op, a.model(), b.model()) == Ok::<ValModel, ErrModel>(v.model()),
            Err(e) => spec_cmp(op, a.model(), b.model()) == Err::<ValModel, ErrModel>(e.model()),
        }),
{
    match (&a.val_type, &b.val_type) {
        (ValueType::Number(f1), ValueType::Number(f2)) => {
            let c = frac_cmp(op, f1, f2);
            Ok(Value { val_type: ValueType::Boolean(c) })
        },
        (ValueType::Vector(els), ValueType::Number(f2)) => {
            let ghost ems = vals_model(els@);
            proof {
                lemma_vals_model(els@);
            }
            let mut out: Vec<Value> = Vec::new();
            let mut i: usize = 0;
            while i < els.len()
                invariant
                    i <= els@.len(),
                    vals_model(out@).len() == i,
                    forall|j: int| 0 <= j < i ==> vals_model(out@)[j] == cmp_elem(
                        op,
                        ems[j],
                        f2.num(),
                        f2.den(),
                        false,
                    ),
                decreases els@.len() - i,
            {
                let ghost outv0 = out@;
                match &els[i].val_type {
                    ValueType::Number(f1) => {
                        let c = frac_cmp(op, f1, f2);
                        out.push(Value { val_type: ValueType::Boolean(c) });
                    },
                    _ => {
                        out.push(Value { val_type: ValueType::Boolean(false) });
                    },
                }
                i += 1;
                proof {
                    assert(out@.drop_last() =~= outv0);
                    assert(vals_model(out@) == vals_model(outv0).push(out@.last().model()));
                }
            }
            proof {
                assert(vals_model(out@) =~= cmp_bcast_seq(op, ems, f2.num(), f2.den(), false));
            }
            Ok(Value { val_type: ValueType::Vector(out) })
        },
        (ValueType::Number(f2), ValueType::Vector(els)) => {
            let ghost ems = vals_model(els@);
            proof {
                lemma_vals_model(els@);
            }
            let mut out: Vec<Value> = Vec::new();
            let mut i: usize = 0;
            while i < els.len()
                invariant
                    i <= els@.len(),
                    vals_model(out@).len() == i,
                    forall|j: int| 0 <= j < i ==> vals_model(out@)[j] == cmp_elem(
                        op,
                        ems[j],
                        f2.num(),
                        f2.den(),
                        true,
                    ),
                decreases els@.len() - i,
            {
                let ghost outv0 = out@;
                match &els[i].val_type {
                    ValueType::Number(f1) => {
                        let c = frac_cmp(op, f2, f1);
                        out.push(Value { val_type: ValueType::Boolean(c) });
                    },
                    _ => {
                        out.push(Value { val_type: ValueType::Boolean(false) });
                    },
                }
                i += 1;
                proof {
                    assert(out@.drop_last() =~= outv0);
                    assert(vals_model(out@) == vals_model(outv0).push(out@.last().model()));
                }
            }
            proof {
                assert(vals_model(out@) =~= cmp_bcast_seq(op, ems, f2.num(), f2.den(), true));
            }
            Ok(Value { val_type: ValueType::Vector(out) })
        },
        (ValueType::Vector(x), ValueType::Vector(y)) => {
            let ghost xm = vals_model(x@);
            let ghost ym = vals_model(y@);
            proof {
                lemma_vals_model(x@);
                lemma_vals_model(y@);
            }
            if x.len() != y.len() {
                return Err(EvalError::LengthMismatch);
            }
            let mut out: Vec<Value> = Vec::new();
            let mut i: usize = 0;
            while i < x.len()
                invariant
                    i <= x@.len(),
                    vals_model(out@).len() == i,
                    forall|j: int| 0 <= j < i ==> vals_model(out@)[j] == cmp_zip_elem(
                        op,
                        xm[j],
                        ym[j],
                    ),
                decreases x@.len() - i,
            {
                let ghost outv0 = out@;
                match (&x[i].val_type, &y[i].val_type) {
                    (ValueType::Number(f1), ValueType::Number(f2)) => {
                        let c = frac_cmp(op, f1, f2);
                        out.push(Value { val_type: ValueType::Boolean(c) });
                    },
                    _ => {
                        out.push(Value { val_type: ValueType::Boolean(false) });
                    },
                }
                i += 1;
                proof {
                    assert(out@.drop_last() =~= outv0);
                    assert(vals_model(out@) == vals_model(outv0).push(out@.last().model()));
                }
            }
            proof {
                assert(vals_model(out@) =~= Seq::new(
                    xm.len(),
                    |j: int| cmp_zip_elem(op, xm[j], ym[j]),
                ));
            }
            Ok(Value { val_type: ValueType::Vector(out) })
        },
        _ => {
            Err(
                EvalError::TypeError {
                    operation: cmp_name(op),
                    expected: str_to_string("numbers or vectors"),
                },
            )
        },
    }
}

/// Structural equality test (the `=` word).
pub fn eval_equal(a: &Value, b: &Value) -> (r: Value)
    ensures
        r.model() == ValModel::Bool(spec_equal(a.model(), b.model())),
{
    let c = match (&a.val_type, &b.val_type) {
        (ValueType::Number(f1), ValueType::Number(f2)) => f1.eq(f2),
        (ValueType::String(s1), ValueType::String(s2)) => *s1 == *s2,
        (ValueType::Boolean(b1), ValueType::Boolean(b2)) => *b1 == *b2,
        (ValueType::Symbol(s1), ValueType::Symbol(s2)) => *s1 == *s2,
        (ValueType::Nil, ValueType::Nil) => true,
        (ValueType::Vector(_), ValueType::Vector(_)) => crate::value::value_eq(a, b),
        _ => false,
    };
    Value { val_type: ValueType::Boolean(c) }
}

/// Logical negation with implicit broadcasting (the `NOT` word).
#[verifier::loop_isolation(false)]
pub fn eval_not(a: &Value) -> (r: Result<Value, EvalError>)
    ensures
        (match r {
            Ok(v) => spec_not(a.model()) == Ok::<ValModel, ErrModel>(v.model()),
            Err(e) => spec_not(a.model()) == Err::<ValModel, ErrModel>(e.model()),
        }),
{
    match &a.val_type {
        ValueType::Boolean(b) => Ok(Value { val_type: ValueType::Boolean(!*b) }),
        ValueType::Vector(els) => {
            let ghost ems = vals_model(els@);
            proof {
                lemma_vals_model(els@);
            }
            let mut out: Vec<Value> = Vec::new();
            let mut i: usize = 0;
            while i < els.len()
                invariant
                    i <= els@.len(),
                    vals_model(out@).len() == i,
                    forall|j: int| 0 <= j < i ==> vals_model(out@)[j] == (match ems[j] {
                        ValModel::Bool(b2) => ValModel::Bool(!b2),
                        _ => ems[j],
                    }),
                decreases els@.len() - i,
            {
                let ghost outv0 = out@;
                match &els[i].val_type {
                    ValueType::Boolean(b) => {
                        out.push(Value { val_type: ValueType::Boolean(!*b) });
                    },
                    _ => {
                        let c = clone_value(&els[i]);
                        out.push(c);
                    },
                }
                i += 1;
                proof {
                    assert(out@.drop_last() =~= outv0);
                    assert(vals_model(out@) == vals_model(outv0).push(out@.last().model()));
                }
            }
            proof {
                assert(vals_model(out@) =~= ems.map_values(
                    |e: ValModel|
                        match e {
                            ValModel::Bool(b2) => ValModel::Bool(!b2),
                            _ => e,
                        },
                ));
            }
            Ok(Value { val_type: ValueType::Vector(out) })
        },
        _ => {
            Err(
                EvalError::TypeError {
                    operation: str_to_string("NOT"),
                    expected: str_to_string("a boolean or vector"),
                },
            )
        },
    }
}

/// The exec name of a comparison operator.
fn cmp_name(op: CmpOp) -> (r: String)
    ensures
        r@ == cmp_text(op),
{
    match op {
        CmpOp::Gt => str_to_string(">"),
        CmpOp::Ge => str_to_string(">="),
        CmpOp::Lt => str_to_string("<"),
        CmpOp::Le => str_to_string("<="),
    }
}

/// An error while broadcasting over a prefix element makes the whole
/// broadcast fail with that error.
proof fn lemma_bcast_prefix_err(
    op: ArithOp,
    els: Seq<ValModel>,
    i: int,
    n2: int,
    d2: int,
    scalar_left: bool,
    e: ErrModel,
)
    requires
        0 <= i < els.len(),
        bcast_seq(op, els.take(i), n2, d2, scalar_left) is Ok,
        bcast_elem(op, els[i], n2, d2, scalar_left) == Err::<ValModel, ErrModel>(e),
    ensures
        bcast_seq(op, els, n2, d2, scalar_left) == Err::<Seq<ValModel>, ErrModel>(e),
    decreases els.len() - i,
{
    assert(els.take(i + 1).drop_last() =~= els.take(i));
    assert(els.take(i + 1).last() == els[i]);
    if i + 1 == els.len() {
        assert(els.take(i + 1) =~= els);
    } else {
        lemma_bcast_err_extends(op, els, i + 1, n2, d2, scalar_left, e);
    }
}

/// A failing broadcast prefix keeps failing as the prefix grows.
proof fn lemma_bcast_err_extends(
    op: ArithOp,
    els: Seq<ValModel>,
    j: int,
    n2: int,
    d2: int,
    scalar_left: bool,
    e: ErrModel,
)
    requires
        0 < j <= els.len(),
        bcast_seq(op, els.take(j), n2, d2, scalar_left) == Err::<Seq<ValModel>, ErrModel>(e),
    ensures
        bcast_seq(op, els, n2, d2, scalar_left) == Err::<Seq<ValModel>, ErrModel>(e),
    decreases els.len() - j,
{
    if j == els.len() {
        assert(els.take(j) =~= els);
    } else {
        assert(els.take(j + 1).drop_last() =~= els.take(j));
        lemma_bcast_err_extends(op, els, j + 1, n2, d2, scalar_left, e);
    }
}

/// An error in an element-wise pair makes the whole zip fail with that error.
proof fn lemma_zip_prefix_err(op: ArithOp, x: Seq<ValModel>, y: Seq<ValModel>, i: int, e: ErrModel)
    requires
        x.len() == y.len(),
        0 <= i < x.len(),
        zip_seq(op, x.take(i), y.take(i)) is Ok,
        zip_elem(op, x[i], y[i]) == Err::<ValModel, ErrModel>(e),
    ensures
        zip_seq(op, x, y) == Err::<Seq<ValModel>, ErrModel>(e),
{
    assert(x.take(i + 1).drop_last() =~= x.take(i));
    assert(y.take(i + 1).drop_last() =~= y.take(i));
    assert(x.take(i + 1).last() == x[i]);
    assert(y.take(i + 1).last() == y[i]);
    lemma_zip_err_extends(op, x, y, i + 1, e);
}

/// A failing zip prefix keeps failing as the prefix grows.
proof fn lemma_zip_err_extends(op: ArithOp, x: Seq<ValModel>, y: Seq<ValModel>, j: int, e: ErrModel)
    requires
        x.len() == y.len(),
        0 < j <= x.len(),
        zip_seq(op, x.take(j), y.take(j)) == Err::<Seq<ValModel>, ErrModel>(e),
    ensures
        zip_seq(op, x, y) == Err::<Seq<ValModel>, ErrModel>(e),
    decreases x.len() - j,
{
    if j == x.len() {
        assert(x.take(j) =~= x);
        assert(y.take(j) =~= y);
    } else {
        assert(x.take(j + 1).drop_last() =~= x.take(j));
        assert(y.take(j + 1).drop_last() =~= y.take(j));
        lemma_zip_err_extends(op, x, y, j + 1, e);
    }
}

/// The exec name of an arithmetic operator.
fn op_name(op: ArithOp) -> (r: String)
    ensures
        r@ == op_text(op),
{
    match op {
        ArithOp::Add => str_to_string("+"),
        ArithOp::Sub => str_to_string("-"),
        ArithOp::Mul => str_to_string("*"),
        ArithOp::Div => str_to_string("/"),
    }
}

/// Build an owned string from a literal.
pub fn str_to_string(s: &str) -> (r: String)
    ensures
        r@ == s@,
{
    let v = str_to_chars(s);
    crate::text::chars_to_string(&v)
}

} // verus!
