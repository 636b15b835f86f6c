use vstd::prelude::*;
use crate::tokenizer::{ParseReason, PErrModel};
use crate::text::chars_to_string;

verus! {

/// Set of the character-sequence views of a vector of strings.
pub open spec fn strs_set(v: Seq<String>) -> Set<Seq<char>>
    decreases v,
{
    if v.len() == 0 {
        Set::empty()
    } else {
        strs_set(v.drop_last()).insert(v.last()@)
    }
}

/// `strs_set` holds exactly the views of the vector's strings.
pub proof fn lemma_strs_set(v: Seq<String>)
    ensures
        forall|s: Seq<char>| strs_set(v).contains(s) <==> (exists|i: int|
            0 <= i < v.len() && v[i]@ == s),
    decreases v,
{
    if v.len() > 0 {
        lemma_strs_set(v.drop_last());
        assert(forall|i: int| 0 <= i < v.len() - 1 ==> v.drop_last()[i] == v[i]);
        assert forall|s: Seq<char>| strs_set(v).contains(s) implies (exists|i: int|
            0 <= i < v.len() && v[i]@ == s) by {
            if s == v.last()@ {
                assert(v[v.len() - 1]@ == s);
            } else {
                assert(strs_set(v.drop_last()).contains(s));
                let i = choose|i: int| 0 <= i < v.drop_last().len() && v.drop_last()[i]@ == s;
                assert(v[i]@ == s);
            }
        }
        assert forall|s: Seq<char>| (exists|i: int| 0 <= i < v.len() && v[i]@ == s) implies
            strs_set(v).contains(s) by {
            let i = choose|i: int| 0 <= i < v.len() && v[i]@ == s;
            assert(strs_set(v) == strs_set(v.drop_last()).insert(v.last()@));
            if i < v.len() - 1 {
                assert(v.drop_last()[i]@ == s);
                assert(exists|j: int| 0 <= j < v.drop_last().len() && v.drop_last()[j]@ == s);
                assert(strs_set(v.drop_last()).contains(s));
            } else {
                assert(v.last()@ == s);
            }
        }
    }
}

/// The typed failures of the engine: every operation reports one of these
/// instead of aborting.
#[derive(Debug)]
pub enum EvalError {
    /// An operation needed more operands than the stack holds.
    StackUnderflow,
    /// An operand had the wrong kind for the named operation.
    TypeError { operation: String, expected: String },
    /// A symbol named neither an operator, a builtin, nor a defined word.
    UnknownWord(String),
    /// Division by an exact zero.
    DivisionByZero,
    /// An index outside `[-len, len)`.
    IndexOutOfBounds { index: i64, length: i64 },
    /// Element-wise operation on vectors of different lengths.
    LengthMismatch,
    /// A dictionary entry marked builtin with no handler.
    UnknownBuiltin(String),
    /// The word cannot be redefined or deleted while others depend on it.
    DependencyViolation { word: String, dependents: Vec<String> },
    /// A builtin word cannot be redefined.
    RedefineBuiltin(String),
    /// A builtin word cannot be deleted.
    DeleteBuiltin(String),
    /// Deletion of a word that is not defined.
    WordNotFound(String),
    /// The source text was rejected by the tokenizer.
    Parse(ParseReason),
    /// A vector literal with no closing bracket.
    UnclosedVector,
    /// A closing bracket with no opening one.
    UnexpectedVectorEnd,
    /// A control-flow marker outside its form.
    MisplacedControl(String),
    /// A loop ran past the iteration cap.
    LoopLimitExceeded,
    /// `R>` or `R@` on an empty register.
    RegisterEmpty,
    /// Word expansion nested past the recursion cap.
    RecursionLimitExceeded,
    /// An exact result no longer fits the machine representation.
    NumericOverflow,
}

/// Mathematical model of a failure: names become character sequences and the
/// dependents of a violation become a set.
#[verifier::ext_equal]
pub enum ErrModel {
    StackUnderflow,
    TypeError { operation: Seq<char>, expected: Seq<char> },
    UnknownWord(Seq<char>),
    DivisionByZero,
    IndexOutOfBounds { index: int, length: int },
    LengthMismatch,
    UnknownBuiltin(Seq<char>),
    DependencyViolation { word: Seq<char>, dependents: Set<Seq<char>> },
    RedefineBuiltin(Seq<char>),
    DeleteBuiltin(Seq<char>),
    WordNotFound(Seq<char>),
    Parse(PErrModel),
    UnclosedVector,
    UnexpectedVectorEnd,
    MisplacedControl(Seq<char>),
    LoopLimitExceeded,
    RegisterEmpty,
    RecursionLimitExceeded,
    NumericOverflow,
}

impl EvalError {
    /// The mathematical model of this failure.
    pub open spec fn model(self) -> ErrModel {
        match self {
            EvalError::StackUnderflow => ErrModel::StackUnderflow,
            EvalError::TypeError { operation, expected } => ErrModel::TypeError {
                operation: operation@,
                expected: expected@,
            },
            EvalError::UnknownWord(w) => ErrModel::UnknownWord(w@),
            EvalError::DivisionByZero => ErrModel::DivisionByZero,
            EvalError::IndexOutOfBounds { index, length } => ErrModel::IndexOutOfBounds {
                index: index as int,
                length: length as int,
            },
            EvalError::LengthMismatch => ErrModel::LengthMismatch,
            EvalError::UnknownBuiltin(w) => ErrModel::UnknownBuiltin(w@),
            EvalError::DependencyViolation { word, dependents } => ErrModel::DependencyViolation {
                word: word@,
                dependents: strs_set(dependents@),
            },
            EvalError::RedefineBuiltin(w) => ErrModel::RedefineBuiltin(w@),
            EvalError::DeleteBuiltin(w) => ErrModel::DeleteBuiltin(w@),
            EvalError::WordNotFound(w) => ErrModel::WordNotFound(w@),
            EvalError::Parse(p) => ErrModel::Parse(p.model()),
            EvalError::UnclosedVector => ErrModel::UnclosedVector,
            EvalError::UnexpectedVectorEnd => ErrModel::UnexpectedVectorEnd,
            EvalError::MisplacedControl(w) => ErrModel::MisplacedControl(w@),
            EvalError::LoopLimitExceeded => ErrModel::LoopLimitExceeded,
            EvalError::RegisterEmpty => ErrModel::RegisterEmpty,
            EvalError::RecursionLimitExceeded => ErrModel::RecursionLimitExceeded,
            EvalError::NumericOverflow => ErrModel::NumericOverflow,
        }
    }

    /// A short fixed description of the failure kind, for hosts to display.
    pub fn kind_text(&self) -> (r: String)
        ensures
            r@ == self.kind_text_model(),
    {
        let text: &str = match self {
            EvalError::StackUnderflow => "stack underflow",
            EvalError::TypeError { .. } => "type error",
            EvalError::UnknownWord(_) => "unknown word",
            EvalError::DivisionByZero => "division by zero",
            EvalError::IndexOutOfBounds { .. } => "index out of bounds",
            EvalError::LengthMismatch => "vector length mismatch",
            EvalError::UnknownBuiltin(_) => "unknown builtin",
            EvalError::DependencyViolation { .. } => "dependency violation",
            EvalError::RedefineBuiltin(_) => "cannot redefine builtin word",
            EvalError::DeleteBuiltin(_) => "cannot delete builtin word",
            EvalError::WordNotFound(_) => "word not found",
            EvalError::Parse(_) => "parse error",
            EvalError::UnclosedVector => "unclosed vector",
            EvalError::UnexpectedVectorEnd => "unexpected vector end",
            EvalError::MisplacedControl(_) => "misplaced control word",
            EvalError::LoopLimitExceeded => "loop limit exceeded",
            EvalError::RegisterEmpty => "register is empty",
            EvalError::RecursionLimitExceeded => "recursion limit exceeded",
            EvalError::NumericOverflow => "numeric overflow",
        };
        let v = crate::text::str_to_chars(text);
        chars_to_string(&v)
    }

    /// The text `kind_text` returns for each failure kind.
    pub open spec fn kind_text_model(self) -> Seq<char> {
        match self {
            EvalError::StackUnderflow => "stack underflow"@,
            EvalError::TypeError { .. } => "type error"@,
            EvalError::UnknownWord(_) => "unknown word"@,
            EvalError::DivisionByZero => "division by zero"@,
            EvalError::IndexOutOfBounds { .. } => "index out of bounds"@,
            EvalError::LengthMismatch => "vector length mismatch"@,
            EvalError::UnknownBuiltin(_) => "unknown builtin"@,
            EvalError::DependencyViolation { .. } => "dependency violation"@,
            EvalError::RedefineBuiltin(_) => "cannot redefine builtin word"@,
            EvalError::DeleteBuiltin(_) => "cannot delete builtin word"@,
            EvalError::WordNotFound(_) => "word not found"@,
            EvalError::Parse(_) => "parse error"@,
            EvalError::UnclosedVector => "unclosed vector"@,
            EvalError::UnexpectedVectorEnd => "unexpected vector end"@,
            EvalError::MisplacedControl(_) => "misplaced control word"@,
            EvalError::LoopLimitExceeded => "loop limit exceeded"@,
            EvalError::RegisterEmpty => "register is empty"@,
            EvalError::RecursionLimitExceeded => "recursion limit exceeded"@,
            EvalError::NumericOverflow => "numeric overflow"@,
        }
    }
}

} // verus!
