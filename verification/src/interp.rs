use vstd::prelude::*;
use crate::fraction::Fraction;
use crate::value::{
    Value, ValueType, ValModel, vals_model, lemma_vals_model, clone_value, push_value_text,
    vm_text,
};
use crate::tokenizer::{Token, TokModel, toks_model, tokenize, spec_tokenize};
use crate::errors::{EvalError, ErrModel, strs_set};
use crate::dict::{
    Dictionary, EntryModel, spec_define, spec_delete, delete_post, opt_str_model, vms_to_toks,
    vm_to_toks,
};
use crate::builtins::{register_builtins, is_builtin_name, builtins_inv};
use crate::ops::{ArithOp, CmpOp, eval_arith, eval_cmp, eval_equal, eval_not, str_to_string};
use crate::text::{str_eq_str, to_upper_chars, chars_to_string, str_to_chars, upper_seq};

verus! {

/// Iteration cap for the open loop forms.
pub const LOOP_LIMIT: u32 = 10000;

/// Nesting cap for word expansion and re-entrant control flow.
pub const MAX_DEPTH: u32 = 200;

/// Appending one value to a sequence appends its model.
pub proof fn lemma_vals_push(s: Seq<Value>, x: Value)
    ensures
        vals_model(s.push(x)) == vals_model(s).push(x.model()),
{
    assert(s.push(x).drop_last() =~= s);
    assert(s.push(x).last() == x);
}

/// Dropping the last value drops the last model.
pub proof fn lemma_vals_pop(s: Seq<Value>)
    requires
        s.len() > 0,
    ensures
        vals_model(s.drop_last()) == vals_model(s).drop_last(),
        s.last().model() == vals_model(s).last(),
        vals_model(s).len() == s.len(),
{
    lemma_vals_model(s);
    assert(vals_model(s) == vals_model(s.drop_last()).push(s.last().model()));
    assert(vals_model(s.drop_last()) =~= vals_model(s).drop_last());
}

/// The execution engine: an operand stack, a single-value register, a
/// word dictionary with dependency tracking, a loop-index stack for counted
/// loops, an output buffer, and the bookkeeping for single-stepping.
///
/// The register used by `>R`, `R>` and `R@` is a dedicated slot, separate
/// from the loop-index stack that `DO`/`LOOP` maintain and `I`/`J` read, so
/// interleaving register use with counted loops cannot corrupt the indices.
#[derive(Debug)]
pub struct Interpreter {
    stack: Vec<Value>,
    register: Option<Value>,
    dictionary: Dictionary,
    loop_stack: Vec<(i64, i64)>,
    step_tokens: Vec<Token>,
    step_position: usize,
    step_mode: bool,
    output_buffer: Vec<char>,
}

impl Interpreter {
    /// Models of the operand stack values, bottom first.
    pub closed spec fn stack_m(&self) -> Seq<ValModel> {
        vals_model(self.stack@)
    }

    /// Model of the register content.
    pub closed spec fn register_m(&self) -> Option<ValModel> {
        match self.register {
            Some(v) => Some(v.model()),
            None => None,
        }
    }

    /// Model of the dictionary.
    pub closed spec fn dict_m(&self) -> Map<Seq<char>, EntryModel> {
        self.dictionary.model()
    }

    /// The loop-index stack: pairs of limit and running index, innermost
    /// last.
    pub closed spec fn loops_m(&self) -> Seq<(i64, i64)> {
        self.loop_stack@
    }

    /// The pending output text.
    pub closed spec fn output_m(&self) -> Seq<char> {
        self.output_buffer@
    }

    /// Models of the tokens loaded for single-stepping.
    pub closed spec fn step_toks_m(&self) -> Seq<TokModel> {
        toks_model(self.step_tokens@)
    }

    /// Position of the next single-step token.
    pub closed spec fn step_pos_m(&self) -> int {
        self.step_position as int
    }

    /// Whether single-stepping is active.
    pub closed spec fn step_on_m(&self) -> bool {
        self.step_mode
    }

    /// The machine state this engine denotes.
    pub open spec fn state_m(&self) -> MachineState {
        MachineState {
            stack: self.stack_m(),
            register: self.register_m(),
            dict: self.dict_m(),
            loops: self.loops_m(),
            output: self.output_m(),
        }
    }

    /// The dictionary is well formed and every builtin word is present and
    /// marked as such.
    pub closed spec fn wf(&self) -> bool {
        self.dictionary.wf() && builtins_inv(self.dictionary.model())
    }

    /// A fresh engine: empty stack, empty register, empty output, and a
    /// dictionary holding exactly the builtin words.
    pub fn new() -> (r: Interpreter)
        ensures
            r.wf(),
            r.stack_m() == Seq::<ValModel>::empty(),
            r.register_m() is None,
            r.output_m() == Seq::<char>::empty(),
            r.loops_m() == Seq::<(i64, i64)>::empty(),
            !r.step_on_m(),
            forall|k: Seq<char>| r.dict_m().dom().contains(k) <==> is_builtin_name(k),
            forall|k: Seq<char>| is_builtin_name(k) ==> (#[trigger] r.dict_m()[k]).builtin
                && r.dict_m()[k].body == Seq::<TokModel>::empty() && r.dict_m()[k].dependents
                == Set::<Seq<char>>::empty() && r.dict_m()[k].desc is Some,
    {
        let mut dictionary = Dictionary::new();
        register_builtins(&mut dictionary);
        let r = Interpreter {
            stack: Vec::new(),
            register: None,
            dictionary,
            loop_stack: Vec::new(),
            step_tokens: Vec::new(),
            step_position: 0,
            step_mode: false,
            output_buffer: Vec::new(),
        };
        proof {
            assert(vals_model(r.stack@) =~= Seq::<ValModel>::empty());
        }
        r
    }

    /// The operand stack, bottom first.
    pub fn get_stack(&self) -> (r: &Vec<Value>)
        ensures
            vals_model(r@) == self.stack_m(),
    {
        &self.stack
    }

    /// The register content.
    pub fn get_register(&self) -> (r: &Option<Value>)
        ensures
            (match r {
                Some(v) => self.register_m() == Some(v.model()),
                None => self.register_m() is None,
            }),
    {
        &self.register
    }

    /// Drain the output buffer: returns the accumulated text and clears it.
    pub fn get_output(&mut self) -> (r: String)
        ensures
            r@ == old(self).output_m(),
            final(self).output_m() == Seq::<char>::empty(),
            final(self).wf() == old(self).wf(),
            final(self).stack_m() == old(self).stack_m(),
            final(self).register_m() == old(self).register_m(),
            final(self).dict_m() == old(self).dict_m(),
            final(self).loops_m() == old(self).loops_m(),
            final(self).step_toks_m() == old(self).step_toks_m(),
            final(self).step_pos_m() == old(self).step_pos_m(),
            final(self).step_on_m() == old(self).step_on_m(),
    {
        let r = chars_to_string(&self.output_buffer);
        self.output_buffer = Vec::new();
        proof {
            assert(self.output_buffer@ =~= Seq::<char>::empty());
        }
        r
    }

    /// Append text to the output buffer.
    fn append_chars(&mut self, text: &Vec<char>)
        ensures
            final(self).output_m() == old(self).output_m() + text@,
            final(self).stack == old(self).stack,
            final(self).register == old(self).register,
            final(self).dictionary == old(self).dictionary,
            final(self).loop_stack == old(self).loop_stack,
            final(self).step_tokens == old(self).step_tokens,
            final(self).step_position == old(self).step_position,
            final(self).step_mode == old(self).step_mode,
    {
        let mut i: usize = 0;
        while i < text.len()
            invariant
                i <= text@.len(),
                self.output_buffer@ =~= old(self).output_buffer@ + text@.take(i as int),
                self.stack == old(self).stack,
                self.register == old(self).register,
                self.dictionary == old(self).dictionary,
                self.loop_stack == old(self).loop_stack,
                self.step_tokens == old(self).step_tokens,
                self.step_position == old(self).step_position,
                self.step_mode == old(self).step_mode,
            decreases text@.len() - i,
        {
            self.output_buffer.push(text[i]);
            i += 1;
            proof {
                assert(self.output_buffer@ =~= old(self).output_buffer@ + text@.take(i as int));
            }
        }
        proof {
            assert(text@.take(text@.len() as int) =~= text@);
        }
    }

    /// Names of the user-defined words, in definition order.
    pub fn get_custom_words(&self) -> (r: Vec<String>)
        requires
            self.wf(),
        ensures
            forall|i: int| 0 <= i < r@.len() ==> self.dict_m().dom().contains(#[trigger] r@[i]@)
                && !self.dict_m()[r@[i]@].builtin,
            forall|k: Seq<char>| self.dict_m().dom().contains(k) && !self.dict_m()[k].builtin
                ==> strs_set(r@).contains(k),
            forall|a: int, b: int| 0 <= a < b < r@.len() ==> r@[a]@ != r@[b]@,
    {
        self.dictionary.custom_words()
    }

    /// User-defined words with their description texts.
    pub fn get_custom_words_with_descriptions(&self) -> (r: Vec<(String, Option<String>)>)
        requires
            self.wf(),
        ensures
            forall|i: int| 0 <= i < r@.len() ==> self.dict_m().dom().contains(
                #[trigger] r@[i].0@,
            ) && !self.dict_m()[r@[i].0@].builtin && self.dict_m()[r@[i].0@].desc
                == opt_str_model(r@[i].1),
    {
        let info = self.dictionary.custom_words_info();
        let mut out: Vec<(String, Option<String>)> = Vec::new();
        let mut i: usize = 0;
        while i < info.len()
            invariant
                i <= info@.len(),
                forall|j: int| 0 <= j < info@.len() ==> self.dict_m().dom().contains(
                    #[trigger] info@[j].0@,
                ) && !self.dict_m()[info@[j].0@].builtin && self.dict_m()[info@[j].0@].desc
                    == opt_str_model(info@[j].1),
                out@.len() == i,
                forall|j: int| 0 <= j < i ==> (#[trigger] out@[j]).0 == info@[j].0 && out@[j].1
                    == info@[j].1,
            decreases info@.len() - i,
        {
            let (name, desc, _) = info_entry(&info, i);
            out.push((name, desc));
            i += 1;
        }
        out
    }

    /// User-defined words with their descriptions and whether dependents
    /// protect them from deletion.
    pub fn get_custom_words_info(&self) -> (r: Vec<(String, Option<String>, bool)>)
        requires
            self.wf(),
        ensures
            forall|i: int| 0 <= i < r@.len() ==> self.dict_m().dom().contains(
                #[trigger] r@[i].0@,
            ) && !self.dict_m()[r@[i].0@].builtin && self.dict_m()[r@[i].0@].desc
                == opt_str_model(r@[i].1) && (r@[i].2 == (self.dict_m()[r@[i].0@].dependents
                != Set::<Seq<char>>::empty())),
            forall|k: Seq<char>| self.dict_m().dom().contains(k) && !self.dict_m()[k].builtin
                ==> exists|i: int| 0 <= i < r@.len() && #[trigger] r@[i].0@ == k,
    {
        self.dictionary.custom_words_info()
    }

    /// The words whose bodies reference `name`.
    pub fn get_dependencies(&self, name: &str) -> (r: Vec<String>)
        requires
            self.wf(),
        ensures
            strs_set(r@) == if self.dict_m().dom().contains(name@) {
                self.dict_m()[name@].dependents
            } else {
                Set::<Seq<char>>::empty()
            },
    {
        self.dictionary.dependents_of(name)
    }

    /// Delete the word `name` (exactly as given), refusing builtins, unknown
    /// names, and words that others depend on.
    pub fn delete_word(&mut self, name: &str) -> (r: Result<(), EvalError>)
        requires
            old(self).wf(),
        ensures
            final(self).wf(),
            delete_post(old(self).dict_m(), name@, final(self).dict_m(), r),
            final(self).stack_m() == old(self).stack_m(),
            final(self).register_m() == old(self).register_m(),
            final(self).output_m() == old(self).output_m(),
    {
        let ghost m0 = self.dictionary.model();
        let r = self.dictionary.delete(name);
        proof {
            if r is Ok {
                lemma_delete_keeps_builtins(m0, name@);
            }
        }
        r
    }
}

/// Everything except the operand stack is unchanged.
spec fn only_stack(a: Interpreter, b: Interpreter) -> bool {
    &&& a.register == b.register
    &&& a.dictionary == b.dictionary
    &&& a.loop_stack == b.loop_stack
    &&& a.step_tokens == b.step_tokens
    &&& a.step_position == b.step_position
    &&& a.step_mode == b.step_mode
    &&& a.output_buffer == b.output_buffer
}

/// Everything except the stack and the register is unchanged.
spec fn only_stack_reg(a: Interpreter, b: Interpreter) -> bool {
    &&& a.dictionary == b.dictionary
    &&& a.loop_stack == b.loop_stack
    &&& a.step_tokens == b.step_tokens
    &&& a.step_position == b.step_position
    &&& a.step_mode == b.step_mode
    &&& a.output_buffer == b.output_buffer
}

/// Everything except the stack and the output buffer is unchanged.
spec fn only_stack_out(a: Interpreter, b: Interpreter) -> bool {
    &&& a.register == b.register
    &&& a.dictionary == b.dictionary
    &&& a.loop_stack == b.loop_stack
    &&& a.step_tokens == b.step_tokens
    &&& a.step_position == b.step_position
    &&& a.step_mode == b.step_mode
}

/// Everything except the stack and the dictionary is unchanged.
spec fn only_stack_dict(a: Interpreter, b: Interpreter) -> bool {
    &&& a.register == b.register
    &&& a.loop_stack == b.loop_stack
    &&& a.step_tokens == b.step_tokens
    &&& a.step_position == b.step_position
    &&& a.step_mode == b.step_mode
    &&& a.output_buffer == b.output_buffer
}

/// The shape `DEF` needs on the stack: a name string on top of a body vector.
pub open spec fn def_shape(s: Seq<ValModel>) -> bool {
    s.len() >= 2 && s.last() is Str && s[s.len() - 2] is Arr
}

impl Interpreter {
    /// Pop the top value, reporting an underflow on an empty stack.
    fn pop_value(&mut self) -> (r: Result<Value, EvalError>)
        ensures
            only_stack(*old(self), *final(self)),
            (match r {
                Ok(v) => old(self).stack_m().len() >= 1 && v.model() == old(self).stack_m().last() && final(self).stack_m() == old(self).stack_m().drop_last(),
                Err(e) => old(self).stack_m().len() == 0 && e.model() == ErrModel::StackUnderflow
                    && final(self).stack_m() == old(self).stack_m(),
            }),
    {
        proof {
            lemma_vals_model(self.stack@);
            if self.stack@.len() > 0 {
                lemma_vals_pop(self.stack@);
            }
        }
        match self.stack.pop() {
            Some(v) => Ok(v),
            None => Err(EvalError::StackUnderflow),
        }
    }

    /// Push a value.
    fn push_value(&mut self, v: Value)
        ensures
            only_stack(*old(self), *final(self)),
            final(self).stack_m() == old(self).stack_m().push(v.model()),
    {
        proof {
            lemma_vals_push(self.stack@, v);
        }
        self.stack.push(v);
    }

    /// `DUP`: duplicate the top item.
    fn op_dup(&mut self) -> (r: Result<(), EvalError>)
        ensures
            only_stack(*old(self), *final(self)),
            (match r {
                Ok(_) => old(self).stack_m().len() >= 1 && final(self).stack_m() == old(self).stack_m().push(old(self).stack_m().last()),
                Err(e) => old(self).stack_m().len() == 0 && e.model() == ErrModel::StackUnderflow
                    && final(self).stack_m() == old(self).stack_m(),
            }),
    {
        proof {
            lemma_vals_model(self.stack@);
        }
        if self.stack.len() == 0 {
            return Err(EvalError::StackUnderflow);
        }
        let c = clone_value(&self.stack[self.stack.len() - 1]);
        proof {
            lemma_vals_pop(self.stack@);
        }
        self.push_value(c);
        Ok(())
    }

    /// `DROP`: discard the top item.
    fn op_drop(&mut self) -> (r: Result<(), EvalError>)
        ensures
            only_stack(*old(self), *final(self)),
            (match r {
                Ok(_) => old(self).stack_m().len() >= 1 && final(self).stack_m() == old(self).stack_m().drop_last(),
                Err(e) => old(self).stack_m().len() == 0 && e.model() == ErrModel::StackUnderflow
                    && final(self).stack_m() == old(self).stack_m(),
            }),
    {
        match self.pop_value() {
            Ok(_) => Ok(()),
            Err(e) => Err(e),
        }
    }

    /// `SWAP`: exchange the top two items.
    fn op_swap(&mut self) -> (r: Result<(), EvalError>)
        ensures
            only_stack(*old(self), *final(self)),
            (match r {
                Ok(_) => old(self).stack_m().len() >= 2 && final(self).stack_m() == old(self).stack_m().drop_last().drop_last().push(old(self).stack_m().last()).push(
                    old(self).stack_m()[old(self).stack_m().len() - 2],
                ),
                Err(e) => old(self).stack_m().len() < 2 && e.model() == ErrModel::StackUnderflow
                    && final(self).stack_m() == old(self).stack_m(),
            }),
    {
        proof {
            lemma_vals_model(self.stack@);
        }
        if self.stack.len() < 2 {
            return Err(EvalError::StackUnderflow);
        }
        let b = match self.pop_value() {
            Ok(v) => v,
            Err(e) => {
                return Err(e);
            },
        };
        let a = match self.pop_value() {
            Ok(v) => v,
            Err(e) => {
                return Err(e);
            },
        };
        self.push_value(b);
        self.push_value(a);
        Ok(())
    }

    /// `OVER`: copy the second item to the top.
    fn op_over(&mut self) -> (r: Result<(), EvalError>)
        ensures
            only_stack(*old(self), *final(self)),
            (match r {
                Ok(_) => old(self).stack_m().len() >= 2 && final(self).stack_m() == old(self).stack_m().push(old(self).stack_m()[old(self).stack_m().len() - 2]),
                Err(e) => old(self).stack_m().len() < 2 && e.model() == ErrModel::StackUnderflow
                    && final(self).stack_m() == old(self).stack_m(),
            }),
    {
        proof {
            lemma_vals_model(self.stack@);
        }
        if self.stack.len() < 2 {
            return Err(EvalError::StackUnderflow);
        }
        let c = clone_value(&self.stack[self.stack.len() - 2]);
        self.push_value(c);
        Ok(())
    }

    /// `ROT`: rotate the third item to the top.
    fn op_rot(&mut self) -> (r: Result<(), EvalError>)
        ensures
            only_stack(*old(self), *final(self)),
            (match r {
                Ok(_) => old(self).stack_m().len() >= 3 && final(self).stack_m() == old(self).stack_m().drop_last().drop_last().drop_last().push(
                    old(self).stack_m()[old(self).stack_m().len() - 2],
                ).push(old(self).stack_m().last()).push(
                    old(self).stack_m()[old(self).stack_m().len() - 3],
                ),
                Err(e) => old(self).stack_m().len() < 3 && e.model() == ErrModel::StackUnderflow
                    && final(self).stack_m() == old(self).stack_m(),
            }),
    {
        proof {
            lemma_vals_model(self.stack@);
        }
        if self.stack.len() < 3 {
            return Err(EvalError::StackUnderflow);
        }
        let c = match self.pop_value() {
            Ok(v) => v,
            Err(e) => {
                return Err(e);
            },
        };
        let b = match self.pop_value() {
            Ok(v) => v,
            Err(e) => {
                return Err(e);
            },
        };
        let a = match self.pop_value() {
            Ok(v) => v,
            Err(e) => {
                return Err(e);
            },
        };
        self.push_value(b);
        self.push_value(c);
        self.push_value(a);
        Ok(())
    }

    /// `NIP`: discard the second item.
    fn op_nip(&mut self) -> (r: Result<(), EvalError>)
        ensures
            only_stack(*old(self), *final(self)),
            (match r {
                Ok(_) => old(self).stack_m().len() >= 2 && final(self).stack_m() == old(self).stack_m().drop_last().drop_last().push(old(self).stack_m().last()),
                Err(e) => old(self).stack_m().len() < 2 && e.model() == ErrModel::StackUnderflow
                    && final(self).stack_m() == old(self).stack_m(),
            }),
    {
        proof {
            lemma_vals_model(self.stack@);
        }
        if self.stack.len() < 2 {
            return Err(EvalError::StackUnderflow);
        }
        let b = match self.pop_value() {
            Ok(v) => v,
            Err(e) => {
                return Err(e);
            },
        };
        let _a = match self.pop_value() {
            Ok(v) => v,
            Err(e) => {
                return Err(e);
            },
        };
        self.push_value(b);
        Ok(())
    }

    /// `>R`: move the top item to the register.
    fn op_to_r(&mut self) -> (r: Result<(), EvalError>)
        ensures
            only_stack_reg(*old(self), *final(self)),
            (match r {
                Ok(_) => old(self).stack_m().len() >= 1 && final(self).stack_m() == old(self).stack_m().drop_last() && final(self).register_m() == Some(
                    old(self).stack_m().last(),
                ),
                Err(e) => old(self).stack_m().len() == 0 && e.model() == ErrModel::StackUnderflow
                    && final(self).stack_m() == old(self).stack_m() && final(self).register_m()
                    == old(self).register_m(),
            }),
    {
        let v = match self.pop_value() {
            Ok(v) => v,
            Err(e) => {
                return Err(e);
            },
        };
        self.register = Some(v);
        Ok(())
    }

    /// `R>`: move the register to the stack, emptying it.
    fn op_from_r(&mut self) -> (r: Result<(), EvalError>)
        ensures
            only_stack_reg(*old(self), *final(self)),
            (match r {
                Ok(_) => old(self).register_m() matches Some(v) && final(self).stack_m() == old(self).stack_m().push(v) && final(self).register_m() is None,
                Err(e) => old(self).register_m() is None && e.model() == ErrModel::RegisterEmpty
                    && final(self).stack_m() == old(self).stack_m() && final(self).register_m()
                    == old(self).register_m(),
            }),
    {
        let v = match self.register.take() {
            Some(v) => v,
            None => {
                return Err(EvalError::RegisterEmpty);
            },
        };
        self.push_value(v);
        Ok(())
    }

    /// `R@`: copy the register to the stack without emptying it.
    fn op_r_fetch(&mut self) -> (r: Result<(), EvalError>)
        ensures
            only_stack(*old(self), *final(self)),
            (match r {
                Ok(_) => old(self).register_m() matches Some(v) && final(self).stack_m() == old(self).stack_m().push(v),
                Err(e) => old(self).register_m() is None && e.model() == ErrModel::RegisterEmpty
                    && final(self).stack_m() == old(self).stack_m(),
            }),
    {
        let c = match &self.register {
            Some(v) => clone_value(v),
            None => {
                return Err(EvalError::RegisterEmpty);
            },
        };
        self.push_value(c);
        Ok(())
    }
}

impl Interpreter {
    /// Pop two operands for a binary word, reporting underflow.
    fn pop_two(&mut self) -> (r: Result<(Value, Value), EvalError>)
        ensures
            only_stack(*old(self), *final(self)),
            (match r {
                Ok(p) => old(self).stack_m().len() >= 2 && (p.0).model() == old(self).stack_m()[old(self).stack_m().len() - 2] && (p.1).model() == old(self).stack_m().last() && final(self).stack_m() == old(self).stack_m().drop_last().drop_last(),
                Err(e) => old(self).stack_m().len() < 2 && e.model() == ErrModel::StackUnderflow
                    && final(self).stack_m() == old(self).stack_m(),
            }),
    {
        proof {
            lemma_vals_model(self.stack@);
        }
        if self.stack.len() < 2 {
            return Err(EvalError::StackUnderflow);
        }
        let b = match self.pop_value() {
            Ok(v) => v,
            Err(e) => {
                return Err(e);
            },
        };
        let a = match self.pop_value() {
            Ok(v) => v,
            Err(e) => {
                return Err(e);
            },
        };
        Ok((a, b))
    }

    /// An arithmetic operator word: pops the two operands and pushes the
    /// broadcast result.
    fn op_arith(&mut self, op: ArithOp) -> (r: Result<(), EvalError>)
        ensures
            only_stack(*old(self), *final(self)),
            (match r {
                Ok(_) => {
                    &&& old(self).stack_m().len() >= 2
                    &&& crate::ops::spec_arith(
                        op,
                        old(self).stack_m()[old(self).stack_m().len() - 2],
                        old(self).stack_m().last(),
                    ) matches Ok(v)
                    &&& final(self).stack_m() == old(self).stack_m().drop_last().drop_last().push(v)
                },
                Err(e) => (old(self).stack_m().len() < 2 && e.model() == ErrModel::StackUnderflow
                    && final(self).stack_m() == old(self).stack_m()) || (old(self).stack_m().len()
                    >= 2 && crate::ops::spec_arith(
                    op,
                    old(self).stack_m()[old(self).stack_m().len() - 2],
                    old(self).stack_m().last(),
                ) == Err::<ValModel, ErrModel>(e.model()) && final(self).stack_m() == old(self).stack_m().drop_last().drop_last()),
            }),
    {
        let (a, b) = match self.pop_two() {
            Ok(p) => p,
            Err(e) => {
                return Err(e);
            },
        };
        match eval_arith(op, &a, &b) {
            Ok(v) => {
                self.push_value(v);
                Ok(())
            },
            Err(e) => Err(e),
        }
    }

    /// A comparison operator word.
    fn op_cmp(&mut self, op: CmpOp) -> (r: Result<(), EvalError>)
        ensures
            only_stack(*old(self), *final(self)),
            (match r {
                Ok(_) => {
                    &&& old(self).stack_m().len() >= 2
                    &&& crate::ops::spec_cmp(
                        op,
                        old(self).stack_m()[old(self).stack_m().len() - 2],
                        old(self).stack_m().last(),
                    ) matches Ok(v)
                    &&& final(self).stack_m() == old(self).stack_m().drop_last().drop_last().push(v)
                },
                Err(e) => (old(self).stack_m().len() < 2 && e.model() == ErrModel::StackUnderflow
                    && final(self).stack_m() == old(self).stack_m()) || (old(self).stack_m().len()
                    >= 2 && crate::ops::spec_cmp(
                    op,
                    old(self).stack_m()[old(self).stack_m().len() - 2],
                    old(self).stack_m().last(),
                ) == Err::<ValModel, ErrModel>(e.model()) && final(self).stack_m() == old(self).stack_m().drop_last().drop_last()),
            }),
    {
        let (a, b) = match self.pop_two() {
            Ok(p) => p,
            Err(e) => {
                return Err(e);
            },
        };
        match eval_cmp(op, &a, &b) {
            Ok(v) => {
                self.push_value(v);
                Ok(())
            },
            Err(e) => Err(e),
        }
    }

    /// The `=` word: structural equality, `false` across kinds.
    fn op_equal(&mut self) -> (r: Result<(), EvalError>)
        ensures
            only_stack(*old(self), *final(self)),
            (match r {
                Ok(_) => old(self).stack_m().len() >= 2 && final(self).stack_m() == old(self).stack_m().drop_last().drop_last().push(
                    ValModel::Bool(
                        crate::ops::spec_equal(
                            old(self).stack_m()[old(self).stack_m().len() - 2],
                            old(self).stack_m().last(),
                        ),
                    ),
                ),
                Err(e) => old(self).stack_m().len() < 2 && e.model() == ErrModel::StackUnderflow
                    && final(self).stack_m() == old(self).stack_m(),
            }),
    {
        let (a, b) = match self.pop_two() {
            Ok(p) => p,
            Err(e) => {
                return Err(e);
            },
        };
        let v = eval_equal(&a, &b);
        self.push_value(v);
        Ok(())
    }

    /// The `NOT` word.
    fn op_not(&mut self) -> (r: Result<(), EvalError>)
        ensures
            only_stack(*old(self), *final(self)),
            (match r {
                Ok(_) => {
                    &&& old(self).stack_m().len() >= 1
                    &&& crate::ops::spec_not(old(self).stack_m().last()) matches Ok(v)
                    &&& final(self).stack_m() == old(self).stack_m().drop_last().push(v)
                },
                Err(e) => (old(self).stack_m().len() == 0 && e.model()
                    == ErrModel::StackUnderflow && final(self).stack_m() == old(self).stack_m())
                    || (old(self).stack_m().len() >= 1 && crate::ops::spec_not(
                    old(self).stack_m().last(),
                ) == Err::<ValModel, ErrModel>(e.model()) && final(self).stack_m() == old(self).stack_m().drop_last()),
            }),
    {
        let a = match self.pop_value() {
            Ok(v) => v,
            Err(e) => {
                return Err(e);
            },
        };
        match eval_not(&a) {
            Ok(v) => {
                self.push_value(v);
                Ok(())
            },
            Err(e) => Err(e),
        }
    }

    /// `DEF`: pop a name string and a body vector and define the word,
    /// attaching the most recent description annotation, which is held
    /// pending until the next definition consumes it.
    fn op_def(&mut self, description: Option<String>) -> (r: Result<(), EvalError>)
        requires
            old(self).wf(),
        ensures
            final(self).wf(),
            only_stack_dict(*old(self), *final(self)),
            (match r {
                Ok(_) => def_shape(old(self).stack_m()) && spec_define(
                    old(self).dict_m(),
                    upper_seq(old(self).stack_m().last()->Str_0),
                    old(self).stack_m()[old(self).stack_m().len() - 2]->Arr_0,
                    opt_str_model(description),
                ) == Ok::<Map<Seq<char>, EntryModel>, ErrModel>(final(self).dict_m()) && final(self).stack_m() == old(self).stack_m().drop_last().drop_last(),
                Err(e) => {
                    &&& final(self).dict_m() == old(self).dict_m()
                    &&& ({
                        ||| ({
                            &&& old(self).stack_m().len() < 2
                            &&& e.model() == ErrModel::StackUnderflow
                            &&& final(self).stack_m() == old(self).stack_m()
                        })
                        ||| ({
                            &&& old(self).stack_m().len() >= 2
                            &&& final(self).stack_m() == old(self).stack_m().drop_last().drop_last()
                            &&& !def_shape(old(self).stack_m())
                            &&& e.model() == (ErrModel::TypeError {
                                operation: "DEF"@,
                                expected: "a vector and a string"@,
                            })
                        })
                        ||| ({
                            &&& def_shape(old(self).stack_m())
                            &&& final(self).stack_m() == old(self).stack_m().drop_last().drop_last()
                            &&& spec_define(
                                old(self).dict_m(),
                                upper_seq(old(self).stack_m().last()->Str_0),
                                old(self).stack_m()[old(self).stack_m().len() - 2]->Arr_0,
                                opt_str_model(description),
                            ) == Err::<Map<Seq<char>, EntryModel>, ErrModel>(e.model())
                        })
                    })
                },
            }),
    {
        proof {
            lemma_vals_model(self.stack@);
        }
        if self.stack.len() < 2 {
            return Err(EvalError::StackUnderflow);
        }
        let (body_val, name_val) = match self.pop_two() {
            Ok(p) => p,
            Err(e) => {
                return Err(e);
            },
        };
        match (name_val.val_type, body_val.val_type) {
            (ValueType::String(name), ValueType::Vector(body)) => {
                let nchars = str_to_chars(name.as_str());
                let upper = to_upper_chars(&nchars);
                let uname = chars_to_string(&upper);
                let ghost m0 = self.dictionary.model();
                let r = self.dictionary.define(uname.as_str(), &body, description);
                proof {
                    if r is Ok {
                        lemma_define_keeps_builtins(
                            m0,
                            uname@,
                            vals_model(body@),
                            opt_str_model(description),
                        );
                    }
                }
                r
            },
            _ => Err(
                EvalError::TypeError {
                    operation: str_to_string("DEF"),
                    expected: str_to_string("a vector and a string"),
                },
            ),
        }
    }

    /// `DEL`: pop a name string and delete the word (name uppercased).
    fn op_del(&mut self) -> (r: Result<(), EvalError>)
        requires
            old(self).wf(),
        ensures
            final(self).wf(),
            only_stack_dict(*old(self), *final(self)),
            (match r {
                Ok(_) => {
                    &&& old(self).stack_m().len() >= 1
                    &&& old(self).stack_m().last() matches ValModel::Str(nm)
                    &&& spec_delete(old(self).dict_m(), upper_seq(nm)) == Ok::<
                        Map<Seq<char>, EntryModel>,
                        ErrModel,
                    >(final(self).dict_m())
                    &&& final(self).stack_m() == old(self).stack_m().drop_last()
                },
                Err(e) => {
                    &&& final(self).dict_m() == old(self).dict_m()
                    &&& ({
                        ||| ({
                            &&& old(self).stack_m().len() == 0
                            &&& e.model() == ErrModel::StackUnderflow
                            &&& final(self).stack_m() == old(self).stack_m()
                        })
                        ||| ({
                            &&& old(self).stack_m().len() >= 1
                            &&& final(self).stack_m() == old(self).stack_m().drop_last()
                            &&& !(old(self).stack_m().last() is Str)
                            &&& e.model() == (ErrModel::TypeError {
                                operation: "DEL"@,
                                expected: "a string"@,
                            })
                        })
                        ||| ({
                            &&& old(self).stack_m().len() >= 1
                            &&& final(self).stack_m() == old(self).stack_m().drop_last()
                            &&& old(self).stack_m().last() matches ValModel::Str(nm)
                            &&& spec_delete(old(self).dict_m(), upper_seq(nm)) == Err::<
                                Map<Seq<char>, EntryModel>,
                                ErrModel,
                            >(e.model())
                        })
                    })
                },
            }),
    {
        let v = match self.pop_value() {
            Ok(v) => v,
            Err(e) => {
                return Err(e);
            },
        };
        match v.val_type {
            ValueType::String(name) => {
                let nchars = str_to_chars(name.as_str());
                let upper = to_upper_chars(&nchars);
                let uname = chars_to_string(&upper);
                let ghost m0 = self.dictionary.model();
                let r = self.dictionary.delete(uname.as_str());
                proof {
                    if r is Ok {
                        lemma_delete_keeps_builtins(m0, uname@);
                    }
                }
                r
            },
            _ => Err(
                EvalError::TypeError {
                    operation: str_to_string("DEL"),
                    expected: str_to_string("a string"),
                },
            ),
        }
    }
}

impl Interpreter {
    /// `LENGTH`: the length of a vector, as a number.
    fn op_length(&mut self) -> (r: Result<(), EvalError>)
        ensures
            only_stack(*old(self), *final(self)),
            (match r {
                Ok(_) => {
                    &&& old(self).stack_m().len() >= 1
                    &&& old(self).stack_m().last() matches ValModel::Arr(els)
                    &&& final(self).stack_m() == old(self).stack_m().drop_last().push(
                        ValModel::Num { n: els.len() as int, d: 1 },
                    )
                },
                Err(e) => {
                    ||| ({
                        &&& old(self).stack_m().len() == 0
                        &&& e.model() == ErrModel::StackUnderflow
                        &&& final(self).stack_m() == old(self).stack_m()
                    })
                    ||| ({
                        &&& old(self).stack_m().len() >= 1
                        &&& final(self).stack_m() == old(self).stack_m().drop_last()
                        &&& !(old(self).stack_m().last() is Arr)
                        &&& e.model() == (ErrModel::TypeError {
                            operation: "LENGTH"@,
                            expected: "a vector"@,
                        })
                    })
                    ||| ({
                        &&& old(self).stack_m().len() >= 1
                        &&& final(self).stack_m() == old(self).stack_m().drop_last()
                        &&& old(self).stack_m().last() matches ValModel::Arr(els)
                        &&& els.len() > i64::MAX
                        &&& e.model() == ErrModel::NumericOverflow
                    })
                },
            }),
    {
        let v = match self.pop_value() {
            Ok(v) => v,
            Err(e) => {
                return Err(e);
            },
        };
        match v.val_type {
            ValueType::Vector(items) => {
                proof {
                    lemma_vals_model(items@);
                }
                if items.len() as u64 > 0x7fff_ffff_ffff_ffff_u64 {
                    return Err(EvalError::NumericOverflow);
                }
                let n = items.len() as i64;
                proof {
                    lemma_red_int(n as int);
                }
                let f = Fraction::new(n, 1);
                self.push_value(Value { val_type: ValueType::Number(f) });
                Ok(())
            },
            _ => Err(
                EvalError::TypeError {
                    operation: str_to_string("LENGTH"),
                    expected: str_to_string("a vector"),
                },
            ),
        }
    }

    /// `HEAD`: the first element of a non-empty vector.
    fn op_head(&mut self) -> (r: Result<(), EvalError>)
        ensures
            only_stack(*old(self), *final(self)),
            (match r {
                Ok(_) => {
                    &&& old(self).stack_m().len() >= 1
                    &&& old(self).stack_m().last() matches ValModel::Arr(els)
                    &&& els.len() >= 1
                    &&& final(self).stack_m() == old(self).stack_m().drop_last().push(els[0])
                },
                Err(e) => {
                    ||| ({
                        &&& old(self).stack_m().len() == 0
                        &&& e.model() == ErrModel::StackUnderflow
                        &&& final(self).stack_m() == old(self).stack_m()
                    })
                    ||| ({
                        &&& old(self).stack_m().len() >= 1
                        &&& final(self).stack_m() == old(self).stack_m().drop_last()
                        &&& !(old(self).stack_m().last() is Arr)
                        &&& e.model() == (ErrModel::TypeError {
                            operation: "HEAD"@,
                            expected: "a vector"@,
                        })
                    })
                    ||| ({
                        &&& old(self).stack_m().len() >= 1
                        &&& final(self).stack_m() == old(self).stack_m().drop_last()
                        &&& old(self).stack_m().last() matches ValModel::Arr(els)
                        &&& els.len() == 0
                        &&& e.model() == (ErrModel::IndexOutOfBounds { index: 0, length: 0 })
                    })
                },
            }),
    {
        let v = match self.pop_value() {
            Ok(v) => v,
            Err(e) => {
                return Err(e);
            },
        };
        match v.val_type {
            ValueType::Vector(items) => {
                proof {
                    lemma_vals_model(items@);
                }
                if items.len() == 0 {
                    return Err(EvalError::IndexOutOfBounds { index: 0, length: 0 });
                }
                let h = clone_value(&items[0]);
                self.push_value(h);
                Ok(())
            },
            _ => Err(
                EvalError::TypeError {
                    operation: str_to_string("HEAD"),
                    expected: str_to_string("a vector"),
                },
            ),
        }
    }

    /// `TAIL`: a non-empty vector without its first element.
    fn op_tail(&mut self) -> (r: Result<(), EvalError>)
        ensures
            only_stack(*old(self), *final(self)),
            (match r {
                Ok(_) => {
                    &&& old(self).stack_m().len() >= 1
                    &&& old(self).stack_m().last() matches ValModel::Arr(els)
                    &&& els.len() >= 1
                    &&& final(self).stack_m() == old(self).stack_m().drop_last().push(
                        ValModel::Arr(els.skip(1)),
                    )
                },
                Err(e) => {
                    ||| ({
                        &&& old(self).stack_m().len() == 0
                        &&& e.model() == ErrModel::StackUnderflow
                        &&& final(self).stack_m() == old(self).stack_m()
                    })
                    ||| ({
                        &&& old(self).stack_m().len() >= 1
                        &&& final(self).stack_m() == old(self).stack_m().drop_last()
                        &&& !(old(self).stack_m().last() is Arr)
                        &&& e.model() == (ErrModel::TypeError {
                            operation: "TAIL"@,
                            expected: "a vector"@,
                        })
                    })
                    ||| ({
                        &&& old(self).stack_m().len() >= 1
                        &&& final(self).stack_m() == old(self).stack_m().drop_last()
                        &&& old(self).stack_m().last() matches ValModel::Arr(els)
                        &&& els.len() == 0
                        &&& e.model() == (ErrModel::IndexOutOfBounds { index: 0, length: 0 })
                    })
                },
            }),
    {
        let v = match self.pop_value() {
            Ok(v) => v,
            Err(e) => {
                return Err(e);
            },
        };
        match v.val_type {
            ValueType::Vector(items) => {
                proof {
                    lemma_vals_model(items@);
                }
                if items.len() == 0 {
                    return Err(EvalError::IndexOutOfBounds { index: 0, length: 0 });
                }
                let mut items = items;
                let ghost before = items@;
                let _h = items.remove(0);
                proof {
                    assert(items@ =~= before.skip(1));
                    lemma_vals_model(items@);
                    assert(vals_model(items@) =~= vals_model(before).skip(1));
                }
                self.push_value(Value { val_type: ValueType::Vector(items) });
                Ok(())
            },
            _ => Err(
                EvalError::TypeError {
                    operation: str_to_string("TAIL"),
                    expected: str_to_string("a vector"),
                },
            ),
        }
    }

    /// `CONS`: prepend an element to a vector.
    fn op_cons(&mut self) -> (r: Result<(), EvalError>)
        ensures
            only_stack(*old(self), *final(self)),
            (match r {
                Ok(_) => {
                    &&& old(self).stack_m().len() >= 2
                    &&& old(self).stack_m().last() matches ValModel::Arr(els)
                    &&& final(self).stack_m() == old(self).stack_m().drop_last().drop_last().push(
                        ValModel::Arr(
                            seq![old(self).stack_m()[old(self).stack_m().len() - 2]] + els,
                        ),
                    )
                },
                Err(e) => {
                    ||| ({
                        &&& old(self).stack_m().len() < 2
                        &&& e.model() == ErrModel::StackUnderflow
                        &&& final(self).stack_m() == old(self).stack_m()
                    })
                    ||| ({
                        &&& old(self).stack_m().len() >= 2
                        &&& final(self).stack_m() == old(self).stack_m().drop_last().drop_last()
                        &&& !(old(self).stack_m().last() is Arr)
                        &&& e.model() == (ErrModel::TypeError {
                            operation: "CONS"@,
                            expected: "an element and a vector"@,
                        })
                    })
                },
            }),
    {
        let (elem, vec_val) = match self.pop_two() {
            Ok(p) => p,
            Err(e) => {
                return Err(e);
            },
        };
        match vec_val.val_type {
            ValueType::Vector(items) => {
                proof {
                    lemma_vals_model(items@);
                }
                let mut items = items;
                let ghost before = items@;
                items.insert(0, elem);
                proof {
                    lemma_vals_model(items@);
                    assert(vals_model(items@) =~= seq![items@[0].model()] + vals_model(before));
                }
                self.push_value(Value { val_type: ValueType::Vector(items) });
                Ok(())
            },
            _ => Err(
                EvalError::TypeError {
                    operation: str_to_string("CONS"),
                    expected: str_to_string("an element and a vector"),
                },
            ),
        }
    }

    /// `APPEND`: append an element to a vector.
    fn op_append(&mut self) -> (r: Result<(), EvalError>)
        ensures
            only_stack(*old(self), *final(self)),
            (match r {
                Ok(_) => {
                    &&& old(self).stack_m().len() >= 2
                    &&& old(self).stack_m()[old(self).stack_m().len() - 2] matches ValModel::Arr(
                        els,
                    )
                    &&& final(self).stack_m() == old(self).stack_m().drop_last().drop_last().push(
                        ValModel::Arr(els.push(old(self).stack_m().last())),
                    )
                },
                Err(e) => {
                    ||| ({
                        &&& old(self).stack_m().len() < 2
                        &&& e.model() == ErrModel::StackUnderflow
                        &&& final(self).stack_m() == old(self).stack_m()
                    })
                    ||| ({
                        &&& old(self).stack_m().len() >= 2
                        &&& final(self).stack_m() == old(self).stack_m().drop_last().drop_last()
                        &&& !(old(self).stack_m()[old(self).stack_m().len() - 2] is Arr)
                        &&& e.model() == (ErrModel::TypeError {
                            operation: "APPEND"@,
                            expected: "a vector and an element"@,
                        })
                    })
                },
            }),
    {
        let (vec_val, elem) = match self.pop_two() {
            Ok(p) => p,
            Err(e) => {
                return Err(e);
            },
        };
        match vec_val.val_type {
            ValueType::Vector(items) => {
                proof {
                    lemma_vals_model(items@);
                }
                let mut items = items;
                let ghost before = items@;
                items.push(elem);
                proof {
                    lemma_vals_push(before, items@.last());
                }
                self.push_value(Value { val_type: ValueType::Vector(items) });
                Ok(())
            },
            _ => Err(
                EvalError::TypeError {
                    operation: str_to_string("APPEND"),
                    expected: str_to_string("a vector and an element"),
                },
            ),
        }
    }

    /// `REVERSE`: a vector in reverse order.
    #[verifier::loop_isolation(false)]
    fn op_reverse(&mut self) -> (r: Result<(), EvalError>)
        ensures
            only_stack(*old(self), *final(self)),
            (match r {
                Ok(_) => {
                    &&& old(self).stack_m().len() >= 1
                    &&& old(self).stack_m().last() matches ValModel::Arr(els)
                    &&& final(self).stack_m() == old(self).stack_m().drop_last().push(
                        ValModel::Arr(
                            Seq::new(els.len(), |i: int| els[els.len() as int - 1 - i]),
                        ),
                    )
                },
                Err(e) => {
                    ||| ({
                        &&& old(self).stack_m().len() == 0
                        &&& e.model() == ErrModel::StackUnderflow
                        &&& final(self).stack_m() == old(self).stack_m()
                    })
                    ||| ({
                        &&& old(self).stack_m().len() >= 1
                        &&& final(self).stack_m() == old(self).stack_m().drop_last()
                        &&& !(old(self).stack_m().last() is Arr)
                        &&& e.model() == (ErrModel::TypeError {
                            operation: "REVERSE"@,
                            expected: "a vector"@,
                        })
                    })
                },
            }),
    {
        let v = match self.pop_value() {
            Ok(v) => v,
            Err(e) => {
                return Err(e);
            },
        };
        match v.val_type {
            ValueType::Vector(items) => {
                proof {
                    lemma_vals_model(items@);
                }
                let n = items.len();
                let mut out: Vec<Value> = Vec::new();
                let mut i: usize = 0;
                while i < n
                    invariant
                        i <= n,
                        n == items@.len(),
                        vals_model(out@).len() == i,
                        forall|j: int| 0 <= j < i ==> vals_model(out@)[j] == vals_model(items@)[
                            n - 1 - j],
                    decreases n - i,
                {
                    let ghost outv0 = out@;
                    let c = clone_value(&items[n - 1 - i]);
                    out.push(c);
                    i += 1;
                    proof {
                        assert(out@.drop_last() =~= outv0);
                        assert(vals_model(out@) == vals_model(outv0).push(out@.last().model()));
                    }
                }
                proof {
                    lemma_vals_model(out@);
                    assert(vals_model(out@) =~= Seq::new(
                        vals_model(items@).len(),
                        |j: int| vals_model(items@)[vals_model(items@).len() as int - 1 - j],
                    ));
                }
                self.push_value(Value { val_type: ValueType::Vector(out) });
                Ok(())
            },
            _ => Err(
                EvalError::TypeError {
                    operation: str_to_string("REVERSE"),
                    expected: str_to_string("a vector"),
                },
            ),
        }
    }

    /// `NTH`: the element at an index, negative indices counting from the
    /// end; the index must be a whole number inside `[-len, len)`.
    fn op_nth(&mut self) -> (r: Result<(), EvalError>)
        ensures
            only_stack(*old(self), *final(self)),
            (match r {
                Ok(_) => {
                    &&& old(self).stack_m().len() >= 2
                    &&& old(self).stack_m()[old(self).stack_m().len() - 2] matches ValModel::Arr(
                        els,
                    )
                    &&& old(self).stack_m().last() matches ValModel::Num { n, d }
                    &&& d == 1
                    &&& -(els.len() as int) <= n < els.len() as int
                    &&& final(self).stack_m() == old(self).stack_m().drop_last().drop_last().push(
                        els[if n < 0 {
                            els.len() as int + n
                        } else {
                            n
                        }],
                    )
                },
                Err(e) => {
                    ||| ({
                        &&& old(self).stack_m().len() < 2
                        &&& e.model() == ErrModel::StackUnderflow
                        &&& final(self).stack_m() == old(self).stack_m()
                    })
                    ||| ({
                        &&& old(self).stack_m().len() >= 2
                        &&& final(self).stack_m() == old(self).stack_m().drop_last().drop_last()
                        &&& !(old(self).stack_m().last() is Num && old(self).stack_m()[old(self).stack_m().len() - 2] is Arr)
                        &&& e.model() == (ErrModel::TypeError {
                            operation: "NTH"@,
                            expected: "a number and a vector"@,
                        })
                    })
                    ||| ({
                        &&& old(self).stack_m().len() >= 2
                        &&& final(self).stack_m() == old(self).stack_m().drop_last().drop_last()
                        &&& old(self).stack_m().last() matches ValModel::Num { n, d }
                        &&& old(self).stack_m()[old(self).stack_m().len() - 2] is Arr
                        &&& d != 1
                        &&& e.model() == (ErrModel::TypeError {
                            operation: "NTH"@,
                            expected: "an integer index"@,
                        })
                    })
                    ||| ({
                        &&& old(self).stack_m().len() >= 2
                        &&& final(self).stack_m() == old(self).stack_m().drop_last().drop_last()
                        &&& old(self).stack_m().last() matches ValModel::Num { n, d }
                        &&& old(self).stack_m()[old(self).stack_m().len() - 2] matches
                            ValModel::Arr(els)
                        &&& d == 1
                        &&& els.len() > i64::MAX
                        &&& e.model() == ErrModel::NumericOverflow
                    })
                    ||| ({
                        &&& old(self).stack_m().len() >= 2
                        &&& final(self).stack_m() == old(self).stack_m().drop_last().drop_last()
                        &&& old(self).stack_m().last() matches ValModel::Num { n, d }
                        &&& old(self).stack_m()[old(self).stack_m().len() - 2] matches
                            ValModel::Arr(els)
                        &&& d == 1
                        &&& els.len() <= i64::MAX
                        &&& !(-(els.len() as int) <= n < els.len() as int)
                        &&& e.model() == (ErrModel::IndexOutOfBounds {
                            index: n,
                            length: els.len() as int,
                        })
                    })
                },
            }),
    {
        let (vec_val, index_val) = match self.pop_two() {
            Ok(p) => p,
            Err(e) => {
                return Err(e);
            },
        };
        match (index_val.val_type, vec_val.val_type) {
            (ValueType::Number(f), ValueType::Vector(items)) => {
                proof {
                    lemma_vals_model(items@);
                }
                if f.denominator() != 1 {
                    return Err(
                        EvalError::TypeError {
                            operation: str_to_string("NTH"),
                            expected: str_to_string("an integer index"),
                        },
                    );
                }
                let n = f.numerator();
                if items.len() as u64 > 0x7fff_ffff_ffff_ffff_u64 {
                    return Err(EvalError::NumericOverflow);
                }
                let len = items.len() as i64;
                let eff: i64 = if n < 0 {
                    if -(n as i128) > len as i128 {
                        return Err(EvalError::IndexOutOfBounds { index: n, length: len });
                    }
                    len + n
                } else {
                    n
                };
                if eff < 0 || eff >= len {
                    return Err(EvalError::IndexOutOfBounds { index: n, length: len });
                }
                let c = clone_value(&items[eff as usize]);
                self.push_value(c);
                Ok(())
            },
            _ => Err(
                EvalError::TypeError {
                    operation: str_to_string("NTH"),
                    expected: str_to_string("a number and a vector"),
                },
            ),
        }
    }

    /// `UNCONS`: split a non-empty vector into its head and tail.
    fn op_uncons(&mut self) -> (r: Result<(), EvalError>)
        ensures
            only_stack(*old(self), *final(self)),
            (match r {
                Ok(_) => {
                    &&& old(self).stack_m().len() >= 1
                    &&& old(self).stack_m().last() matches ValModel::Arr(els)
                    &&& els.len() >= 1
                    &&& final(self).stack_m() == old(self).stack_m().drop_last().push(
                        els[0],
                    ).push(ValModel::Arr(els.skip(1)))
                },
                Err(e) => {
                    ||| ({
                        &&& old(self).stack_m().len() == 0
                        &&& e.model() == ErrModel::StackUnderflow
                        &&& final(self).stack_m() == old(self).stack_m()
                    })
                    ||| ({
                        &&& old(self).stack_m().len() >= 1
                        &&& final(self).stack_m() == old(self).stack_m().drop_last()
                        &&& !(old(self).stack_m().last() is Arr)
                        &&& e.model() == (ErrModel::TypeError {
                            operation: "UNCONS"@,
                            expected: "a vector"@,
                        })
                    })
                    ||| ({
                        &&& old(self).stack_m().len() >= 1
                        &&& final(self).stack_m() == old(self).stack_m().drop_last()
                        &&& old(self).stack_m().last() matches ValModel::Arr(els)
                        &&& els.len() == 0
                        &&& e.model() == (ErrModel::IndexOutOfBounds { index: 0, length: 0 })
                    })
                },
            }),
    {
        let v = match self.pop_value() {
            Ok(v) => v,
            Err(e) => {
                return Err(e);
            },
        };
        match v.val_type {
            ValueType::Vector(items) => {
                proof {
                    lemma_vals_model(items@);
                }
                if items.len() == 0 {
                    return Err(EvalError::IndexOutOfBounds { index: 0, length: 0 });
                }
                let mut items = items;
                let ghost before = items@;
                let h = items.remove(0);
                proof {
                    assert(items@ =~= before.skip(1));
                    lemma_vals_model(items@);
                    assert(vals_model(items@) =~= vals_model(before).skip(1));
                }
                self.push_value(h);
                self.push_value(Value { val_type: ValueType::Vector(items) });
                Ok(())
            },
            _ => Err(
                EvalError::TypeError {
                    operation: str_to_string("UNCONS"),
                    expected: str_to_string("a vector"),
                },
            ),
        }
    }

    /// `EMPTY?`: whether a vector has no elements.
    fn op_empty(&mut self) -> (r: Result<(), EvalError>)
        ensures
            only_stack(*old(self), *final(self)),
            (match r {
                Ok(_) => {
                    &&& old(self).stack_m().len() >= 1
                    &&& old(self).stack_m().last() matches ValModel::Arr(els)
                    &&& final(self).stack_m() == old(self).stack_m().drop_last().push(
                        ValModel::Bool(els.len() == 0),
                    )
                },
                Err(e) => {
                    ||| ({
                        &&& old(self).stack_m().len() == 0
                        &&& e.model() == ErrModel::StackUnderflow
                        &&& final(self).stack_m() == old(self).stack_m()
                    })
                    ||| ({
                        &&& old(self).stack_m().len() >= 1
                        &&& final(self).stack_m() == old(self).stack_m().drop_last()
                        &&& !(old(self).stack_m().last() is Arr)
                        &&& e.model() == (ErrModel::TypeError {
                            operation: "EMPTY?"@,
                            expected: "a vector"@,
                        })
                    })
                },
            }),
    {
        let v = match self.pop_value() {
            Ok(v) => v,
            Err(e) => {
                return Err(e);
            },
        };
        match v.val_type {
            ValueType::Vector(items) => {
                proof {
                    lemma_vals_model(items@);
                }
                let b = items.len() == 0;
                self.push_value(Value { val_type: ValueType::Boolean(b) });
                Ok(())
            },
            _ => Err(
                EvalError::TypeError {
                    operation: str_to_string("EMPTY?"),
                    expected: str_to_string("a vector"),
                },
            ),
        }
    }

    /// `.`: pop the top value and print it followed by a space.
    fn op_dot(&mut self) -> (r: Result<(), EvalError>)
        ensures
            only_stack_out(*old(self), *final(self)),
            (match r {
                Ok(_) => old(self).stack_m().len() >= 1 && final(self).stack_m() == old(self).stack_m().drop_last() && final(self).output_m() == old(self).output_m()
                    + vm_text(old(self).stack_m().last()) + seq![' '],
                Err(e) => old(self).stack_m().len() == 0 && e.model() == ErrModel::StackUnderflow
                    && final(self).stack_m() == old(self).stack_m() && final(self).output_m()
                    == old(self).output_m(),
            }),
    {
        let v = match self.pop_value() {
            Ok(v) => v,
            Err(e) => {
                return Err(e);
            },
        };
        let mut text: Vec<char> = Vec::new();
        push_value_text(&v, &mut text);
        text.push(' ');
        self.append_chars(&text);
        proof {
            assert(self.output_buffer@ =~= old(self).output_buffer@ + vm_text(v.model())
                + seq![' ']);
        }
        Ok(())
    }

    /// `PRINT`: print the top value followed by a space, keeping it.
    fn op_print(&mut self) -> (r: Result<(), EvalError>)
        ensures
            only_stack_out(*old(self), *final(self)),
            (match r {
                Ok(_) => old(self).stack_m().len() >= 1 && final(self).stack_m() == old(self).stack_m() && final(self).output_m() == old(self).output_m() + vm_text(
                    old(self).stack_m().last(),
                ) + seq![' '],
                Err(e) => old(self).stack_m().len() == 0 && e.model() == ErrModel::StackUnderflow
                    && final(self).stack_m() == old(self).stack_m() && final(self).output_m()
                    == old(self).output_m(),
            }),
    {
        proof {
            lemma_vals_model(self.stack@);
        }
        if self.stack.len() == 0 {
            return Err(EvalError::StackUnderflow);
        }
        let mut text: Vec<char> = Vec::new();
        proof {
            lemma_vals_pop(self.stack@);
        }
        push_value_text(&self.stack[self.stack.len() - 1], &mut text);
        text.push(' ');
        self.append_chars(&text);
        proof {
            assert(self.output_buffer@ =~= old(self).output_buffer@ + vm_text(
                old(self).stack_m().last(),
            ) + seq![' ']);
        }
        Ok(())
    }

    /// `CR`: print a newline.
    fn op_cr(&mut self) -> (r: Result<(), EvalError>)
        ensures
            only_stack_out(*old(self), *final(self)),
            r is Ok,
            final(self).stack_m() == old(self).stack_m(),
            final(self).output_m() == old(self).output_m() + seq!['\n'],
    {
        let mut text: Vec<char> = Vec::new();
        text.push('\n');
        self.append_chars(&text);
        proof {
            assert(self.output_buffer@ =~= old(self).output_buffer@ + seq!['\n']);
        }
        Ok(())
    }

    /// `SPACE`: print a single space.
    fn op_space(&mut self) -> (r: Result<(), EvalError>)
        ensures
            only_stack_out(*old(self), *final(self)),
            r is Ok,
            final(self).stack_m() == old(self).stack_m(),
            final(self).output_m() == old(self).output_m() + seq![' '],
    {
        let mut text: Vec<char> = Vec::new();
        text.push(' ');
        self.append_chars(&text);
        proof {
            assert(self.output_buffer@ =~= old(self).output_buffer@ + seq![' ']);
        }
        Ok(())
    }

    /// `SPACES`: print a non-negative whole number of spaces.
    #[verifier::loop_isolation(false)]
    fn op_spaces(&mut self) -> (r: Result<(), EvalError>)
        ensures
            only_stack_out(*old(self), *final(self)),
            (match r {
                Ok(_) => {
                    &&& old(self).stack_m().len() >= 1
                    &&& old(self).stack_m().last() matches ValModel::Num { n, d }
                    &&& d == 1 && n >= 0
                    &&& final(self).stack_m() == old(self).stack_m().drop_last()
                    &&& final(self).output_m() == old(self).output_m() + Seq::new(
                        n as nat,
                        |i: int| ' ',
                    )
                },
                Err(e) => {
                    ||| ({
                        &&& old(self).stack_m().len() == 0
                        &&& e.model() == ErrModel::StackUnderflow
                        &&& final(self).stack_m() == old(self).stack_m()
                        &&& final(self).output_m() == old(self).output_m()
                    })
                    ||| ({
                        &&& old(self).stack_m().len() >= 1
                        &&& final(self).stack_m() == old(self).stack_m().drop_last()
                        &&& final(self).output_m() == old(self).output_m()
                        &&& !(old(self).stack_m().last() is Num)
                        &&& e.model() == (ErrModel::TypeError {
                            operation: "SPACES"@,
                            expected: "a number"@,
                        })
                    })
                    ||| ({
                        &&& old(self).stack_m().len() >= 1
                        &&& final(self).stack_m() == old(self).stack_m().drop_last()
                        &&& final(self).output_m() == old(self).output_m()
                        &&& old(self).stack_m().last() matches ValModel::Num { n, d }
                        &&& (d != 1 || n < 0)
                        &&& e.model() == (ErrModel::TypeError {
                            operation: "SPACES"@,
                            expected: "a non-negative integer"@,
                        })
                    })
                },
            }),
    {
        let v = match self.pop_value() {
            Ok(v) => v,
            Err(e) => {
                return Err(e);
            },
        };
        match v.val_type {
            ValueType::Number(f) => {
                if f.denominator() != 1 || f.numerator() < 0 {
                    return Err(
                        EvalError::TypeError {
                            operation: str_to_string("SPACES"),
                            expected: str_to_string("a non-negative integer"),
                        },
                    );
                }
                let n = f.numerator();
                let mut text: Vec<char> = Vec::new();
                let mut i: i64 = 0;
                while i < n
                    invariant
                        0 <= i <= n,
                        text@ =~= Seq::new(i as nat, |j: int| ' '),
                    decreases n - i,
                {
                    text.push(' ');
                    i += 1;
                    proof {
                        assert(text@ =~= Seq::new(i as nat, |j: int| ' '));
                    }
                }
                self.append_chars(&text);
                proof {
                    assert(self.output_buffer@ =~= old(self).output_buffer@ + Seq::new(
                        n as nat,
                        |j: int| ' ',
                    ));
                }
                Ok(())
            },
            _ => Err(
                EvalError::TypeError {
                    operation: str_to_string("SPACES"),
                    expected: str_to_string("a number"),
                },
            ),
        }
    }

    /// `EMIT`: print the character whose code is the popped whole number in
    /// `[0, 127]`.
    fn op_emit(&mut self) -> (r: Result<(), EvalError>)
        ensures
            only_stack_out(*old(self), *final(self)),
            (match r {
                Ok(_) => {
                    &&& old(self).stack_m().len() >= 1
                    &&& old(self).stack_m().last() matches ValModel::Num { n, d }
                    &&& d == 1 && 0 <= n <= 127
                    &&& final(self).stack_m() == old(self).stack_m().drop_last()
                    &&& final(self).output_m().len() == old(self).output_m().len() + 1
                    &&& final(self).output_m().take(old(self).output_m().len() as int) == old(self).output_m()
                    &&& final(self).output_m().last() as int == n
                },
                Err(e) => {
                    ||| ({
                        &&& old(self).stack_m().len() == 0
                        &&& e.model() == ErrModel::StackUnderflow
                        &&& final(self).stack_m() == old(self).stack_m()
                        &&& final(self).output_m() == old(self).output_m()
                    })
                    ||| ({
                        &&& old(self).stack_m().len() >= 1
                        &&& final(self).stack_m() == old(self).stack_m().drop_last()
                        &&& final(self).output_m() == old(self).output_m()
                        &&& !(old(self).stack_m().last() is Num)
                        &&& e.model() == (ErrModel::TypeError {
                            operation: "EMIT"@,
                            expected: "a number"@,
                        })
                    })
                    ||| ({
                        &&& old(self).stack_m().len() >= 1
                        &&& final(self).stack_m() == old(self).stack_m().drop_last()
                        &&& final(self).output_m() == old(self).output_m()
                        &&& old(self).stack_m().last() matches ValModel::Num { n, d }
                        &&& (d != 1 || n < 0 || n > 127)
                        &&& e.model() == (ErrModel::TypeError {
                            operation: "EMIT"@,
                            expected: "an ASCII code (0-127)"@,
                        })
                    })
                },
            }),
    {
        let v = match self.pop_value() {
            Ok(v) => v,
            Err(e) => {
                return Err(e);
            },
        };
        match v.val_type {
            ValueType::Number(f) => {
                if f.denominator() != 1 || f.numerator() < 0 || f.numerator() > 127 {
                    return Err(
                        EvalError::TypeError {
                            operation: str_to_string("EMIT"),
                            expected: str_to_string("an ASCII code (0-127)"),
                        },
                    );
                }
                let c = (f.numerator() as u8) as char;
                let mut text: Vec<char> = Vec::new();
                text.push(c);
                self.append_chars(&text);
                proof {
                    assert(self.output_buffer@ =~= old(self).output_buffer@ + seq![c]);
                    assert(self.output_buffer@.take(old(self).output_buffer@.len() as int)
                        =~= old(self).output_buffer@);
                }
                Ok(())
            },
            _ => Err(
                EvalError::TypeError {
                    operation: str_to_string("EMIT"),
                    expected: str_to_string("a number"),
                },
            ),
        }
    }
}

/// Collecting a bracketed token run as inert data, from position `i` (just
/// after the opening bracket): literal tokens become their values, symbols
/// become symbol values (never executed), nested brackets recurse, and
/// description tokens are ignored. Returns the items and the position just
/// after the matching close bracket.
pub open spec fn collect_items_spec(ts: Seq<TokModel>, i: int) -> Result<
    (Seq<ValModel>, int),
    ErrModel,
>
    decreases ts.len() - i,
{
    if i < 0 || i >= ts.len() {
        Err(ErrModel::UnclosedVector)
    } else {
        match ts[i] {
            TokModel::VecEnd => Ok((Seq::empty(), i + 1)),
            TokModel::VecStart => match collect_items_spec(ts, i + 1) {
                Ok(p) => {
                    let j = clamp_pos(p.1, i + 2, ts.len() as int);
                    match collect_items_spec(ts, j) {
                        Ok(q) => Ok((seq![ValModel::Arr(p.0)] + q.0, q.1)),
                        Err(e) => Err(e),
                    }
                },
                Err(e) => Err(e),
            },
            TokModel::Desc(_) => collect_items_spec(ts, i + 1),
            TokModel::Num { n, d } => if d == 0 {
                Err(ErrModel::DivisionByZero)
            } else if !crate::fraction::frac_fits(n, d) {
                Err(ErrModel::NumericOverflow)
            } else {
                match collect_items_spec(ts, i + 1) {
                    Ok(q) => Ok(
                        (
                            seq![
                                ValModel::Num {
                                    n: crate::fraction::red_num(n, d),
                                    d: crate::fraction::red_den(n, d),
                                },
                            ] + q.0,
                            q.1,
                        ),
                    ),
                    Err(e) => Err(e),
                }
            },
            TokModel::Str(t) => match collect_items_spec(ts, i + 1) {
                Ok(q) => Ok((seq![ValModel::Str(t)] + q.0, q.1)),
                Err(e) => Err(e),
            },
            TokModel::Bool(b) => match collect_items_spec(ts, i + 1) {
                Ok(q) => Ok((seq![ValModel::Bool(b)] + q.0, q.1)),
                Err(e) => Err(e),
            },
            TokModel::Nil => match collect_items_spec(ts, i + 1) {
                Ok(q) => Ok((seq![ValModel::Nil] + q.0, q.1)),
                Err(e) => Err(e),
            },
            TokModel::Sym(t) => match collect_items_spec(ts, i + 1) {
                Ok(q) => Ok((seq![ValModel::Sym(t)] + q.0, q.1)),
                Err(e) => Err(e),
            },
        }
    }
}

/// Clamp a continuation position into a workable range.
pub open spec fn clamp_pos(j: int, lo: int, hi: int) -> int {
    if (if j < lo {
        lo
    } else {
        j
    }) > hi {
        hi
    } else {
        if j < lo {
            lo
        } else {
            j
        }
    }
}

/// The values a token run pushes when it consists only of inert data:
/// literal tokens, bracketed runs collected as vectors, and description
/// annotations (which push nothing). `None` when the run holds a symbol
/// outside a bracketed run, an unmatched bracket, or a number literal that
/// cannot be represented.
pub open spec fn spec_data_run(ts: Seq<TokModel>, i: int) -> Option<Seq<ValModel>>
    decreases ts.len() - i,
{
    if i < 0 || i >= ts.len() {
        Some(Seq::empty())
    } else {
        match ts[i] {
            TokModel::Num { n, d } => if d != 0 && crate::fraction::frac_fits(n, d) {
                match spec_data_run(ts, i + 1) {
                    Some(vs) => Some(
                        seq![
                            ValModel::Num {
                                n: crate::fraction::red_num(n, d),
                                d: crate::fraction::red_den(n, d),
                            },
                        ] + vs,
                    ),
                    None => None,
                }
            } else {
                None
            },
            TokModel::Str(t) => match spec_data_run(ts, i + 1) {
                Some(vs) => Some(seq![ValModel::Str(t)] + vs),
                None => None,
            },
            TokModel::Bool(b) => match spec_data_run(ts, i + 1) {
                Some(vs) => Some(seq![ValModel::Bool(b)] + vs),
                None => None,
            },
            TokModel::Nil => match spec_data_run(ts, i + 1) {
                Some(vs) => Some(seq![ValModel::Nil] + vs),
                None => None,
            },
            TokModel::Desc(_) => spec_data_run(ts, i + 1),
            TokModel::VecStart => match collect_items_spec(ts, i + 1) {
                Ok(p) => {
                    let j = clamp_pos(p.1, i + 2, ts.len() as int);
                    match spec_data_run(ts, j) {
                        Some(vs) => Some(seq![ValModel::Arr(p.0)] + vs),
                        None => None,
                    }
                },
                Err(_) => None,
            },
            TokModel::VecEnd => None,
            TokModel::Sym(_) => None,
        }
    }
}

/// Exec mirror of `collect_items_spec`.
fn collect_items(tokens: &Vec<Token>, i: usize) -> (r: Result<(Vec<Value>, usize), EvalError>)
    requires
        i <= tokens@.len(),
    ensures
        (match r {
            Ok(p) => {
                &&& collect_items_spec(toks_model(tokens@), i as int) matches Ok(q)
                &&& vals_model(p.0@) == q.0
                &&& p.1 as int == q.1
                &&& i < p.1 <= tokens@.len()
            },
            Err(e) => collect_items_spec(toks_model(tokens@), i as int) == Err::<
                (Seq<ValModel>, int),
                ErrModel,
            >(e.model()),
        }),
    decreases tokens@.len() - i, 1int,
{
    proof {
        crate::tokenizer::lemma_toks_model(tokens@);
    }
    if i >= tokens.len() {
        return Err(EvalError::UnclosedVector);
    }
    let tok = &tokens[i];
    match tok {
        Token::VectorEnd => {
            let out: Vec<Value> = Vec::new();
            proof {
                assert(vals_model(out@) =~= Seq::<ValModel>::empty());
            }
            Ok((out, i + 1))
        },
        Token::VectorStart => {
            match collect_items(tokens, i + 1) {
                Ok((inner, j)) => {
                    match collect_items(tokens, j) {
                        Ok((mut items, k)) => {
                            let v = Value { val_type: ValueType::Vector(inner) };
                            let mut out: Vec<Value> = Vec::new();
                            out.push(v);
                            let ghost first = out@;
                            let ghost items0 = items@;
                            out.append(&mut items);
                            proof {
                                assert(out@ =~= first + items0);
                                lemma_vals_concat(first, items0);
                                assert(first =~= seq![first[0]]);
                                lemma_vals_single(first[0]);
                            }
                            Ok((out, k))
                        },
                        Err(e) => Err(e),
                    }
                },
                Err(e) => Err(e),
            }
        },
        Token::Description(_) => collect_items(tokens, i + 1),
        Token::Number(n, d) => {
            if *d == 0 {
                return Err(EvalError::DivisionByZero);
            }
            let f = match Fraction::try_new(*n, *d) {
                Some(f) => f,
                None => {
                    return Err(EvalError::NumericOverflow);
                },
            };
            let v = Value { val_type: ValueType::Number(f) };
            prepend_item(v, tokens, i)
        },
        Token::String(t) => {
            let v = Value { val_type: ValueType::String(t.clone()) };
            prepend_item(v, tokens, i)
        },
        Token::Boolean(b) => {
            let v = Value { val_type: ValueType::Boolean(*b) };
            prepend_item(v, tokens, i)
        },
        Token::Nil => {
            let v = Value { val_type: ValueType::Nil };
            prepend_item(v, tokens, i)
        },
        Token::Symbol(t) => {
            let v = Value { val_type: ValueType::Symbol(t.clone()) };
            prepend_item(v, tokens, i)
        },
    }
}

/// Collect the rest of the run and put one already-built value in front.
fn prepend_item(v: Value, tokens: &Vec<Token>, i: usize) -> (r: Result<
    (Vec<Value>, usize),
    EvalError,
>)
    requires
        i < tokens@.len(),
        !(tokens@[i as int].model() is VecStart),
        !(tokens@[i as int].model() is VecEnd),
        !(tokens@[i as int].model() is Desc),
        (match collect_items_spec(toks_model(tokens@), i as int) {
            Ok(q) => q.0.len() >= 1 && q.0[0] == v.model(),
            Err(_) => true,
        }),
        (match collect_items_spec(toks_model(tokens@), i + 1) {
            Ok(q) => collect_items_spec(toks_model(tokens@), i as int) == Ok::<
                (Seq<ValModel>, int),
                ErrModel,
            >((seq![v.model()] + q.0, q.1)),
            Err(e) => collect_items_spec(toks_model(tokens@), i as int) == Err::<
                (Seq<ValModel>, int),
                ErrModel,
            >(e),
        }),
    ensures
        (match r {
            Ok(p) => {
                &&& collect_items_spec(toks_model(tokens@), i as int) matches Ok(q)
                &&& vals_model(p.0@) == q.0
                &&& p.1 as int == q.1
                &&& i < p.1 <= tokens@.len()
            },
            Err(e) => collect_items_spec(toks_model(tokens@), i as int) == Err::<
                (Seq<ValModel>, int),
                ErrModel,
            >(e.model()),
        }),
    decreases tokens@.len() - i, 0int,
{
    let _n = tokens.len();
    match collect_items(tokens, i + 1) {
        Ok((mut items, k)) => {
            let mut out: Vec<Value> = Vec::new();
            out.push(v);
            let ghost first = out@;
            let ghost items0 = items@;
            out.append(&mut items);
            proof {
                assert(out@ =~= first + items0);
                lemma_vals_concat(first, items0);
                assert(first =~= seq![first[0]]);
                lemma_vals_single(first[0]);
            }
            Ok((out, k))
        },
        Err(e) => Err(e),
    }
}

/// The model of a one-value sequence.
pub proof fn lemma_vals_single(v: Value)
    ensures
        vals_model(seq![v]) == seq![v.model()],
{
    assert(seq![v].drop_last() =~= Seq::<Value>::empty());
    assert(seq![v].last() == v);
    assert(vals_model(seq![v]) == vals_model(Seq::<Value>::empty()).push(v.model()));
    assert(vals_model(Seq::<Value>::empty()).push(v.model()) =~= seq![v.model()]);
}

/// Model of a concatenation is the concatenation of the models.
pub proof fn lemma_vals_concat(a: Seq<Value>, b: Seq<Value>)
    ensures
        vals_model(a + b) == vals_model(a) + vals_model(b),
    decreases b,
{
    if b.len() == 0 {
        assert(a + b =~= a);
        assert(vals_model(a) + vals_model(b) =~= vals_model(a));
    } else {
        lemma_vals_concat(a, b.drop_last());
        assert((a + b).drop_last() =~= a + b.drop_last());
        assert((a + b).last() == b.last());
        assert(vals_model(a + b) == vals_model(a + b.drop_last()).push(b.last().model()));
        assert(vals_model(a) + vals_model(b) =~= (vals_model(a) + vals_model(b.drop_last())).push(
            b.last().model(),
        ));
    }
}

/// Copy one token.
fn clone_token(t: &Token) -> (r: Token)
    ensures
        r == *t,
{
    match t {
        Token::Number(n, d) => Token::Number(*n, *d),
        Token::String(s) => Token::String(s.clone()),
        Token::Boolean(b) => Token::Boolean(*b),
        Token::Symbol(s) => Token::Symbol(s.clone()),
        Token::VectorStart => Token::VectorStart,
        Token::VectorEnd => Token::VectorEnd,
        Token::Nil => Token::Nil,
        Token::Description(s) => Token::Description(s.clone()),
    }
}

/// Copy a token vector.
#[verifier::loop_isolation(false)]
fn clone_tokens(v: &Vec<Token>) -> (r: Vec<Token>)
    ensures
        r@ == v@,
{
    let mut out: Vec<Token> = Vec::new();
    let mut i: usize = 0;
    while i < v.len()
        invariant
            i <= v@.len(),
            out@ =~= v@.take(i as int),
        decreases v@.len() - i,
    {
        out.push(clone_token(&v[i]));
        i += 1;
        proof {
            assert(out@ =~= v@.take(i as int));
        }
    }
    proof {
        assert(v@.take(v@.len() as int) =~= v@);
    }
    out
}

/// Copy a sub-run of tokens.
#[verifier::loop_isolation(false)]
fn copy_token_range(v: &Vec<Token>, from: usize, to: usize) -> (r: Vec<Token>)
    requires
        from <= to <= v@.len(),
    ensures
        r@ == v@.subrange(from as int, to as int),
{
    let mut out: Vec<Token> = Vec::new();
    let mut i = from;
    while i < to
        invariant
            from <= i <= to,
            out@ =~= v@.subrange(from as int, i as int),
        decreases to - i,
    {
        out.push(clone_token(&v[i]));
        i += 1;
        proof {
            assert(out@ =~= v@.subrange(from as int, i as int));
        }
    }
    out
}

/// Convert one data value back into tokens, for quotation expansion.
fn push_value_tokens(v: &Value, toks: &mut Vec<Token>)
    ensures
        toks_model(final(toks)@) == toks_model(old(toks)@) + vm_to_toks(v.model()),
    decreases v,
{
    match &v.val_type {
        ValueType::Number(f) => {
            let t = Token::Number(f.numerator(), f.denominator());
            toks.push(t);
            proof {
                assert(toks@.drop_last() =~= old(toks)@);
                lemma_toks_snoc_interp(toks@);
                assert(seq![toks@.last().model()] =~= vm_to_toks(v.model()));
            }
        },
        ValueType::String(st) => {
            toks.push(Token::String(st.clone()));
            proof {
                assert(toks@.drop_last() =~= old(toks)@);
                lemma_toks_snoc_interp(toks@);
                assert(seq![toks@.last().model()] =~= vm_to_toks(v.model()));
            }
        },
        ValueType::Boolean(b) => {
            toks.push(Token::Boolean(*b));
            proof {
                assert(toks@.drop_last() =~= old(toks)@);
                lemma_toks_snoc_interp(toks@);
                assert(seq![toks@.last().model()] =~= vm_to_toks(v.model()));
            }
        },
        ValueType::Symbol(st) => {
            toks.push(Token::Symbol(st.clone()));
            proof {
                assert(toks@.drop_last() =~= old(toks)@);
                lemma_toks_snoc_interp(toks@);
                assert(seq![toks@.last().model()] =~= vm_to_toks(v.model()));
            }
        },
        ValueType::Nil => {
            toks.push(Token::Nil);
            proof {
                assert(toks@.drop_last() =~= old(toks)@);
                lemma_toks_snoc_interp(toks@);
                assert(seq![toks@.last().model()] =~= vm_to_toks(v.model()));
            }
        },
        ValueType::Vector(items) => {
            let ghost ms = vals_model(items@);
            proof {
                lemma_vals_model(items@);
            }
            let ghost toks0 = toks@;
            toks.push(Token::VectorStart);
            proof {
                assert(toks@.drop_last() =~= toks0);
                lemma_toks_snoc_interp(toks@);
                assert(vms_to_toks(ms.take(0)) =~= Seq::<TokModel>::empty());
                assert(toks_model(toks@) =~= toks_model(toks0) + seq![TokModel::VecStart]
                    + vms_to_toks(ms.take(0)));
            }
            let mut i: usize = 0;
            #[verifier::loop_isolation(false)]
            while i < items.len()
                invariant
                    i <= items@.len(),
                    toks_model(toks@) == toks_model(toks0) + seq![TokModel::VecStart]
                        + vms_to_toks(ms.take(i as int)),
                decreases items@.len() - i,
            {
                proof {
                    crate::value::lemma_vec_elem_smaller(*v, i as int);
                }
                push_value_tokens(&items[i], toks);
                i += 1;
                proof {
                    assert(ms.take(i as int).drop_last() =~= ms.take(i - 1));
                    assert(ms.take(i as int).last() == ms[i - 1]);
                    assert(toks_model(toks@) =~= toks_model(toks0) + seq![TokModel::VecStart]
                        + vms_to_toks(ms.take(i as int)));
                }
            }
            let ghost before_end = toks@;
            toks.push(Token::VectorEnd);
            proof {
                assert(toks@.drop_last() =~= before_end);
                lemma_toks_snoc_interp(toks@);
                assert(ms.take(items@.len() as int) =~= ms);
                assert(toks_model(toks@) =~= toks_model(toks0) + vm_to_toks(v.model()));
            }
        },
    }
}

/// Appending one token appends its model.
proof fn lemma_toks_snoc_interp(s: Seq<Token>)
    requires
        s.len() > 0,
    ensures
        toks_model(s) == toks_model(s.drop_last()) + seq![s.last().model()],
{
    assert(toks_model(s.drop_last()).push(s.last().model()) =~= toks_model(s.drop_last())
        + seq![s.last().model()]);
}

/// Reduced form of a whole number: the number itself over one.
proof fn lemma_red_int(n: int)
    requires
        i64::MIN <= n <= i64::MAX,
    ensures
        crate::fraction::frac_fits(n, 1),
        crate::fraction::red_num(n, 1) == n,
        crate::fraction::red_den(n, 1) == 1,
{
    crate::fraction::lemma_red_vals(n, 1);
    assert(crate::fraction::red_den(n, 1) == 1);
    assert(crate::fraction::red_num(n, 1) * 1 == n * 1);
}

/// The operand shape `IF` needs: a boolean below two quotations.
pub open spec fn if_shape(s: Seq<ValModel>) -> bool {
    s.len() >= 3 && s[s.len() - 3] is Bool && s[s.len() - 2] is Arr && s.last() is Arr
}

/// The operand shape `WHEN` and `UNLESS` need: a boolean below a quotation.
pub open spec fn when_shape(s: Seq<ValModel>) -> bool {
    s.len() >= 2 && s[s.len() - 2] is Bool && s.last() is Arr
}

/// The operand shape the `LOOP` word needs: two quotations.
pub open spec fn loop_shape(s: Seq<ValModel>) -> bool {
    s.len() >= 2 && s[s.len() - 2] is Arr && s.last() is Arr
}

/// The operand shape `CASE` needs: a pair vector on top of a probe value.
pub open spec fn case_shape(s: Seq<ValModel>) -> bool {
    s.len() >= 2 && s.last() is Arr
}

/// The operand shape `DO` needs: two whole numbers.
pub open spec fn do_shape(s: Seq<ValModel>) -> bool {
    &&& s.len() >= 2
    &&& s[s.len() - 2] matches ValModel::Num { n: n1, d: d1 } && d1 == 1
    &&& s.last() matches ValModel::Num { n: n2, d: d2 } && d2 == 1
}

/// The mathematical state of the engine: operand stack, register,
/// dictionary, loop indices and output, all as models.
#[verifier::ext_equal]
pub struct MachineState {
    pub stack: Seq<ValModel>,
    pub register: Option<ValModel>,
    pub dict: Map<Seq<char>, EntryModel>,
    pub loops: Seq<(i64, i64)>,
    pub output: Seq<char>,
}

/// One arithmetic operator word applied to a machine state.
pub open spec fn sp_arith_step(op: ArithOp, st: MachineState) -> (MachineState, Result<
    (),
    ErrModel,
>) {
    if st.stack.len() < 2 {
        (st, Err(ErrModel::StackUnderflow))
    } else {
        let rest = st.stack.drop_last().drop_last();
        match crate::ops::spec_arith(op, st.stack[st.stack.len() - 2], st.stack.last()) {
            Ok(v) => (MachineState { stack: rest.push(v), ..st }, Ok(())),
            Err(em) => (MachineState { stack: rest, ..st }, Err(em)),
        }
    }
}

/// One comparison operator word applied to a machine state.
pub open spec fn sp_cmp_step(op: CmpOp, st: MachineState) -> (MachineState, Result<
    (),
    ErrModel,
>) {
    if st.stack.len() < 2 {
        (st, Err(ErrModel::StackUnderflow))
    } else {
        let rest = st.stack.drop_last().drop_last();
        match crate::ops::spec_cmp(op, st.stack[st.stack.len() - 2], st.stack.last()) {
            Ok(v) => (MachineState { stack: rest.push(v), ..st }, Ok(())),
            Err(em) => (MachineState { stack: rest, ..st }, Err(em)),
        }
    }
}

/// The equality word applied to a machine state.
pub open spec fn sp_eq_step(st: MachineState) -> (MachineState, Result<(), ErrModel>) {
    if st.stack.len() < 2 {
        (st, Err(ErrModel::StackUnderflow))
    } else {
        let rest = st.stack.drop_last().drop_last();
        let v = ValModel::Bool(
            crate::ops::spec_equal(st.stack[st.stack.len() - 2], st.stack.last()),
        );
        (MachineState { stack: rest.push(v), ..st }, Ok(()))
    }
}

/// The `DEF` word applied to a machine state, consuming the pending
/// description.
pub open spec fn sp_def_step(st: MachineState, pending: Option<Seq<char>>) -> (MachineState, Result<
    (),
    ErrModel,
>) {
    if st.stack.len() < 2 {
        (st, Err(ErrModel::StackUnderflow))
    } else {
        let rest = st.stack.drop_last().drop_last();
        if def_shape(st.stack) {
            match spec_define(
                st.dict,
                upper_seq(st.stack.last()->Str_0),
                st.stack[st.stack.len() - 2]->Arr_0,
                pending,
            ) {
                Ok(m2) => (MachineState { stack: rest, dict: m2, ..st }, Ok(())),
                Err(em) => (MachineState { stack: rest, ..st }, Err(em)),
            }
        } else {
            (
                MachineState { stack: rest, ..st },
                Err(
                    ErrModel::TypeError {
                        operation: "DEF"@,
                        expected: "a vector and a string"@,
                    },
                ),
            )
        }
    }
}

/// `DUP` on a machine state.
pub open spec fn sp_dup(st: MachineState) -> (MachineState, Result<(), ErrModel>) {
    if st.stack.len() == 0 {
        (st, Err(ErrModel::StackUnderflow))
    } else {
        (MachineState { stack: st.stack.push(st.stack.last()), ..st }, Ok(()))
    }
}

/// `DROP` on a machine state.
pub open spec fn sp_drop(st: MachineState) -> (MachineState, Result<(), ErrModel>) {
    if st.stack.len() == 0 {
        (st, Err(ErrModel::StackUnderflow))
    } else {
        (MachineState { stack: st.stack.drop_last(), ..st }, Ok(()))
    }
}

/// `SWAP` on a machine state.
pub open spec fn sp_swap(st: MachineState) -> (MachineState, Result<(), ErrModel>) {
    if st.stack.len() < 2 {
        (st, Err(ErrModel::StackUnderflow))
    } else {
        (
            MachineState {
                stack: st.stack.drop_last().drop_last().push(st.stack.last()).push(
                    st.stack[st.stack.len() - 2],
                ),
                ..st
            },
            Ok(()),
        )
    }
}

/// `OVER` on a machine state.
pub open spec fn sp_over(st: MachineState) -> (MachineState, Result<(), ErrModel>) {
    if st.stack.len() < 2 {
        (st, Err(ErrModel::StackUnderflow))
    } else {
        (MachineState { stack: st.stack.push(st.stack[st.stack.len() - 2]), ..st }, Ok(()))
    }
}

/// `ROT` on a machine state.
pub open spec fn sp_rot(st: MachineState) -> (MachineState, Result<(), ErrModel>) {
    if st.stack.len() < 3 {
        (st, Err(ErrModel::StackUnderflow))
    } else {
        (
            MachineState {
                stack: st.stack.drop_last().drop_last().drop_last().push(
                    st.stack[st.stack.len() - 2],
                ).push(st.stack.last()).push(st.stack[st.stack.len() - 3]),
                ..st
            },
            Ok(()),
        )
    }
}

/// `NIP` on a machine state.
pub open spec fn sp_nip(st: MachineState) -> (MachineState, Result<(), ErrModel>) {
    if st.stack.len() < 2 {
        (st, Err(ErrModel::StackUnderflow))
    } else {
        (
            MachineState {
                stack: st.stack.drop_last().drop_last().push(st.stack.last()),
                ..st
            },
            Ok(()),
        )
    }
}

/// `>R` on a machine state.
pub open spec fn sp_to_r(st: MachineState) -> (MachineState, Result<(), ErrModel>) {
    if st.stack.len() == 0 {
        (st, Err(ErrModel::StackUnderflow))
    } else {
        (
            MachineState { stack: st.stack.drop_last(), register: Some(st.stack.last()), ..st },
            Ok(()),
        )
    }
}

/// `R>` on a machine state.
pub open spec fn sp_from_r(st: MachineState) -> (MachineState, Result<(), ErrModel>) {
    match st.register {
        None => (st, Err(ErrModel::RegisterEmpty)),
        Some(v) => (MachineState { stack: st.stack.push(v), register: None, ..st }, Ok(())),
    }
}

/// `R@` on a machine state.
pub open spec fn sp_r_fetch(st: MachineState) -> (MachineState, Result<(), ErrModel>) {
    match st.register {
        None => (st, Err(ErrModel::RegisterEmpty)),
        Some(v) => (MachineState { stack: st.stack.push(v), ..st }, Ok(())),
    }
}

/// The transition of a hard-coded word on a machine state, for the words
/// this fragment specifies: the stack-shuffle and register words. Every
/// other builtin is outside the fragment.
pub open spec fn spec_builtin_step(name: Seq<char>, st: MachineState) -> Option<(
    MachineState,
    Result<(), ErrModel>,
)> {
    if name == "DUP"@ {
        Some(sp_dup(st))
    } else if name == "DROP"@ {
        Some(sp_drop(st))
    } else if name == "SWAP"@ {
        Some(sp_swap(st))
    } else if name == "OVER"@ {
        Some(sp_over(st))
    } else if name == "ROT"@ {
        Some(sp_rot(st))
    } else if name == "NIP"@ {
        Some(sp_nip(st))
    } else if name == ">R"@ {
        Some(sp_to_r(st))
    } else if name == "R>"@ {
        Some(sp_from_r(st))
    } else if name == "R@"@ {
        Some(sp_r_fetch(st))
    } else {
        None
    }
}

/// Evaluation of a token run over a machine state, as far as this library
/// specifies it: literal tokens push their values, bracketed runs push
/// collected vectors, a description annotation is held for the next `DEF`,
/// the nine operator words and `DEF` apply their transitions, a user-defined
/// word expands its stored body under the depth bound, and an unknown symbol
/// halts with `UnknownWord`. A hard-coded word is covered when
/// `spec_builtin_step` covers it; the rest — the re-entrant control forms,
/// the vector words and the print words among them — are outside this
/// fragment, and the result is `None`.
pub open spec fn spec_eval(
    st: MachineState,
    ts: Seq<TokModel>,
    i: int,
    pending: Option<Seq<char>>,
    depth: u32,
) -> Option<(MachineState, Result<(), ErrModel>)>
    decreases depth, ts.len() - i, 1int,
{
    if i < 0 || i >= ts.len() {
        Some((st, Ok(())))
    } else {
        match ts[i] {
            TokModel::Desc(t) => spec_eval(st, ts, i + 1, Some(t), depth),
            TokModel::Num { n, d } => if d == 0 {
                Some((st, Err(ErrModel::DivisionByZero)))
            } else if !crate::fraction::frac_fits(n, d) {
                Some((st, Err(ErrModel::NumericOverflow)))
            } else {
                let v = ValModel::Num {
                    n: crate::fraction::red_num(n, d),
                    d: crate::fraction::red_den(n, d),
                };
                spec_eval(
                    MachineState { stack: st.stack.push(v), ..st },
                    ts,
                    i + 1,
                    pending,
                    depth,
                )
            },
            TokModel::Str(t) => spec_eval(
                MachineState { stack: st.stack.push(ValModel::Str(t)), ..st },
                ts,
                i + 1,
                pending,
                depth,
            ),
            TokModel::Bool(b) => spec_eval(
                MachineState { stack: st.stack.push(ValModel::Bool(b)), ..st },
                ts,
                i + 1,
                pending,
                depth,
            ),
            TokModel::Nil => spec_eval(
                MachineState { stack: st.stack.push(ValModel::Nil), ..st },
                ts,
                i + 1,
                pending,
                depth,
            ),
            TokModel::VecStart => match collect_items_spec(ts, i + 1) {
                Ok(p) => {
                    let j = clamp_pos(p.1, i + 2, ts.len() as int);
                    spec_eval(
                        MachineState { stack: st.stack.push(ValModel::Arr(p.0)), ..st },
                        ts,
                        j,
                        pending,
                        depth,
                    )
                },
                Err(em) => Some((st, Err(em))),
            },
            TokModel::VecEnd => Some((st, Err(ErrModel::UnexpectedVectorEnd))),
            TokModel::Sym(name) => if name == "+"@ {
                sp_continue(sp_arith_step(ArithOp::Add, st), ts, i, pending, depth)
            } else if name == "-"@ {
                sp_continue(sp_arith_step(ArithOp::Sub, st), ts, i, pending, depth)
            } else if name == "*"@ {
                sp_continue(sp_arith_step(ArithOp::Mul, st), ts, i, pending, depth)
            } else if name == "/"@ {
                sp_continue(sp_arith_step(ArithOp::Div, st), ts, i, pending, depth)
            } else if name == ">"@ {
                sp_continue(sp_cmp_step(CmpOp::Gt, st), ts, i, pending, depth)
            } else if name == ">="@ {
                sp_continue(sp_cmp_step(CmpOp::Ge, st), ts, i, pending, depth)
            } else if name == "<"@ {
                sp_continue(sp_cmp_step(CmpOp::Lt, st), ts, i, pending, depth)
            } else if name == "<="@ {
                sp_continue(sp_cmp_step(CmpOp::Le, st), ts, i, pending, depth)
            } else if name == "="@ {
                sp_continue(sp_eq_step(st), ts, i, pending, depth)
            } else if name == "DEF"@ {
                match sp_def_step(st, pending) {
                    (st2, Ok(_)) => spec_eval(st2, ts, i + 1, None, depth),
                    (st2, Err(em)) => Some((st2, Err(em))),
                }
            } else if name == "DO"@ || name == "BEGIN"@ {
                None
            } else if st.dict.dom().contains(name) {
                if st.dict[name].builtin {
                    match spec_builtin_step(name, st) {
                        None => None,
                        Some((st2, Ok(_))) => spec_eval(st2, ts, i + 1, pending, depth),
                        Some((st2, Err(em))) => Some((st2, Err(em))),
                    }
                } else {
                    if depth == 0 {
                        Some((st, Err(ErrModel::RecursionLimitExceeded)))
                    } else {
                        match spec_eval(st, st.dict[name].body, 0, None, (depth - 1) as u32) {
                            None => None,
                            Some((st2, Ok(_))) => spec_eval(st2, ts, i + 1, pending, depth),
                            Some((st2, Err(em))) => Some((st2, Err(em))),
                        }
                    }
                }
            } else {
                Some((st, Err(ErrModel::UnknownWord(name))))
            },
        }
    }
}

/// Continue evaluation after a one-word transition: an error halts with the
/// reached state, success moves past the word.
pub open spec fn sp_continue(
    step: (MachineState, Result<(), ErrModel>),
    ts: Seq<TokModel>,
    i: int,
    pending: Option<Seq<char>>,
    depth: u32,
) -> Option<(MachineState, Result<(), ErrModel>)>
    decreases depth, ts.len() - i, 0int,
        when 0 <= i < ts.len()
{
    match step.1 {
        Ok(_) => spec_eval(step.0, ts, i + 1, pending, depth),
        Err(em) => Some((step.0, Err(em))),
    }
}

/// The single-stepping bookkeeping is untouched.
spec fn same_step(a: Interpreter, b: Interpreter) -> bool {
    &&& a.step_tokens == b.step_tokens
    &&& a.step_position == b.step_position
    &&& a.step_mode == b.step_mode
}

impl Interpreter {
    /// `I`: the innermost counted-loop index.
    fn op_index_i(&mut self) -> (r: Result<(), EvalError>)
        ensures
            only_stack(*old(self), *final(self)),
            (match r {
                Ok(_) => old(self).loops_m().len() >= 1 && final(self).stack_m() == old(self).stack_m().push(
                    ValModel::Num { n: old(self).loops_m().last().1 as int, d: 1 },
                ),
                Err(e) => old(self).loops_m().len() == 0 && e.model()
                    == ErrModel::StackUnderflow && final(self).stack_m() == old(self).stack_m(),
            }),
    {
        if self.loop_stack.len() == 0 {
            return Err(EvalError::StackUnderflow);
        }
        let idx = self.loop_stack[self.loop_stack.len() - 1].1;
        proof {
            lemma_red_int(idx as int);
        }
        let f = match Fraction::try_new(idx, 1) {
            Some(f) => f,
            None => {
                proof {
                    assert(false);
                }
                return Err(EvalError::NumericOverflow);
            },
        };
        self.push_value(Value { val_type: ValueType::Number(f) });
        Ok(())
    }

    /// `J`: the next-enclosing counted-loop index.
    fn op_index_j(&mut self) -> (r: Result<(), EvalError>)
        ensures
            only_stack(*old(self), *final(self)),
            (match r {
                Ok(_) => old(self).loops_m().len() >= 2 && final(self).stack_m() == old(self).stack_m().push(
                    ValModel::Num {
                        n: old(self).loops_m()[old(self).loops_m().len() - 2].1 as int,
                        d: 1,
                    },
                ),
                Err(e) => old(self).loops_m().len() < 2 && e.model() == ErrModel::StackUnderflow
                    && final(self).stack_m() == old(self).stack_m(),
            }),
    {
        if self.loop_stack.len() < 2 {
            return Err(EvalError::StackUnderflow);
        }
        let idx = self.loop_stack[self.loop_stack.len() - 2].1;
        proof {
            lemma_red_int(idx as int);
        }
        let f = match Fraction::try_new(idx, 1) {
            Some(f) => f,
            None => {
                proof {
                    assert(false);
                }
                return Err(EvalError::NumericOverflow);
            },
        };
        self.push_value(Value { val_type: ValueType::Number(f) });
        Ok(())
    }

    /// Expand a quotation back into tokens and evaluate it.
    fn run_quotation(&mut self, items: &Vec<Value>, depth: u32) -> (r: Result<(), EvalError>)
        requires
            old(self).wf(),
        ensures
            final(self).wf(),
            same_step(*old(self), *final(self)),
            r is Ok ==> final(self).loop_stack@ == old(self).loop_stack@,
            depth == 0 ==> (r matches Err(e) && e.model() == ErrModel::RecursionLimitExceeded
                && *final(self) == *old(self)),
        decreases depth, 0int,
    {
        if depth == 0 {
            return Err(EvalError::RecursionLimitExceeded);
        }
        let mut toks: Vec<Token> = Vec::new();
        let mut i: usize = 0;
        #[verifier::loop_isolation(false)]
        while i < items.len()
            invariant
                i <= items@.len(),
            decreases items@.len() - i,
        {
            push_value_tokens(&items[i], &mut toks);
            i += 1;
        }
        self.execute_tokens(&toks, (depth - 1) as u32)
    }

    /// Pop a quotation result that must be a boolean.
    fn pop_boolean(&mut self, operation: &str) -> (r: Result<bool, EvalError>)
        ensures
            only_stack(*old(self), *final(self)),
            (match r {
                Ok(b) => old(self).stack_m().len() >= 1 && old(self).stack_m().last()
                    == ValModel::Bool(b) && final(self).stack_m() == old(self).stack_m().drop_last(),
                Err(e) => {
                    ||| ({
                        &&& old(self).stack_m().len() == 0
                        &&& e.model() == ErrModel::StackUnderflow
                        &&& final(self).stack_m() == old(self).stack_m()
                    })
                    ||| ({
                        &&& old(self).stack_m().len() >= 1
                        &&& !(old(self).stack_m().last() is Bool)
                        &&& e.model() == (ErrModel::TypeError {
                            operation: operation@,
                            expected: "a boolean"@,
                        })
                        &&& final(self).stack_m() == old(self).stack_m().drop_last()
                    })
                },
            }),
    {
        let v = match self.pop_value() {
            Ok(v) => v,
            Err(e) => {
                return Err(e);
            },
        };
        match v.val_type {
            ValueType::Boolean(b) => Ok(b),
            _ => Err(
                EvalError::TypeError {
                    operation: str_to_string(operation),
                    expected: str_to_string("a boolean"),
                },
            ),
        }
    }

    /// `IF`: pop an else-quotation, a then-quotation and a boolean; only the
    /// selected branch is expanded and evaluated.
    fn op_if(&mut self, depth: u32) -> (r: Result<(), EvalError>)
        requires
            old(self).wf(),
        ensures
            final(self).wf(),
            same_step(*old(self), *final(self)),
            r is Ok ==> final(self).loop_stack@ == old(self).loop_stack@,
            r is Ok ==> if_shape(old(self).stack_m()),
            old(self).stack_m().len() < 3 ==> (r matches Err(e) && e.model()
                == ErrModel::StackUnderflow && *final(self) == *old(self)),
            (old(self).stack_m().len() >= 3 && !if_shape(old(self).stack_m())) ==> (r matches Err(
                e,
            ) && e.model() == (ErrModel::TypeError {
                operation: "IF"@,
                expected: "a boolean and two vectors"@,
            }) && final(self).stack_m() == old(self).stack_m().drop_last().drop_last().drop_last() && only_stack(
                *old(self),
                *final(self),
            )),
        decreases depth, 1int,
    {
        proof {
            lemma_vals_model(self.stack@);
        }
        if self.stack.len() < 3 {
            return Err(EvalError::StackUnderflow);
        }
        let (then_v, else_v) = match self.pop_two() {
            Ok(p) => p,
            Err(e) => {
                return Err(e);
            },
        };
        let cond_v = match self.pop_value() {
            Ok(v) => v,
            Err(e) => {
                return Err(e);
            },
        };
        match (cond_v.val_type, then_v.val_type, else_v.val_type) {
            (ValueType::Boolean(c), ValueType::Vector(tq), ValueType::Vector(eq_)) => {
                if c {
                    self.run_quotation(&tq, depth)
                } else {
                    self.run_quotation(&eq_, depth)
                }
            },
            _ => Err(
                EvalError::TypeError {
                    operation: str_to_string("IF"),
                    expected: str_to_string("a boolean and two vectors"),
                },
            ),
        }
    }

    /// `WHEN` / `UNLESS`: pop a quotation and a boolean; evaluate the
    /// quotation when the boolean matches `want`.
    fn op_when(&mut self, want: bool, depth: u32) -> (r: Result<(), EvalError>)
        requires
            old(self).wf(),
        ensures
            final(self).wf(),
            same_step(*old(self), *final(self)),
            r is Ok ==> final(self).loop_stack@ == old(self).loop_stack@,
            r is Ok ==> when_shape(old(self).stack_m()),
            old(self).stack_m().len() < 2 ==> (r matches Err(e) && e.model()
                == ErrModel::StackUnderflow && *final(self) == *old(self)),
            (old(self).stack_m().len() >= 2 && !when_shape(old(self).stack_m())) ==> (r matches
                Err(e) && e.model() == (ErrModel::TypeError {
                operation: (if want {
                    "WHEN"@
                } else {
                    "UNLESS"@
                }),
                expected: "a boolean and a vector"@,
            }) && final(self).stack_m() == old(self).stack_m().drop_last().drop_last()
                && only_stack(*old(self), *final(self))),
        decreases depth, 1int,
    {
        proof {
            lemma_vals_model(self.stack@);
        }
        if self.stack.len() < 2 {
            return Err(EvalError::StackUnderflow);
        }
        let (cond_v, quot_v) = match self.pop_two() {
            Ok(p) => p,
            Err(e) => {
                return Err(e);
            },
        };
        match (cond_v.val_type, quot_v.val_type) {
            (ValueType::Boolean(c), ValueType::Vector(q)) => {
                if c == want {
                    self.run_quotation(&q, depth)
                } else {
                    Ok(())
                }
            },
            _ => Err(
                EvalError::TypeError {
                    operation: str_to_string(if want {
                        "WHEN"
                    } else {
                        "UNLESS"
                    }),
                    expected: str_to_string("a boolean and a vector"),
                },
            ),
        }
    }

    /// `CASE`: pop a vector of `[condition action]` pairs and a probe value;
    /// for each pair the probe is pushed and the condition evaluated, which
    /// must leave a boolean; the first true condition selects its action.
    /// When no pair matches, the probe value is pushed back for the caller.
    fn op_case(&mut self, depth: u32) -> (r: Result<(), EvalError>)
        requires
            old(self).wf(),
        ensures
            final(self).wf(),
            same_step(*old(self), *final(self)),
            r is Ok ==> final(self).loop_stack@ == old(self).loop_stack@,
            r is Ok ==> case_shape(old(self).stack_m()),
            old(self).stack_m().len() < 2 ==> (r matches Err(e) && e.model()
                == ErrModel::StackUnderflow && *final(self) == *old(self)),
            (old(self).stack_m().len() >= 2 && !case_shape(old(self).stack_m())) ==> (r matches
                Err(e) && e.model() == (ErrModel::TypeError {
                operation: "CASE"@,
                expected: "a value and a vector of pairs"@,
            }) && final(self).stack_m() == old(self).stack_m().drop_last().drop_last()
                && only_stack(*old(self), *final(self))),
        decreases depth, 1int,
    {
        proof {
            lemma_vals_model(self.stack@);
        }
        if self.stack.len() < 2 {
            return Err(EvalError::StackUnderflow);
        }
        let (value, pairs_v) = match self.pop_two() {
            Ok(p) => p,
            Err(e) => {
                return Err(e);
            },
        };
        let pairs = match pairs_v.val_type {
            ValueType::Vector(p) => p,
            _ => {
                return Err(
                    EvalError::TypeError {
                        operation: str_to_string("CASE"),
                        expected: str_to_string("a value and a vector of pairs"),
                    },
                );
            },
        };
        let mut k: usize = 0;
        #[verifier::loop_isolation(false)]
        while k < pairs.len()
            invariant
                self.wf(),
                k <= pairs@.len(),
                same_step(*old(self), *self),
                self.loop_stack@ == old(self).loop_stack@,
            decreases pairs@.len() - k,
        {
            let (cond_q, action_q) = match &pairs[k].val_type {
                ValueType::Vector(pair) => {
                    if pair.len() != 2 {
                        return Err(
                            EvalError::TypeError {
                                operation: str_to_string("CASE"),
                                expected: str_to_string("condition-action pairs"),
                            },
                        );
                    }
                    let c = clone_value(&pair[0]);
                    let a = clone_value(&pair[1]);
                    (c, a)
                },
                _ => {
                    return Err(
                        EvalError::TypeError {
                            operation: str_to_string("CASE"),
                            expected: str_to_string("condition-action pairs"),
                        },
                    );
                },
            };
            let cond_items = match cond_q.val_type {
                ValueType::Vector(items) => items,
                _ => {
                    return Err(
                        EvalError::TypeError {
                            operation: str_to_string("CASE"),
                            expected: str_to_string("a condition quotation"),
                        },
                    );
                },
            };
            let probe = clone_value(&value);
            self.push_value(probe);
            match self.run_quotation(&cond_items, depth) {
                Ok(_) => {},
                Err(e) => {
                    return Err(e);
                },
            }
            let hit = match self.pop_boolean("CASE") {
                Ok(b) => b,
                Err(e) => {
                    return Err(e);
                },
            };
            if hit {
                let action_items = match action_q.val_type {
                    ValueType::Vector(items) => items,
                    _ => {
                        return Err(
                            EvalError::TypeError {
                                operation: str_to_string("CASE"),
                                expected: str_to_string("an action quotation"),
                            },
                        );
                    },
                };
                return self.run_quotation(&action_items, depth);
            }
            k += 1;
        }
        self.push_value(value);
        Ok(())
    }

    /// `LOOP` as a word: pop a body quotation and a condition quotation; the
    /// condition runs before every pass and must leave a boolean; a `false`
    /// stops the loop. A hard iteration cap reports `LoopLimitExceeded`.
    fn op_loop(&mut self, depth: u32) -> (r: Result<(), EvalError>)
        requires
            old(self).wf(),
        ensures
            final(self).wf(),
            same_step(*old(self), *final(self)),
            r is Ok ==> final(self).loop_stack@ == old(self).loop_stack@,
            r is Ok ==> loop_shape(old(self).stack_m()),
            old(self).stack_m().len() < 2 ==> (r matches Err(e) && e.model()
                == ErrModel::StackUnderflow && *final(self) == *old(self)),
            (old(self).stack_m().len() >= 2 && !loop_shape(old(self).stack_m())) ==> (r matches
                Err(e) && e.model() == (ErrModel::TypeError {
                operation: "LOOP"@,
                expected: "two vectors"@,
            }) && final(self).stack_m() == old(self).stack_m().drop_last().drop_last()
                && only_stack(*old(self), *final(self))),
        decreases depth, 1int,
    {
        proof {
            lemma_vals_model(self.stack@);
        }
        if self.stack.len() < 2 {
            return Err(EvalError::StackUnderflow);
        }
        let (cond_v, body_v) = match self.pop_two() {
            Ok(p) => p,
            Err(e) => {
                return Err(e);
            },
        };
        match (cond_v.val_type, body_v.val_type) {
            (ValueType::Vector(cond_items), ValueType::Vector(body_items)) => {
                let mut n: u32 = 0;
                #[verifier::loop_isolation(false)]
                while n < LOOP_LIMIT
                    invariant
                        self.wf(),
                        same_step(*old(self), *self),
                        self.loop_stack@ == old(self).loop_stack@,
                    decreases LOOP_LIMIT - n,
                {
                    match self.run_quotation(&cond_items, depth) {
                        Ok(_) => {},
                        Err(e) => {
                            return Err(e);
                        },
                    }
                    let go = match self.pop_boolean("LOOP") {
                        Ok(b) => b,
                        Err(e) => {
                            return Err(e);
                        },
                    };
                    if !go {
                        return Ok(());
                    }
                    match self.run_quotation(&body_items, depth) {
                        Ok(_) => {},
                        Err(e) => {
                            return Err(e);
                        },
                    }
                    n += 1;
                }
                Err(EvalError::LoopLimitExceeded)
            },
            _ => Err(
                EvalError::TypeError {
                    operation: str_to_string("LOOP"),
                    expected: str_to_string("two vectors"),
                },
            ),
        }
    }

    /// Dispatch a builtin word that works on the stack alone.
    fn exec_builtin(&mut self, name: &str, depth: u32) -> (r: Result<(), EvalError>)
        requires
            old(self).wf(),
        ensures
            final(self).wf(),
            same_step(*old(self), *final(self)),
            r is Ok ==> final(self).loop_stack@ == old(self).loop_stack@,
            (spec_builtin_step(name@, old(self).state_m()) matches Some(fin) ==> {
                &&& final(self).state_m() == fin.0
                &&& (fin.1 matches Ok(_) ==> r is Ok)
                &&& (fin.1 matches Err(em) ==> (r matches Err(e) && e.model() == em))
            }),
        decreases depth, 2int,
    {
        if str_eq_str(name, "DUP") {
            let r = self.op_dup();
            proof {
                if spec_builtin_step(name@, old(self).state_m()) is Some {
                    assert(self.state_m() =~= sp_dup(old(self).state_m()).0);
                    if r is Ok {
                        assert(sp_dup(old(self).state_m()).1 is Ok);
                    } else {
                        assert(sp_dup(old(self).state_m()).1 == Err::<(), ErrModel>(
                            (r->Err_0).model(),
                        ));
                    }
                }
            }
            r
        } else if str_eq_str(name, "DROP") {
            let r = self.op_drop();
            proof {
                if spec_builtin_step(name@, old(self).state_m()) is Some {
                    assert(self.state_m() =~= sp_drop(old(self).state_m()).0);
                    if r is Ok {
                        assert(sp_drop(old(self).state_m()).1 is Ok);
                    } else {
                        assert(sp_drop(old(self).state_m()).1 == Err::<(), ErrModel>(
                            (r->Err_0).model(),
                        ));
                    }
                }
            }
            r
        } else if str_eq_str(name, "SWAP") {
            let r = self.op_swap();
            proof {
                if spec_builtin_step(name@, old(self).state_m()) is Some {
                    assert(self.state_m() =~= sp_swap(old(self).state_m()).0);
                    if r is Ok {
                        assert(sp_swap(old(self).state_m()).1 is Ok);
                    } else {
                        assert(sp_swap(old(self).state_m()).1 == Err::<(), ErrModel>(
                            (r->Err_0).model(),
                        ));
                    }
                }
            }
            r
        } else if str_eq_str(name, "OVER") {
            let r = self.op_over();
            proof {
                if spec_builtin_step(name@, old(self).state_m()) is Some {
                    assert(self.state_m() =~= sp_over(old(self).state_m()).0);
                    if r is Ok {
                        assert(sp_over(old(self).state_m()).1 is Ok);
                    } else {
                        assert(sp_over(old(self).state_m()).1 == Err::<(), ErrModel>(
                            (r->Err_0).model(),
                        ));
                    }
                }
            }
            r
        } else if str_eq_str(name, "ROT") {
            let r = self.op_rot();
            proof {
                if spec_builtin_step(name@, old(self).state_m()) is Some {
                    assert(self.state_m() =~= sp_rot(old(self).state_m()).0);
                    if r is Ok {
                        assert(sp_rot(old(self).state_m()).1 is Ok);
                    } else {
                        assert(sp_rot(old(self).state_m()).1 == Err::<(), ErrModel>(
                            (r->Err_0).model(),
                        ));
                    }
                }
            }
            r
        } else if str_eq_str(name, "NIP") {
            let r = self.op_nip();
            proof {
                if spec_builtin_step(name@, old(self).state_m()) is Some {
                    assert(self.state_m() =~= sp_nip(old(self).state_m()).0);
                    if r is Ok {
                        assert(sp_nip(old(self).state_m()).1 is Ok);
                    } else {
                        assert(sp_nip(old(self).state_m()).1 == Err::<(), ErrModel>(
                            (r->Err_0).model(),
                        ));
                    }
                }
            }
            r
        } else if str_eq_str(name, ">R") {
            let r = self.op_to_r();
            proof {
                if spec_builtin_step(name@, old(self).state_m()) is Some {
                    assert(self.state_m() =~= sp_to_r(old(self).state_m()).0);
                    if r is Ok {
                        assert(sp_to_r(old(self).state_m()).1 is Ok);
                    } else {
                        assert(sp_to_r(old(self).state_m()).1 == Err::<(), ErrModel>(
                            (r->Err_0).model(),
                        ));
                    }
                }
            }
            r
        } else if str_eq_str(name, "R>") {
            let r = self.op_from_r();
            proof {
                if spec_builtin_step(name@, old(self).state_m()) is Some {
                    assert(self.state_m() =~= sp_from_r(old(self).state_m()).0);
                    if r is Ok {
                        assert(sp_from_r(old(self).state_m()).1 is Ok);
                    } else {
                        assert(sp_from_r(old(self).state_m()).1 == Err::<(), ErrModel>(
                            (r->Err_0).model(),
                        ));
                    }
                }
            }
            r
        } else if str_eq_str(name, "R@") {
            let r = self.op_r_fetch();
            proof {
                if spec_builtin_step(name@, old(self).state_m()) is Some {
                    assert(self.state_m() =~= sp_r_fetch(old(self).state_m()).0);
                    if r is Ok {
                        assert(sp_r_fetch(old(self).state_m()).1 is Ok);
                    } else {
                        assert(sp_r_fetch(old(self).state_m()).1 == Err::<(), ErrModel>(
                            (r->Err_0).model(),
                        ));
                    }
                }
            }
            r
        } else if str_eq_str(name, "LENGTH") {
            self.op_length()
        } else if str_eq_str(name, "HEAD") {
            self.op_head()
        } else if str_eq_str(name, "TAIL") {
            self.op_tail()
        } else if str_eq_str(name, "CONS") {
            self.op_cons()
        } else if str_eq_str(name, "APPEND") {
            self.op_append()
        } else if str_eq_str(name, "REVERSE") {
            self.op_reverse()
        } else if str_eq_str(name, "NTH") {
            self.op_nth()
        } else if str_eq_str(name, "UNCONS") {
            self.op_uncons()
        } else if str_eq_str(name, "EMPTY?") {
            self.op_empty()
        } else if str_eq_str(name, "DEL") {
            self.op_del()
        } else if str_eq_str(name, "NOT") {
            self.op_not()
        } else if str_eq_str(name, "IF") {
            self.op_if(depth)
        } else if str_eq_str(name, "WHEN") {
            self.op_when(true, depth)
        } else if str_eq_str(name, "UNLESS") {
            self.op_when(false, depth)
        } else if str_eq_str(name, "CASE") {
            self.op_case(depth)
        } else if str_eq_str(name, "LOOP") {
            self.op_loop(depth)
        } else if str_eq_str(name, "I") {
            self.op_index_i()
        } else if str_eq_str(name, "J") {
            self.op_index_j()
        } else if str_eq_str(name, "AGAIN") || str_eq_str(name, "UNTIL") || str_eq_str(
            name,
            "WHILE",
        ) || str_eq_str(name, "REPEAT") {
            Err(EvalError::MisplacedControl(name.to_owned()))
        } else if str_eq_str(name, ".") {
            self.op_dot()
        } else if str_eq_str(name, "PRINT") {
            self.op_print()
        } else if str_eq_str(name, "CR") {
            self.op_cr()
        } else if str_eq_str(name, "SPACE") {
            self.op_space()
        } else if str_eq_str(name, "SPACES") {
            self.op_spaces()
        } else if str_eq_str(name, "EMIT") {
            self.op_emit()
        } else {
            Err(EvalError::UnknownBuiltin(name.to_owned()))
        }
    }
}

/// Find the `LOOP` that closes a `DO` opened just before `from`, counting
/// nested `DO`/`LOOP` pairs.
#[verifier::loop_isolation(false)]
fn scan_do_loop(tokens: &Vec<Token>, from: usize) -> (r: Option<usize>)
    requires
        from <= tokens@.len(),
    ensures
        (match r {
            Some(j) => from <= j < tokens@.len(),
            None => true,
        }),
{
    let mut j = from;
    let mut nest: usize = 0;
    while j < tokens.len()
        invariant
            from <= j <= tokens@.len(),
        decreases tokens@.len() - j,
    {
        if let Token::Symbol(name) = &tokens[j] {
            if str_eq_str(name.as_str(), "DO") {
                if nest == usize::MAX {
                    return None;
                }
                nest = nest + 1;
            } else if str_eq_str(name.as_str(), "LOOP") {
                if nest == 0 {
                    return Some(j);
                }
                nest = nest - 1;
            }
        }
        j += 1;
    }
    None
}

/// Find the terminator that closes a `BEGIN` opened just before `from`,
/// counting nested `DO` and `BEGIN` forms, and the position of a `WHILE` at
/// the same nesting level. Kinds: 0 `AGAIN`, 1 `UNTIL`, 2 `REPEAT`.
#[verifier::loop_isolation(false)]
fn scan_begin(tokens: &Vec<Token>, from: usize) -> (r: Option<(usize, u8, usize, bool)>)
    requires
        from <= tokens@.len(),
    ensures
        (match r {
            Some(q) => from <= q.0 < tokens@.len() && (q.3 ==> from <= q.2 < q.0),
            None => true,
        }),
{
    let mut j = from;
    let mut nest: usize = 0;
    let mut while_at: usize = from;
    let mut has_while = false;
    while j < tokens.len()
        invariant
            from <= j <= tokens@.len(),
            has_while ==> from <= while_at < j,
        decreases tokens@.len() - j,
    {
        if let Token::Symbol(name) = &tokens[j] {
            if str_eq_str(name.as_str(), "DO") || str_eq_str(name.as_str(), "BEGIN") {
                if nest == usize::MAX {
                    return None;
                }
                nest = nest + 1;
            } else if str_eq_str(name.as_str(), "LOOP") || str_eq_str(name.as_str(), "AGAIN")
                || str_eq_str(name.as_str(), "UNTIL") || str_eq_str(name.as_str(), "REPEAT") {
                if nest == 0 {
                    if str_eq_str(name.as_str(), "AGAIN") {
                        return Some((j, 0, while_at, has_while));
                    }
                    if str_eq_str(name.as_str(), "UNTIL") {
                        return Some((j, 1, while_at, has_while));
                    }
                    if str_eq_str(name.as_str(), "REPEAT") {
                        return Some((j, 2, while_at, has_while));
                    }
                    return None;
                }
                nest = nest - 1;
            } else if str_eq_str(name.as_str(), "WHILE") {
                if nest == 0 {
                    while_at = j;
                    has_while = true;
                }
            }
        }
        j += 1;
    }
    None
}

impl Interpreter {
    /// `DO ... LOOP`: pop a limit and a start (limit on top), both whole
    /// numbers, and run the enclosed tokens once per index in
    /// `[start, limit)`, exposing the running index on the loop stack.
    fn op_do(&mut self, body: &Vec<Token>, depth: u32) -> (r: Result<(), EvalError>)
        requires
            old(self).wf(),
        ensures
            final(self).wf(),
            same_step(*old(self), *final(self)),
            r is Ok ==> final(self).loop_stack@ == old(self).loop_stack@,
            r is Ok ==> do_shape(old(self).stack_m()) && depth > 0,
            old(self).stack_m().len() < 2 ==> (r matches Err(e) && e.model()
                == ErrModel::StackUnderflow && *final(self) == *old(self)),
            (old(self).stack_m().len() >= 2 && !do_shape(old(self).stack_m())) ==> (r matches Err(
                e,
            ) && e.model() is TypeError && final(self).stack_m() == old(self).stack_m().drop_last().drop_last() && only_stack(*old(self), *final(self))),
        decreases depth, 1int,
    {
        proof {
            lemma_vals_model(self.stack@);
        }
        if self.stack.len() < 2 {
            return Err(EvalError::StackUnderflow);
        }
        let (start_v, limit_v) = match self.pop_two() {
            Ok(p) => p,
            Err(e) => {
                return Err(e);
            },
        };
        let (start, limit) = match (start_v.val_type, limit_v.val_type) {
            (ValueType::Number(fs), ValueType::Number(fl)) => {
                if fs.denominator() != 1 || fl.denominator() != 1 {
                    return Err(
                        EvalError::TypeError {
                            operation: str_to_string("DO"),
                            expected: str_to_string("integer start and limit"),
                        },
                    );
                }
                (fs.numerator(), fl.numerator())
            },
            _ => {
                return Err(
                    EvalError::TypeError {
                        operation: str_to_string("DO"),
                        expected: str_to_string("two numbers"),
                    },
                );
            },
        };
        if depth == 0 {
            return Err(EvalError::RecursionLimitExceeded);
        }
        let ghost base = self.loop_stack@;
        self.loop_stack.push((limit, start));
        let mut idx = start;
        #[verifier::loop_isolation(false)]
        while idx < limit
            invariant
                self.wf(),
                same_step(*old(self), *self),
                start <= idx <= limit || idx == start,
                self.loop_stack@ == base.push((limit, idx)),
            decreases limit - idx,
        {
            match self.execute_tokens(body, (depth - 1) as u32) {
                Ok(_) => {},
                Err(e) => {
                    return Err(e);
                },
            }
            let _ = self.loop_stack.pop();
            idx = idx + 1;
            self.loop_stack.push((limit, idx));
            proof {
                assert(self.loop_stack@ =~= base.push((limit, idx)));
            }
        }
        let _ = self.loop_stack.pop();
        proof {
            assert(self.loop_stack@ =~= base);
        }
        Ok(())
    }

    /// `BEGIN ... AGAIN|UNTIL|WHILE ... REPEAT`: the open loop forms, all
    /// bounded by the iteration cap.
    fn op_begin(&mut self, kind: u8, cond: &Vec<Token>, body: &Vec<Token>, depth: u32) -> (r:
        Result<(), EvalError>)
        requires
            old(self).wf(),
        ensures
            final(self).wf(),
            same_step(*old(self), *final(self)),
            r is Ok ==> final(self).loop_stack@ == old(self).loop_stack@,
            depth == 0 ==> (r matches Err(e) && e.model() == ErrModel::RecursionLimitExceeded
                && *final(self) == *old(self)),
        decreases depth, 1int,
    {
        if depth == 0 {
            return Err(EvalError::RecursionLimitExceeded);
        }
        let mut n: u32 = 0;
        #[verifier::loop_isolation(false)]
        while n < LOOP_LIMIT
            invariant
                self.wf(),
                same_step(*old(self), *self),
                self.loop_stack@ == old(self).loop_stack@,
            decreases LOOP_LIMIT - n,
        {
            if kind == 2 {
                match self.execute_tokens(cond, (depth - 1) as u32) {
                    Ok(_) => {},
                    Err(e) => {
                        return Err(e);
                    },
                }
                let go = match self.pop_boolean("WHILE") {
                    Ok(b) => b,
                    Err(e) => {
                        return Err(e);
                    },
                };
                if !go {
                    return Ok(());
                }
            }
            match self.execute_tokens(body, (depth - 1) as u32) {
                Ok(_) => {},
                Err(e) => {
                    return Err(e);
                },
            }
            if kind == 1 {
                let done = match self.pop_boolean("UNTIL") {
                    Ok(b) => b,
                    Err(e) => {
                        return Err(e);
                    },
                };
                if done {
                    return Ok(());
                }
            }
            n += 1;
        }
        Err(EvalError::LoopLimitExceeded)
    }

    /// A run of inert data lies inside the specified evaluation fragment:
    /// evaluating it succeeds and pushes exactly the collected values.
    proof fn lemma_data_in_fragment(
        st: MachineState,
        ts: Seq<TokModel>,
        i: int,
        pending: Option<Seq<char>>,
        depth: u32,
    )
        requires
            spec_data_run(ts, i) is Some,
            0 <= i,
        ensures
            spec_eval(st, ts, i, pending, depth) == Some(
                (
                    MachineState { stack: st.stack + spec_data_run(ts, i)->Some_0, ..st },
                    Ok::<(), ErrModel>(()),
                ),
            ),
        decreases ts.len() - i,
    {
        let vs = spec_data_run(ts, i)->Some_0;
        if i >= ts.len() {
            assert(st.stack + vs =~= st.stack);
            assert((MachineState { stack: st.stack + vs, ..st }) =~= st);
        } else {
            match ts[i] {
                TokModel::Desc(t) => {
                    Self::lemma_data_in_fragment(st, ts, i + 1, Some(t), depth);
                },
                TokModel::Num { n, d } => {
                    let v = ValModel::Num {
                        n: crate::fraction::red_num(n, d),
                        d: crate::fraction::red_den(n, d),
                    };
                    let st2 = MachineState { stack: st.stack.push(v), ..st };
                    Self::lemma_data_in_fragment(st2, ts, i + 1, pending, depth);
                    assert(st2.stack + spec_data_run(ts, i + 1)->Some_0 =~= st.stack + vs);
                },
                TokModel::Str(t) => {
                    let st2 = MachineState { stack: st.stack.push(ValModel::Str(t)), ..st };
                    Self::lemma_data_in_fragment(st2, ts, i + 1, pending, depth);
                    assert(st2.stack + spec_data_run(ts, i + 1)->Some_0 =~= st.stack + vs);
                },
                TokModel::Bool(b) => {
                    let st2 = MachineState { stack: st.stack.push(ValModel::Bool(b)), ..st };
                    Self::lemma_data_in_fragment(st2, ts, i + 1, pending, depth);
                    assert(st2.stack + spec_data_run(ts, i + 1)->Some_0 =~= st.stack + vs);
                },
                TokModel::Nil => {
                    let st2 = MachineState { stack: st.stack.push(ValModel::Nil), ..st };
                    Self::lemma_data_in_fragment(st2, ts, i + 1, pending, depth);
                    assert(st2.stack + spec_data_run(ts, i + 1)->Some_0 =~= st.stack + vs);
                },
                TokModel::VecStart => {
                    let p = collect_items_spec(ts, i + 1)->Ok_0;
                    let j = clamp_pos(p.1, i + 2, ts.len() as int);
                    let st2 = MachineState { stack: st.stack.push(ValModel::Arr(p.0)), ..st };
                    Self::lemma_data_in_fragment(st2, ts, j, pending, depth);
                    assert(st2.stack + spec_data_run(ts, j)->Some_0 =~= st.stack + vs);
                },
                TokModel::VecEnd => {},
                TokModel::Sym(_) => {},
            }
        }
    }

    /// Evaluate a token run left to right: literals push their values,
    /// bracketed runs push inert vectors, a description annotation is held
    /// pending until the next `DEF` consumes it, and symbols dispatch to
    /// operators, builtins or user-defined words. On the fragment `spec_eval`
    /// covers, the result and the reached state are exactly the specified
    /// ones.
    #[verifier::loop_isolation(false)]
    #[verifier::rlimit(100)]
    fn execute_tokens(&mut self, tokens: &Vec<Token>, depth: u32) -> (r: Result<(), EvalError>)
        requires
            old(self).wf(),
        ensures
            final(self).wf(),
            same_step(*old(self), *final(self)),
            r is Ok ==> final(self).loop_stack@ == old(self).loop_stack@,
            (spec_data_run(toks_model(tokens@), 0) matches Some(vs) ==> {
                &&& r is Ok
                &&& final(self).stack_m() == old(self).stack_m() + vs
                &&& final(self).register_m() == old(self).register_m()
                &&& final(self).dict_m() == old(self).dict_m()
                &&& final(self).output_m() == old(self).output_m()
            }),
            (spec_eval(old(self).state_m(), toks_model(tokens@), 0, None, depth) matches Some(fin)
                ==> {
                &&& final(self).state_m() == fin.0
                &&& (fin.1 matches Ok(_) ==> r is Ok)
                &&& (fin.1 matches Err(em) ==> (r matches Err(e) && e.model() == em))
            }),
        decreases depth, 3int,
    {
        let ghost tsm = toks_model(tokens@);
        let ghost keval = spec_eval(old(self).state_m(), tsm, 0, None, depth);
        proof {
            crate::tokenizer::lemma_toks_model(tokens@);
            if spec_data_run(tsm, 0) is Some {
                Self::lemma_data_in_fragment(old(self).state_m(), tsm, 0, None, depth);
            }
        }
        let mut i: usize = 0;
        let mut pending: Option<String> = None;
        while i < tokens.len()
            invariant
                self.wf(),
                i <= tokens@.len(),
                same_step(*old(self), *self),
                self.loop_stack@ == old(self).loop_stack@,
                keval is Some ==> keval == spec_eval(
                    self.state_m(),
                    tsm,
                    i as int,
                    opt_str_model(pending),
                    depth,
                ),
            decreases tokens@.len() - i,
        {
            let ghost sprev = self.state_m();
            let ghost pprev = opt_str_model(pending);
            match &tokens[i] {
                Token::Description(text) => {
                    pending = Some(text.clone());
                    i += 1;
                },
                Token::Number(n, d) => {
                    if *d == 0 {
                        return Err(EvalError::DivisionByZero);
                    }
                    let f = match Fraction::try_new(*n, *d) {
                        Some(f) => f,
                        None => {
                            return Err(EvalError::NumericOverflow);
                        },
                    };
                    let v = Value { val_type: ValueType::Number(f) };
                    let ghost vm = v.model();
                    self.push_value(v);
                    i += 1;
                    proof {
                        if keval is Some {
                            assert(self.state_m() =~= (MachineState {
                                stack: sprev.stack.push(vm),
                                ..sprev
                            }));
                        }
                    }
                },
                Token::String(t) => {
                    let v = Value { val_type: ValueType::String(t.clone()) };
                    let ghost vm = v.model();
                    self.push_value(v);
                    i += 1;
                    proof {
                        if keval is Some {
                            assert(self.state_m() =~= (MachineState {
                                stack: sprev.stack.push(vm),
                                ..sprev
                            }));
                        }
                    }
                },
                Token::Boolean(b) => {
                    let v = Value { val_type: ValueType::Boolean(*b) };
                    let ghost vm = v.model();
                    self.push_value(v);
                    i += 1;
                    proof {
                        if keval is Some {
                            assert(self.state_m() =~= (MachineState {
                                stack: sprev.stack.push(vm),
                                ..sprev
                            }));
                        }
                    }
                },
                Token::Nil => {
                    let v = Value { val_type: ValueType::Nil };
                    let ghost vm = v.model();
                    self.push_value(v);
                    i += 1;
                    proof {
                        if keval is Some {
                            assert(self.state_m() =~= (MachineState {
                                stack: sprev.stack.push(vm),
                                ..sprev
                            }));
                        }
                    }
                },
                Token::VectorStart => {
                    match collect_items(tokens, i + 1) {
                        Ok((items, next)) => {
                            let v = Value { val_type: ValueType::Vector(items) };
                            let ghost vm = v.model();
                            self.push_value(v);
                            proof {
                                assert(clamp_pos(next as int, i + 2, tsm.len() as int)
                                    == next as int);
                                if keval is Some {
                                    assert(self.state_m() =~= (MachineState {
                                        stack: sprev.stack.push(vm),
                                        ..sprev
                                    }));
                                }
                            }
                            i = next;
                        },
                        Err(e) => {
                            return Err(e);
                        },
                    }
                },
                Token::VectorEnd => {
                    return Err(EvalError::UnexpectedVectorEnd);
                },
                Token::Symbol(name) => {
                    if str_eq_str(name.as_str(), "+") {
                        match self.op_arith(ArithOp::Add) {
                            Ok(_) => {},
                            Err(e) => {
                                proof {
                                    if keval is Some {
                                        assert(tsm[i as int] == TokModel::Sym(name@));
                                        assert(spec_eval(sprev, tsm, i as int, pprev, depth)
                                            == sp_continue(
                                            sp_arith_step(ArithOp::Add, sprev),
                                            tsm,
                                            i as int,
                                            pprev,
                                            depth,
                                        ));
                                        assert(self.state_m() =~= sp_arith_step(ArithOp::Add, sprev).0);
                                        assert(sp_arith_step(ArithOp::Add, sprev).1 == Err::<
                                            (),
                                            ErrModel,
                                        >(e.model()));
                                        assert(keval == Some(
                                            (self.state_m(), Err::<(), ErrModel>(e.model())),
                                        ));
                                    }
                                }
                                return Err(e);
                            },
                        }
                        proof {
                            if keval is Some {
                                assert(tsm[i as int] == TokModel::Sym(name@));
                                assert(spec_eval(sprev, tsm, i as int, pprev, depth)
                                    == sp_continue(
                                    sp_arith_step(ArithOp::Add, sprev),
                                    tsm,
                                    i as int,
                                    pprev,
                                    depth,
                                ));
                                assert(self.state_m() =~= sp_arith_step(ArithOp::Add, sprev).0);
                                assert(sp_arith_step(ArithOp::Add, sprev).1 is Ok);
                            }
                        }
                        i += 1;
                    } else if str_eq_str(name.as_str(), "-") {
                        match self.op_arith(ArithOp::Sub) {
                            Ok(_) => {},
                            Err(e) => {
                                proof {
                                    if keval is Some {
                                        assert(tsm[i as int] == TokModel::Sym(name@));
                                        assert(spec_eval(sprev, tsm, i as int, pprev, depth)
                                            == sp_continue(
                                            sp_arith_step(ArithOp::Sub, sprev),
                                            tsm,
                                            i as int,
                                            pprev,
                                            depth,
                                        ));
                                        assert(self.state_m() =~= sp_arith_step(ArithOp::Sub, sprev).0);
                                        assert(sp_arith_step(ArithOp::Sub, sprev).1 == Err::<
                                            (),
                                            ErrModel,
                                        >(e.model()));
                                        assert(keval == Some(
                                            (self.state_m(), Err::<(), ErrModel>(e.model())),
                                        ));
                                    }
                                }
                                return Err(e);
                            },
                        }
                        proof {
                            if keval is Some {
                                assert(tsm[i as int] == TokModel::Sym(name@));
                                assert(spec_eval(sprev, tsm, i as int, pprev, depth)
                                    == sp_continue(
                                    sp_arith_step(ArithOp::Sub, sprev),
                                    tsm,
                                    i as int,
                                    pprev,
                                    depth,
                                ));
                                assert(self.state_m() =~= sp_arith_step(ArithOp::Sub, sprev).0);
                                assert(sp_arith_step(ArithOp::Sub, sprev).1 is Ok);
                            }
                        }
                        i += 1;
                    } else if str_eq_str(name.as_str(), "*") {
                        match self.op_arith(ArithOp::Mul) {
                            Ok(_) => {},
                            Err(e) => {
                                proof {
                                    if keval is Some {
                                        assert(tsm[i as int] == TokModel::Sym(name@));
                                        assert(spec_eval(sprev, tsm, i as int, pprev, depth)
                                            == sp_continue(
                                            sp_arith_step(ArithOp::Mul, sprev),
                                            tsm,
                                            i as int,
                                            pprev,
                                            depth,
                                        ));
                                        assert(self.state_m() =~= sp_arith_step(ArithOp::Mul, sprev).0);
                                        assert(sp_arith_step(ArithOp::Mul, sprev).1 == Err::<
                                            (),
                                            ErrModel,
                                        >(e.model()));
                                        assert(keval == Some(
                                            (self.state_m(), Err::<(), ErrModel>(e.model())),
                                        ));
                                    }
                                }
                                return Err(e);
                            },
                        }
                        proof {
                            if keval is Some {
                                assert(tsm[i as int] == TokModel::Sym(name@));
                                assert(spec_eval(sprev, tsm, i as int, pprev, depth)
                                    == sp_continue(
                                    sp_arith_step(ArithOp::Mul, sprev),
                                    tsm,
                                    i as int,
                                    pprev,
                                    depth,
                                ));
                                assert(self.state_m() =~= sp_arith_step(ArithOp::Mul, sprev).0);
                                assert(sp_arith_step(ArithOp::Mul, sprev).1 is Ok);
                            }
                        }
                        i += 1;
                    } else if str_eq_str(name.as_str(), "/") {
                        match self.op_arith(ArithOp::Div) {
                            Ok(_) => {},
                            Err(e) => {
                                proof {
                                    if keval is Some {
                                        assert(tsm[i as int] == TokModel::Sym(name@));
                                        assert(spec_eval(sprev, tsm, i as int, pprev, depth)
                                            == sp_continue(
                                            sp_arith_step(ArithOp::Div, sprev),
                                            tsm,
                                            i as int,
                                            pprev,
                                            depth,
                                        ));
                                        assert(self.state_m() =~= sp_arith_step(ArithOp::Div, sprev).0);
                                        assert(sp_arith_step(ArithOp::Div, sprev).1 == Err::<
                                            (),
                                            ErrModel,
                                        >(e.model()));
                                        assert(keval == Some(
                                            (self.state_m(), Err::<(), ErrModel>(e.model())),
                                        ));
                                    }
                                }
                                return Err(e);
                            },
                        }
                        proof {
                            if keval is Some {
                                assert(tsm[i as int] == TokModel::Sym(name@));
                                assert(spec_eval(sprev, tsm, i as int, pprev, depth)
                                    == sp_continue(
                                    sp_arith_step(ArithOp::Div, sprev),
                                    tsm,
                                    i as int,
                                    pprev,
                                    depth,
                                ));
                                assert(self.state_m() =~= sp_arith_step(ArithOp::Div, sprev).0);
                                assert(sp_arith_step(ArithOp::Div, sprev).1 is Ok);
                            }
                        }
                        i += 1;
                    } else if str_eq_str(name.as_str(), ">") {
                        match self.op_cmp(CmpOp::Gt) {
                            Ok(_) => {},
                            Err(e) => {
                                proof {
                                    if keval is Some {
                                        assert(tsm[i as int] == TokModel::Sym(name@));
                                        assert(spec_eval(sprev, tsm, i as int, pprev, depth)
                                            == sp_continue(
                                            sp_cmp_step(CmpOp::Gt, sprev),
                                            tsm,
                                            i as int,
                                            pprev,
                                            depth,
                                        ));
                                        assert(self.state_m() =~= sp_cmp_step(CmpOp::Gt, sprev).0);
                                        assert(sp_cmp_step(CmpOp::Gt, sprev).1 == Err::<
                                            (),
                                            ErrModel,
                                        >(e.model()));
                                        assert(keval == Some(
                                            (self.state_m(), Err::<(), ErrModel>(e.model())),
                                        ));
                                    }
                                }
                                return Err(e);
                            },
                        }
                        proof {
                            if keval is Some {
                                assert(tsm[i as int] == TokModel::Sym(name@));
                                assert(spec_eval(sprev, tsm, i as int, pprev, depth)
                                    == sp_continue(
                                    sp_cmp_step(CmpOp::Gt, sprev),
                                    tsm,
                                    i as int,
                                    pprev,
                                    depth,
                                ));
                                assert(self.state_m() =~= sp_cmp_step(CmpOp::Gt, sprev).0);
                                assert(sp_cmp_step(CmpOp::Gt, sprev).1 is Ok);
                            }
                        }
                        i += 1;
                    } else if str_eq_str(name.as_str(), ">=") {
                        match self.op_cmp(CmpOp::Ge) {
                            Ok(_) => {},
                            Err(e) => {
                                proof {
                                    if keval is Some {
                                        assert(tsm[i as int] == TokModel::Sym(name@));
                                        assert(spec_eval(sprev, tsm, i as int, pprev, depth)
                                            == sp_continue(
                                            sp_cmp_step(CmpOp::Ge, sprev),
                                            tsm,
                                            i as int,
                                            pprev,
                                            depth,
                                        ));
                                        assert(self.state_m() =~= sp_cmp_step(CmpOp::Ge, sprev).0);
                                        assert(sp_cmp_step(CmpOp::Ge, sprev).1 == Err::<
                                            (),
                                            ErrModel,
                                        >(e.model()));
                                        assert(keval == Some(
                                            (self.state_m(), Err::<(), ErrModel>(e.model())),
                                        ));
                                    }
                                }
                                return Err(e);
                            },
                        }
                        proof {
                            if keval is Some {
                                assert(tsm[i as int] == TokModel::Sym(name@));
                                assert(spec_eval(sprev, tsm, i as int, pprev, depth)
                                    == sp_continue(
                                    sp_cmp_step(CmpOp::Ge, sprev),
                                    tsm,
                                    i as int,
                                    pprev,
                                    depth,
                                ));
                                assert(self.state_m() =~= sp_cmp_step(CmpOp::Ge, sprev).0);
                                assert(sp_cmp_step(CmpOp::Ge, sprev).1 is Ok);
                            }
                        }
                        i += 1;
                    } else if str_eq_str(name.as_str(), "<") {
                        match self.op_cmp(CmpOp::Lt) {
                            Ok(_) => {},
                            Err(e) => {
                                proof {
                                    if keval is Some {
                                        assert(tsm[i as int] == TokModel::Sym(name@));
                                        assert(spec_eval(sprev, tsm, i as int, pprev, depth)
                                            == sp_continue(
                                            sp_cmp_step(CmpOp::Lt, sprev),
                                            tsm,
                                            i as int,
                                            pprev,
                                            depth,
                                        ));
                                        assert(self.state_m() =~= sp_cmp_step(CmpOp::Lt, sprev).0);
                                        assert(sp_cmp_step(CmpOp::Lt, sprev).1 == Err::<
                                            (),
                                            ErrModel,
                                        >(e.model()));
                                        assert(keval == Some(
                                            (self.state_m(), Err::<(), ErrModel>(e.model())),
                                        ));
                                    }
                                }
                                return Err(e);
                            },
                        }
                        proof {
                            if keval is Some {
                                assert(tsm[i as int] == TokModel::Sym(name@));
                                assert(spec_eval(sprev, tsm, i as int, pprev, depth)
                                    == sp_continue(
                                    sp_cmp_step(CmpOp::Lt, sprev),
                                    tsm,
                                    i as int,
                                    pprev,
                                    depth,
                                ));
                                assert(self.state_m() =~= sp_cmp_step(CmpOp::Lt, sprev).0);
                                assert(sp_cmp_step(CmpOp::Lt, sprev).1 is Ok);
                            }
                        }
                        i += 1;
                    } else if str_eq_str(name.as_str(), "<=") {
                        match self.op_cmp(CmpOp::Le) {
                            Ok(_) => {},
                            Err(e) => {
                                proof {
                                    if keval is Some {
                                        assert(tsm[i as int] == TokModel::Sym(name@));
                                        assert(spec_eval(sprev, tsm, i as int, pprev, depth)
                                            == sp_continue(
                                            sp_cmp_step(CmpOp::Le, sprev),
                                            tsm,
                                            i as int,
                                            pprev,
                                            depth,
                                        ));
                                        assert(self.state_m() =~= sp_cmp_step(CmpOp::Le, sprev).0);
                                        assert(sp_cmp_step(CmpOp::Le, sprev).1 == Err::<
                                            (),
                                            ErrModel,
                                        >(e.model()));
                                        assert(keval == Some(
                                            (self.state_m(), Err::<(), ErrModel>(e.model())),
                                        ));
                                    }
                                }
                                return Err(e);
                            },
                        }
                        proof {
                            if keval is Some {
                                assert(tsm[i as int] == TokModel::Sym(name@));
                                assert(spec_eval(sprev, tsm, i as int, pprev, depth)
                                    == sp_continue(
                                    sp_cmp_step(CmpOp::Le, sprev),
                                    tsm,
                                    i as int,
                                    pprev,
                                    depth,
                                ));
                                assert(self.state_m() =~= sp_cmp_step(CmpOp::Le, sprev).0);
                                assert(sp_cmp_step(CmpOp::Le, sprev).1 is Ok);
                            }
                        }
                        i += 1;
                    } else if str_eq_str(name.as_str(), "=") {
                        match self.op_equal() {
                            Ok(_) => {},
                            Err(e) => {
                                proof {
                                    if keval is Some {
                                        assert(tsm[i as int] == TokModel::Sym(name@));
                                        assert(spec_eval(sprev, tsm, i as int, pprev, depth)
                                            == sp_continue(
                                            sp_eq_step(sprev),
                                            tsm,
                                            i as int,
                                            pprev,
                                            depth,
                                        ));
                                        assert(self.state_m() =~= sp_eq_step(sprev).0);
                                        assert(sp_eq_step(sprev).1 == Err::<
                                            (),
                                            ErrModel,
                                        >(e.model()));
                                        assert(keval == Some(
                                            (self.state_m(), Err::<(), ErrModel>(e.model())),
                                        ));
                                    }
                                }
                                return Err(e);
                            },
                        }
                        proof {
                            if keval is Some {
                                assert(tsm[i as int] == TokModel::Sym(name@));
                                assert(spec_eval(sprev, tsm, i as int, pprev, depth)
                                    == sp_continue(sp_eq_step(sprev), tsm, i as int, pprev, depth));
                                assert(self.state_m() =~= sp_eq_step(sprev).0);
                                assert(sp_eq_step(sprev).1 is Ok);
                            }
                        }
                        i += 1;
                    } else if str_eq_str(name.as_str(), "DEF") {
                        let pending_desc = pending.take();
                        match self.op_def(pending_desc) {
                            Ok(_) => {},
                            Err(e) => {
                                proof {
                                    if keval is Some {
                                        assert(tsm[i as int] == TokModel::Sym(name@));
                                        assert(sp_def_step(sprev, pprev).1 == Err::<
                                            (),
                                            ErrModel,
                                        >(e.model()));
                                        assert(self.state_m() =~= sp_def_step(sprev, pprev).0);
                                        assert(keval == Some(
                                            (self.state_m(), Err::<(), ErrModel>(e.model())),
                                        ));
                                    }
                                }
                                return Err(e);
                            },
                        }
                        proof {
                            if keval is Some {
                                assert(tsm[i as int] == TokModel::Sym(name@));
                                assert(self.state_m() =~= sp_def_step(sprev, pprev).0);
                                assert(sp_def_step(sprev, pprev).1 is Ok);
                            }
                        }
                        i += 1;
                    } else if str_eq_str(name.as_str(), "DO") {
                        proof {
                            assert(!(keval is Some));
                        }
                        let j = match scan_do_loop(tokens, i + 1) {
                            Some(j) => j,
                            None => {
                                return Err(EvalError::MisplacedControl(str_to_string("DO")));
                            },
                        };
                        let body = copy_token_range(tokens, i + 1, j);
                        match self.op_do(&body, depth) {
                            Ok(_) => {},
                            Err(e) => {
                                return Err(e);
                            },
                        }
                        i = j + 1;
                    } else if str_eq_str(name.as_str(), "BEGIN") {
                        proof {
                            assert(!(keval is Some));
                        }
                        let (term, kind, wp, has_wp) = match scan_begin(tokens, i + 1) {
                            Some(q) => q,
                            None => {
                                return Err(EvalError::MisplacedControl(str_to_string("BEGIN")));
                            },
                        };
                        if kind == 2 && !has_wp {
                            return Err(EvalError::MisplacedControl(str_to_string("REPEAT")));
                        }
                        let (cond, body) = if kind == 2 {
                            (
                                copy_token_range(tokens, i + 1, wp),
                                copy_token_range(tokens, wp + 1, term),
                            )
                        } else {
                            let empty: Vec<Token> = Vec::new();
                            (empty, copy_token_range(tokens, i + 1, term))
                        };
                        match self.op_begin(kind, &cond, &body, depth) {
                            Ok(_) => {},
                            Err(e) => {
                                return Err(e);
                            },
                        }
                        i = term + 1;
                    } else {
                        let mut found = false;
                        let mut builtin = false;
                        let mut body: Vec<Token> = Vec::new();
                        match self.dictionary.lookup(name.as_str()) {
                            Some(def) => {
                                found = true;
                                builtin = def.is_builtin;
                                if !def.is_builtin {
                                    body = clone_tokens(&def.tokens);
                                }
                            },
                            None => {},
                        }
                        if !found {
                            proof {
                                if keval is Some {
                                    assert(keval == Some(
                                        (
                                            self.state_m(),
                                            Err::<(), ErrModel>(ErrModel::UnknownWord(name@)),
                                        ),
                                    ));
                                }
                            }
                            return Err(EvalError::UnknownWord(name.clone()));
                        }
                        if builtin {
                            proof {
                                if keval is Some {
                                    assert(tsm[i as int] == TokModel::Sym(name@));
                                    assert(spec_builtin_step(name@, sprev) is Some);
                                }
                            }
                            match self.exec_builtin(name.as_str(), depth) {
                                Ok(_) => {},
                                Err(e) => {
                                    proof {
                                        if keval is Some {
                                            assert(keval == Some(
                                                (self.state_m(), Err::<(), ErrModel>(e.model())),
                                            ));
                                        }
                                    }
                                    return Err(e);
                                },
                            }
                            proof {
                                if keval is Some {
                                    assert(self.state_m() == spec_builtin_step(name@, sprev)->Some_0.0);
                                }
                            }
                        } else {
                            if depth == 0 {
                                proof {
                                    if keval is Some {
                                        assert(keval == Some(
                                            (
                                                self.state_m(),
                                                Err::<(), ErrModel>(
                                                    ErrModel::RecursionLimitExceeded,
                                                ),
                                            ),
                                        ));
                                    }
                                }
                                return Err(EvalError::RecursionLimitExceeded);
                            }
                            let ghost inner = spec_eval(
                                sprev,
                                sprev.dict[name@].body,
                                0,
                                None,
                                (depth - 1) as u32,
                            );
                            proof {
                                if keval is Some {
                                    assert(toks_model(body@) == sprev.dict[name@].body);
                                    assert(inner is Some);
                                }
                            }
                            match self.execute_tokens(&body, (depth - 1) as u32) {
                                Ok(_) => {},
                                Err(e) => {
                                    proof {
                                        if keval is Some {
                                            assert(keval == Some(
                                                (self.state_m(), Err::<(), ErrModel>(e.model())),
                                            ));
                                        }
                                    }
                                    return Err(e);
                                },
                            }
                            proof {
                                if keval is Some {
                                    assert(self.state_m() == inner->Some_0.0);
                                }
                            }
                        }
                        i += 1;
                    }
                },
            }
        }
        proof {
            if keval is Some {
                assert(spec_eval(
                    self.state_m(),
                    tsm,
                    tokens@.len() as int,
                    opt_str_model(pending),
                    depth,
                ) == Some((self.state_m(), Ok::<(), ErrModel>(()))));
            }
        }
        Ok(())
    }

    /// Tokenize and evaluate a program. A tokenizer failure reports the
    /// parse error and leaves the engine untouched; an evaluation failure
    /// aborts at the first failing operation, leaving the stack, dictionary
    /// and output as they were at that point.
    pub fn execute(&mut self, code: &str) -> (r: Result<(), EvalError>)
        requires
            old(self).wf(),
        ensures
            final(self).wf(),
            final(self).step_toks_m() == old(self).step_toks_m(),
            final(self).step_pos_m() == old(self).step_pos_m(),
            final(self).step_on_m() == old(self).step_on_m(),
            (match spec_tokenize(code@) {
                Err(pe) => r matches Err(ev) && ev.model() == ErrModel::Parse(pe) && *final(self)
                    == *old(self),
                Ok(ts) => {
                    &&& (spec_data_run(ts, 0) matches Some(vs) ==> {
                        &&& r is Ok
                        &&& final(self).stack_m() == old(self).stack_m() + vs
                        &&& final(self).register_m() == old(self).register_m()
                        &&& final(self).dict_m() == old(self).dict_m()
                        &&& final(self).output_m() == old(self).output_m()
                    })
                    &&& (spec_eval(old(self).state_m(), ts, 0, None, MAX_DEPTH) matches Some(fin)
                        ==> {
                        &&& final(self).state_m() == fin.0
                        &&& (fin.1 matches Ok(_) ==> r is Ok)
                        &&& (fin.1 matches Err(em) ==> (r matches Err(e) && e.model() == em))
                    })
                },
            }),
    {
        let toks = match tokenize(code) {
            Ok(t) => t,
            Err(reason) => {
                return Err(EvalError::Parse(reason));
            },
        };
        self.execute_tokens(&toks, MAX_DEPTH)
    }

    /// Load a program for single-stepping.
    pub fn init_step_execution(&mut self, code: &str) -> (r: Result<(), EvalError>)
        requires
            old(self).wf(),
        ensures
            final(self).wf(),
            final(self).stack_m() == old(self).stack_m(),
            final(self).register_m() == old(self).register_m(),
            final(self).dict_m() == old(self).dict_m(),
            final(self).output_m() == old(self).output_m(),
            (match spec_tokenize(code@) {
                Err(pe) => r matches Err(ev) && ev.model() == ErrModel::Parse(pe) && *final(self)
                    == *old(self),
                Ok(ts) => r is Ok && final(self).step_toks_m() == ts && final(self).step_pos_m()
                    == 0 && final(self).step_on_m(),
            }),
    {
        let toks = match tokenize(code) {
            Ok(t) => t,
            Err(reason) => {
                return Err(EvalError::Parse(reason));
            },
        };
        self.step_tokens = toks;
        self.step_position = 0;
        self.step_mode = true;
        Ok(())
    }

    /// Progress of single-stepping: position and total, when active.
    pub fn get_step_info(&self) -> (r: Option<(usize, usize)>)
        ensures
            (match r {
                Some(p) => self.step_on_m() && p.0 as int == self.step_pos_m() && p.1 as int
                    == self.step_toks_m().len(),
                None => !self.step_on_m(),
            }),
    {
        proof {
            crate::tokenizer::lemma_toks_model(self.step_tokens@);
        }
        if self.step_mode {
            Some((self.step_position, self.step_tokens.len()))
        } else {
            None
        }
    }

    /// Execute one loaded token. Returns whether tokens remain. A bracketed
    /// run is collected and pushed in one step. The multi-token control
    /// forms (`DO`, `BEGIN`) are not available in single-step mode and
    /// report `MisplacedControl`; a description token is inert here.
    pub fn execute_step(&mut self) -> (r: Result<bool, EvalError>)
        requires
            old(self).wf(),
        ensures
            final(self).wf(),
            (!old(self).step_on_m() || old(self).step_pos_m() >= old(self).step_toks_m().len())
                ==> (r matches Ok(b) && b == false && !final(self).step_on_m() && final(self).stack_m() == old(self).stack_m() && final(self).register_m() == old(self).register_m() && final(self).dict_m() == old(self).dict_m() && final(self).output_m()
                == old(self).output_m()),
            r is Err ==> !final(self).step_on_m(),
            (old(self).step_on_m() && old(self).step_pos_m() < old(self).step_toks_m().len() && r
                is Ok) ==> {
                &&& final(self).step_toks_m() == old(self).step_toks_m()
                &&& old(self).step_pos_m() < final(self).step_pos_m() <= final(self).step_toks_m().len()
                &&& final(self).step_on_m()
                &&& (r matches Ok(b) && b == (final(self).step_pos_m() < final(self).step_toks_m().len()))
            },
            (old(self).step_on_m() && old(self).step_pos_m() < old(self).step_toks_m().len()
                && !(old(self).step_toks_m()[old(self).step_pos_m()] is VecStart)
                && (spec_data_run(seq![old(self).step_toks_m()[old(self).step_pos_m()]], 0)
                is Some)) ==> {
                &&& r is Ok
                &&& final(self).stack_m() == old(self).stack_m() + spec_data_run(
                    seq![old(self).step_toks_m()[old(self).step_pos_m()]],
                    0,
                )->Some_0
                &&& final(self).register_m() == old(self).register_m()
                &&& final(self).dict_m() == old(self).dict_m()
                &&& final(self).output_m() == old(self).output_m()
                &&& final(self).step_pos_m() == old(self).step_pos_m() + 1
            },
    {
        proof {
            crate::tokenizer::lemma_toks_model(self.step_tokens@);
        }
        if !self.step_mode || self.step_position >= self.step_tokens.len() {
            self.step_mode = false;
            return Ok(false);
        }
        let snapshot = clone_tokens(&self.step_tokens);
        let pos = self.step_position;
        proof {
            crate::tokenizer::lemma_toks_model(snapshot@);
        }
        match &snapshot[pos] {
            Token::VectorStart => {
                match collect_items(&snapshot, pos + 1) {
                    Ok((items, next)) => {
                        self.push_value(Value { val_type: ValueType::Vector(items) });
                        self.step_position = next;
                        Ok(self.step_position < self.step_tokens.len())
                    },
                    Err(e) => {
                        self.step_mode = false;
                        Err(e)
                    },
                }
            },
            tok => {
                self.step_position = pos + 1;
                match self.execute_single_token(tok) {
                    Ok(_) => Ok(self.step_position < self.step_tokens.len()),
                    Err(e) => {
                        self.step_mode = false;
                        Err(e)
                    },
                }
            },
        }
    }

    /// Execute one token outside a bracketed run. A token that is inert data
    /// pushes exactly its value and changes nothing else.
    fn execute_single_token(&mut self, tok: &Token) -> (r: Result<(), EvalError>)
        requires
            old(self).wf(),
        ensures
            final(self).wf(),
            same_step(*old(self), *final(self)),
            (spec_data_run(seq![tok.model()], 0) matches Some(vs) ==> {
                &&& r is Ok
                &&& final(self).stack_m() == old(self).stack_m() + vs
                &&& final(self).register_m() == old(self).register_m()
                &&& final(self).dict_m() == old(self).dict_m()
                &&& final(self).output_m() == old(self).output_m()
                &&& final(self).loops_m() == old(self).loops_m()
            }),
        decreases MAX_DEPTH, 4int,
    {
        let ghost ts1 = seq![tok.model()];
        proof {
            if spec_data_run(ts1, 0) is Some {
                assert(spec_data_run(ts1, 1) == Some(Seq::<ValModel>::empty()));
            }
        }
        match tok {
            Token::Description(_) => Ok(()),
            Token::Number(n, d) => {
                if *d == 0 {
                    return Err(EvalError::DivisionByZero);
                }
                let f = match Fraction::try_new(*n, *d) {
                    Some(f) => f,
                    None => {
                        return Err(EvalError::NumericOverflow);
                    },
                };
                let v = Value { val_type: ValueType::Number(f) };
                let ghost vm = v.model();
                self.push_value(v);
                proof {
                    if spec_data_run(ts1, 0) is Some {
                        assert(old(self).stack_m() + (seq![vm] + Seq::<ValModel>::empty())
                            =~= old(self).stack_m().push(vm));
                    }
                }
                Ok(())
            },
            Token::String(t) => {
                let v = Value { val_type: ValueType::String(t.clone()) };
                let ghost vm = v.model();
                self.push_value(v);
                proof {
                    assert(old(self).stack_m() + (seq![vm] + Seq::<ValModel>::empty())
                        =~= old(self).stack_m().push(vm));
                }
                Ok(())
            },
            Token::Boolean(b) => {
                let v = Value { val_type: ValueType::Boolean(*b) };
                let ghost vm = v.model();
                self.push_value(v);
                proof {
                    assert(old(self).stack_m() + (seq![vm] + Seq::<ValModel>::empty())
                        =~= old(self).stack_m().push(vm));
                }
                Ok(())
            },
            Token::Nil => {
                let v = Value { val_type: ValueType::Nil };
                let ghost vm = v.model();
                self.push_value(v);
                proof {
                    assert(old(self).stack_m() + (seq![vm] + Seq::<ValModel>::empty())
                        =~= old(self).stack_m().push(vm));
                }
                Ok(())
            },
            Token::VectorStart => Err(EvalError::UnclosedVector),
            Token::VectorEnd => Err(EvalError::UnexpectedVectorEnd),
            Token::Symbol(name) => {
                if str_eq_str(name.as_str(), "+") {
                    self.op_arith(ArithOp::Add)
                } else if str_eq_str(name.as_str(), "-") {
                    self.op_arith(ArithOp::Sub)
                } else if str_eq_str(name.as_str(), "*") {
                    self.op_arith(ArithOp::Mul)
                } else if str_eq_str(name.as_str(), "/") {
                    self.op_arith(ArithOp::Div)
                } else if str_eq_str(name.as_str(), ">") {
                    self.op_cmp(CmpOp::Gt)
                } else if str_eq_str(name.as_str(), ">=") {
                    self.op_cmp(CmpOp::Ge)
                } else if str_eq_str(name.as_str(), "<") {
                    self.op_cmp(CmpOp::Lt)
                } else if str_eq_str(name.as_str(), "<=") {
                    self.op_cmp(CmpOp::Le)
                } else if str_eq_str(name.as_str(), "=") {
                    self.op_equal()
                } else if str_eq_str(name.as_str(), "DEF") {
                    self.op_def(None)
                } else if str_eq_str(name.as_str(), "DO") || str_eq_str(name.as_str(), "BEGIN") {
                    Err(EvalError::MisplacedControl(name.clone()))
                } else {
                    let mut found = false;
                    let mut builtin = false;
                    let mut body: Vec<Token> = Vec::new();
                    match self.dictionary.lookup(name.as_str()) {
                        Some(def) => {
                            found = true;
                            builtin = def.is_builtin;
                            if !def.is_builtin {
                                body = clone_tokens(&def.tokens);
                            }
                        },
                        None => {},
                    }
                    if !found {
                        return Err(EvalError::UnknownWord(name.clone()));
                    }
                    if builtin {
                        self.exec_builtin(name.as_str(), MAX_DEPTH)
                    } else {
                        self.execute_tokens(&body, (MAX_DEPTH - 1) as u32)
                    }
                }
            },
        }
    }
}

/// Read one entry of an info vector.
fn info_entry(v: &Vec<(String, Option<String>, bool)>, i: usize) -> (r: (
    String,
    Option<String>,
    bool,
))
    requires
        i < v@.len(),
    ensures
        r.0 == v@[i as int].0,
        r.1 == v@[i as int].1,
        r.2 == v@[i as int].2,
{
    let name = v[i].0.clone();
    let desc = match &v[i].1 {
        Some(d) => Some(d.clone()),
        None => None,
    };
    (name, desc, v[i].2)
}

/// A successful deletion keeps every builtin entry.
pub proof fn lemma_delete_keeps_builtins(m: Map<Seq<char>, EntryModel>, name: Seq<char>)
    requires
        builtins_inv(m),
        spec_delete(m, name) is Ok,
    ensures
        builtins_inv(spec_delete(m, name)->Ok_0),
{
    let m2 = spec_delete(m, name)->Ok_0;
    assert forall|k: Seq<char>| is_builtin_name(k) implies m2.dom().contains(k) && (
    #[trigger] m2[k]).builtin && m2[k].body == Seq::<TokModel>::empty() by {
        assert(m.dom().contains(k) && m[k].builtin);
        assert(k != name);
    }
}

/// A successful definition keeps every builtin entry.
pub proof fn lemma_define_keeps_builtins(
    m: Map<Seq<char>, EntryModel>,
    name: Seq<char>,
    body: Seq<ValModel>,
    desc: Option<Seq<char>>,
)
    requires
        builtins_inv(m),
        spec_define(m, name, body, desc) is Ok,
    ensures
        builtins_inv(spec_define(m, name, body, desc)->Ok_0),
{
    let m2 = spec_define(m, name, body, desc)->Ok_0;
    assert forall|k: Seq<char>| is_builtin_name(k) implies m2.dom().contains(k) && (
    #[trigger] m2[k]).builtin && m2[k].body == Seq::<TokModel>::empty() by {
        assert(m.dom().contains(k) && m[k].builtin);
        assert(k != name);
    }
}

} // verus!
