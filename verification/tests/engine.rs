use ajisai::errors::EvalError;
use ajisai::interp::Interpreter;
use ajisai::value::{Value, ValueType, value_eq};

fn stack_of(it: &Interpreter) -> &Vec<Value> {
    it.get_stack()
}

fn number_at(it: &Interpreter, idx: usize) -> (i64, i64) {
    match &stack_of(it)[idx].val_type {
        ValueType::Number(f) => (f.numerator(), f.denominator()),
        other => panic!("expected a number, found {:?}", other),
    }
}

#[test]
fn fresh_engine_is_empty() {
    let it = Interpreter::new();
    assert_eq!(stack_of(&it).len(), 0);
    assert!(it.get_register().is_none());
    assert!(it.get_custom_words().is_empty());
    assert!(it.get_step_info().is_none());
}

#[test]
fn dup_duplicates_the_top() {
    let mut it = Interpreter::new();
    it.execute("5 DUP").unwrap();
    assert_eq!(stack_of(&it).len(), 2);
    assert_eq!(number_at(&it, 0), (5, 1));
    assert_eq!(number_at(&it, 1), (5, 1));
}

#[test]
fn swap_exchanges_the_top_two() {
    let mut it = Interpreter::new();
    it.execute("1 2 SWAP").unwrap();
    assert_eq!(number_at(&it, 0), (2, 1));
    assert_eq!(number_at(&it, 1), (1, 1));
}

#[test]
fn shuffle_words_underflow_on_short_stacks() {
    for code in ["DUP", "DROP", "SWAP", "OVER", "ROT", "NIP"] {
        let mut it = Interpreter::new();
        let err = it.execute(code).unwrap_err();
        assert!(matches!(err, EvalError::StackUnderflow), "{code}: {err:?}");
    }
    let mut it = Interpreter::new();
    it.execute("1").unwrap();
    let err = it.execute("SWAP").unwrap_err();
    assert!(matches!(err, EvalError::StackUnderflow));
}

#[test]
fn over_rot_nip_shuffle() {
    let mut it = Interpreter::new();
    it.execute("1 2 OVER").unwrap();
    assert_eq!(number_at(&it, 2), (1, 1));
    let mut it = Interpreter::new();
    it.execute("1 2 3 ROT").unwrap();
    assert_eq!(number_at(&it, 0), (2, 1));
    assert_eq!(number_at(&it, 1), (3, 1));
    assert_eq!(number_at(&it, 2), (1, 1));
    let mut it = Interpreter::new();
    it.execute("1 2 NIP").unwrap();
    assert_eq!(stack_of(&it).len(), 1);
    assert_eq!(number_at(&it, 0), (2, 1));
}

#[test]
fn register_roundtrip() {
    let mut it = Interpreter::new();
    it.execute("7 >R").unwrap();
    assert_eq!(stack_of(&it).len(), 0);
    it.execute("R@").unwrap();
    assert_eq!(number_at(&it, 0), (7, 1));
    it.execute("R>").unwrap();
    assert_eq!(stack_of(&it).len(), 2);
    let err = it.execute("R>").unwrap_err();
    assert!(matches!(err, EvalError::RegisterEmpty));
}

#[test]
fn broadcasting_scalar_over_vector() {
    let mut it = Interpreter::new();
    it.execute("[ 1 2 3 ] 10 + .").unwrap();
    assert_eq!(it.get_output(), "[ 11 12 13 ] ");
}

#[test]
fn elementwise_vector_addition() {
    let mut it = Interpreter::new();
    it.execute("[ 1 2 ] [ 3 4 ] + .").unwrap();
    assert_eq!(it.get_output(), "[ 4 6 ] ");
}

#[test]
fn mismatched_vector_lengths_fail() {
    let mut it = Interpreter::new();
    let err = it.execute("[ 1 2 ] [ 3 4 5 ] +").unwrap_err();
    assert!(matches!(err, EvalError::LengthMismatch));
}

#[test]
fn scalar_broadcast_keeps_non_numbers() {
    let mut it = Interpreter::new();
    it.execute("[ 1 \"x\" 3 ] 1 + .").unwrap();
    assert_eq!(it.get_output(), "[ 2 \"x\" 4 ] ");
}

#[test]
fn comparison_broadcast_gives_booleans() {
    let mut it = Interpreter::new();
    it.execute("[ 1 5 3 ] 2 > .").unwrap();
    assert_eq!(it.get_output(), "[ false true true ] ");
}

#[test]
fn equality_is_structural_across_kinds() {
    let mut it = Interpreter::new();
    it.execute("1 \"1\" = .").unwrap();
    assert_eq!(it.get_output(), "false ");
    it.execute("[ 1 2 ] [ 1 2 ] = .").unwrap();
    assert_eq!(it.get_output(), "true ");
    it.execute("2/4 1/2 = .").unwrap();
    assert_eq!(it.get_output(), "true ");
}

#[test]
fn division_by_zero_is_reported() {
    let mut it = Interpreter::new();
    let err = it.execute("1 0 /").unwrap_err();
    assert!(matches!(err, EvalError::DivisionByZero));
}

#[test]
fn quotation_stays_inert_data() {
    let mut it = Interpreter::new();
    it.execute("[ 1 DUP + ]").unwrap();
    let stack = stack_of(&it);
    assert_eq!(stack.len(), 1);
    match &stack[0].val_type {
        ValueType::Vector(items) => {
            assert_eq!(items.len(), 3);
            assert!(matches!(&items[0].val_type, ValueType::Number(_)));
            match &items[1].val_type {
                ValueType::Symbol(s) => assert_eq!(s, "DUP"),
                other => panic!("expected a symbol, found {:?}", other),
            }
            match &items[2].val_type {
                ValueType::Symbol(s) => assert_eq!(s, "+"),
                other => panic!("expected a symbol, found {:?}", other),
            }
        },
        other => panic!("expected a vector, found {:?}", other),
    }
}

#[test]
fn if_runs_only_the_selected_branch() {
    let mut it = Interpreter::new();
    it.execute("true [ 1 ] [ MISSING ] IF").unwrap();
    assert_eq!(number_at(&it, 0), (1, 1));
    let mut it = Interpreter::new();
    it.execute("false [ MISSING ] [ 2 ] IF").unwrap();
    assert_eq!(number_at(&it, 0), (2, 1));
}

#[test]
fn when_and_unless() {
    let mut it = Interpreter::new();
    it.execute("true [ 1 ] WHEN false [ 2 ] WHEN false [ 3 ] UNLESS").unwrap();
    assert_eq!(stack_of(&it).len(), 2);
    assert_eq!(number_at(&it, 0), (1, 1));
    assert_eq!(number_at(&it, 1), (3, 1));
}

#[test]
fn case_selects_the_first_match() {
    let mut it = Interpreter::new();
    it.execute("2 [ [ [ 1 = ] [ \"one\" ] ] [ [ 2 = ] [ \"two\" ] ] ] CASE .").unwrap();
    assert_eq!(it.get_output(), "\"two\" ");
}

#[test]
fn case_without_match_keeps_the_value() {
    let mut it = Interpreter::new();
    it.execute("9 [ [ [ 1 = ] [ \"one\" ] ] ] CASE").unwrap();
    assert_eq!(number_at(&it, 0), (9, 1));
}

#[test]
fn negative_indexing() {
    let mut it = Interpreter::new();
    it.execute("[ 10 20 30 ] -1 NTH").unwrap();
    assert_eq!(number_at(&it, 0), (30, 1));
}

#[test]
fn index_out_of_bounds() {
    let mut it = Interpreter::new();
    let err = it.execute("[ 10 20 30 ] 3 NTH").unwrap_err();
    assert!(matches!(err, EvalError::IndexOutOfBounds { index: 3, length: 3 }));
}

#[test]
fn vector_words() {
    let mut it = Interpreter::new();
    it.execute("[ 1 2 3 ] LENGTH").unwrap();
    assert_eq!(number_at(&it, 0), (3, 1));
    it.execute("[ 7 8 ] HEAD").unwrap();
    assert_eq!(number_at(&it, 1), (7, 1));
    it.execute("[ 7 8 9 ] TAIL .").unwrap();
    assert_eq!(it.get_output(), "[ 8 9 ] ");
    it.execute("0 [ 1 2 ] CONS .").unwrap();
    assert_eq!(it.get_output(), "[ 0 1 2 ] ");
    it.execute("[ 1 2 ] 3 APPEND .").unwrap();
    assert_eq!(it.get_output(), "[ 1 2 3 ] ");
    it.execute("[ 1 2 3 ] REVERSE .").unwrap();
    assert_eq!(it.get_output(), "[ 3 2 1 ] ");
    it.execute("[ 4 5 6 ] UNCONS . .").unwrap();
    assert_eq!(it.get_output(), "[ 5 6 ] 4 ");
    it.execute("[ ] EMPTY? .").unwrap();
    assert_eq!(it.get_output(), "true ");
    let err = it.execute("[ ] HEAD").unwrap_err();
    assert!(matches!(err, EvalError::IndexOutOfBounds { .. }));
    let err = it.execute("5 LENGTH").unwrap_err();
    assert!(matches!(err, EvalError::TypeError { .. }));
}

#[test]
fn counted_loop_prints_indices() {
    let mut it = Interpreter::new();
    it.execute("0 3 DO I . LOOP").unwrap();
    assert_eq!(it.get_output(), "0 1 2 ");
}

#[test]
fn nested_counted_loops_expose_outer_index() {
    let mut it = Interpreter::new();
    it.execute("0 2 DO 0 2 DO J . LOOP LOOP").unwrap();
    assert_eq!(it.get_output(), "0 0 1 1 ");
}

#[test]
fn begin_until_loops() {
    let mut it = Interpreter::new();
    it.execute("3 BEGIN DUP . 1 - DUP 0 = UNTIL DROP").unwrap();
    assert_eq!(it.get_output(), "3 2 1 ");
}

#[test]
fn begin_while_repeat_loops() {
    let mut it = Interpreter::new();
    it.execute("0 BEGIN DUP 3 < WHILE DUP . 1 + REPEAT DROP").unwrap();
    assert_eq!(it.get_output(), "0 1 2 ");
}

#[test]
fn begin_again_hits_the_cap() {
    let mut it = Interpreter::new();
    let err = it.execute("BEGIN 1 DROP AGAIN").unwrap_err();
    assert!(matches!(err, EvalError::LoopLimitExceeded));
}

#[test]
fn conditional_loop_word() {
    let mut it = Interpreter::new();
    it.execute("0 [ DUP 3 < ] [ DUP . 1 + ] LOOP DROP").unwrap();
    assert_eq!(it.get_output(), "0 1 2 ");
}

#[test]
fn unknown_word_is_reported_by_name() {
    let mut it = Interpreter::new();
    match it.execute("NOSUCH").unwrap_err() {
        EvalError::UnknownWord(name) => assert_eq!(name, "NOSUCH"),
        other => panic!("expected an unknown-word failure, found {:?}", other),
    }
}

#[test]
fn output_words() {
    let mut it = Interpreter::new();
    it.execute("1 PRINT CR SPACE 3 SPACES 65 EMIT").unwrap();
    assert_eq!(it.get_output(), "1 \n    A");
    assert_eq!(stack_of(&it).len(), 1);
    let err = it.execute("200 EMIT").unwrap_err();
    assert!(matches!(err, EvalError::TypeError { .. }));
}

#[test]
fn not_negates_and_broadcasts() {
    let mut it = Interpreter::new();
    it.execute("true NOT .").unwrap();
    assert_eq!(it.get_output(), "false ");
    it.execute("[ true false 1 ] NOT .").unwrap();
    assert_eq!(it.get_output(), "[ false true 1 ] ");
}

#[test]
fn display_roundtrip_reproduces_the_value() {
    let mut it = Interpreter::new();
    it.execute("[ 1 2/3 true nil \"hi\" [ 4 ] ]").unwrap();
    let original = &it.get_stack()[0];
    let mut text: Vec<char> = Vec::new();
    ajisai::value::push_value_text(original, &mut text);
    let code: String = text.iter().collect();
    let mut it2 = Interpreter::new();
    it2.execute(&code).unwrap();
    assert_eq!(it2.get_stack().len(), 1);
    assert!(value_eq(&it.get_stack()[0], &it2.get_stack()[0]));
}

#[test]
fn step_execution_walks_tokens_one_by_one() {
    let mut it = Interpreter::new();
    it.init_step_execution("1 2 +").unwrap();
    assert_eq!(it.get_step_info(), Some((0, 3)));
    assert!(it.execute_step().unwrap());
    assert!(it.execute_step().unwrap());
    assert!(!it.execute_step().unwrap());
    assert_eq!(number_at(&it, 0), (3, 1));
}

#[test]
fn reserved_builtins_without_handlers_are_reported() {
    let mut it = Interpreter::new();
    let err = it.execute("MAP").unwrap_err();
    assert!(matches!(err, EvalError::UnknownBuiltin(_)));
}

#[test]
fn bare_loop_markers_are_misplaced() {
    let mut it = Interpreter::new();
    let err = it.execute("AGAIN").unwrap_err();
    assert!(matches!(err, EvalError::MisplacedControl(_)));
}

#[test]
fn integer_overflow_is_a_typed_failure() {
    let mut it = Interpreter::new();
    let err = it.execute("9223372036854775807 1 +").unwrap_err();
    assert!(matches!(err, EvalError::NumericOverflow));
}
