use vstd::prelude::*;
use crate::dict::{Dictionary, EntryModel};

verus! {

/// The names of every hard-coded word, operators included.
pub open spec fn is_builtin_name(s: Seq<char>) -> bool {
    ||| s == "DUP"@
    ||| s == "DROP"@
    ||| s == "SWAP"@
    ||| s == "OVER"@
    ||| s == "ROT"@
    ||| s == "NIP"@
    ||| s == ">R"@
    ||| s == "R>"@
    ||| s == "R@"@
    ||| s == "LENGTH"@
    ||| s == "HEAD"@
    ||| s == "TAIL"@
    ||| s == "CONS"@
    ||| s == "APPEND"@
    ||| s == "REVERSE"@
    ||| s == "NTH"@
    ||| s == "UNCONS"@
    ||| s == "EMPTY?"@
    ||| s == "MAP"@
    ||| s == "FOLD"@
    ||| s == "DEF"@
    ||| s == "IF"@
    ||| s == "WHEN"@
    ||| s == "UNLESS"@
    ||| s == "CASE"@
    ||| s == "DEL"@
    ||| s == "DO"@
    ||| s == "LOOP"@
    ||| s == "BEGIN"@
    ||| s == "AGAIN"@
    ||| s == "UNTIL"@
    ||| s == "WHILE"@
    ||| s == "REPEAT"@
    ||| s == "I"@
    ||| s == "J"@
    ||| s == "+"@
    ||| s == "-"@
    ||| s == "*"@
    ||| s == "/"@
    ||| s == ">"@
    ||| s == ">="@
    ||| s == "="@
    ||| s == "<"@
    ||| s == "<="@
    ||| s == "NOT"@
    ||| s == "."@
    ||| s == "PRINT"@
    ||| s == "CR"@
    ||| s == "SPACE"@
    ||| s == "SPACES"@
    ||| s == "EMIT"@
}

/// Every builtin name maps to a hard-coded entry with an empty body.
pub open spec fn builtins_inv(m: Map<Seq<char>, EntryModel>) -> bool {
    forall|k: Seq<char>| is_builtin_name(k) ==> m.dom().contains(k) && (#[trigger] m[k]).builtin
        && m[k].body == Seq::<crate::tokenizer::TokModel>::empty()
}

/// Install one builtin word; a name that is already present stays.
pub fn register_builtin(dictionary: &mut Dictionary, name: &str, description: &str)
    requires
        old(dictionary).wf(),
    ensures
        final(dictionary).wf(),
        final(dictionary).model() == if old(dictionary).model().dom().contains(name@) {
            old(dictionary).model()
        } else {
            old(dictionary).model().insert(
                name@,
                EntryModel {
                    body: Seq::empty(),
                    builtin: true,
                    desc: Some(description@),
                    dependents: Set::empty(),
                },
            )
        },
{
    dictionary.insert_builtin(name, description);
}

/// Entry stored for each builtin word.
pub open spec fn builtin_entry(desc: Seq<char>) -> EntryModel {
    EntryModel { body: Seq::empty(), builtin: true, desc: Some(desc), dependents: Set::empty() }
}

/// Install every hard-coded word into a fresh dictionary.
#[verifier::loop_isolation(false)]
#[verifier::rlimit(100)]
pub fn register_builtins(dictionary: &mut Dictionary)
    requires
        old(dictionary).wf(),
        old(dictionary).model() == Map::<Seq<char>, EntryModel>::empty(),
    ensures
        final(dictionary).wf(),
        forall|k: Seq<char>| final(dictionary).model().dom().contains(k) <==> is_builtin_name(k),
        builtins_inv(final(dictionary).model()),
        forall|k: Seq<char>| is_builtin_name(k) ==> (#[trigger] final(dictionary).model()[k]).dependents
            == Set::<Seq<char>>::empty() && final(dictionary).model()[k].desc is Some,
{
    let names: Vec<&str> = vec![
        "DUP", "DROP", "SWAP", "OVER", "ROT", "NIP", ">R", "R>", "R@", "LENGTH", "HEAD", "TAIL",
        "CONS", "APPEND", "REVERSE", "NTH", "UNCONS", "EMPTY?", "MAP", "FOLD", "DEF", "IF",
        "WHEN", "UNLESS", "CASE", "DEL", "DO", "LOOP", "BEGIN", "AGAIN", "UNTIL", "WHILE",
        "REPEAT", "I", "J", "+", "-", "*", "/", ">", ">=", "=", "<", "<=", "NOT", ".", "PRINT",
        "CR", "SPACE", "SPACES", "EMIT",
    ];
    let descs: Vec<&str> = vec![
        "duplicate the top item ( a -- a a )",
        "discard the top item ( a -- )",
        "exchange the top two items ( a b -- b a )",
        "copy the second item to the top ( a b -- a b a )",
        "rotate the third item to the top ( a b c -- b c a )",
        "discard the second item ( a b -- b )",
        "move the top item to the register ( a -- )",
        "move the register to the stack ( -- a )",
        "copy the register to the stack ( -- a )",
        "length of a vector ( vec -- n )",
        "first element of a vector ( vec -- elem )",
        "a vector without its first element ( vec -- vec' )",
        "prepend an element ( elem vec -- vec' )",
        "append an element ( vec elem -- vec' )",
        "reverse a vector ( vec -- vec' )",
        "element at an index, negative from the end ( n vec -- elem )",
        "split a vector into head and tail ( vec -- elem vec' )",
        "whether a vector is empty ( vec -- bool )",
        "reserved ( vec quot -- vec' )",
        "reserved ( vec init quot -- result )",
        "define a word ( vec str -- )",
        "two-branch conditional ( bool then else -- ... )",
        "run a quotation when true ( bool quot -- ... )",
        "run a quotation when false ( bool quot -- ... )",
        "multi-way conditional ( val pairs -- ... )",
        "delete a word ( str -- )",
        "start a counted loop ( start limit -- )",
        "conditional loop ( cond body -- ... )",
        "start an open loop ( -- )",
        "end of an unconditional loop",
        "end of a test-after loop ( bool -- )",
        "test of a test-before loop ( bool -- )",
        "end of a test-before loop",
        "innermost loop index ( -- n )",
        "next enclosing loop index ( -- n )",
        "addition ( a b -- a+b )",
        "subtraction ( a b -- a-b )",
        "multiplication ( a b -- a*b )",
        "division ( a b -- a/b )",
        "greater than ( a b -- bool )",
        "greater or equal ( a b -- bool )",
        "equality ( a b -- bool )",
        "less than ( a b -- bool )",
        "less or equal ( a b -- bool )",
        "logical negation ( bool -- bool )",
        "print and discard the top item ( a -- )",
        "print the top item ( a -- a )",
        "print a newline ( -- )",
        "print a space ( -- )",
        "print n spaces ( n -- )",
        "print a character by code ( n -- )",
    ];
    let ghost nms = names@;
    let mut i: usize = 0;
    while i < names.len()
        invariant
            i <= nms.len(),
            descs@.len() == nms.len(),
            dictionary.wf(),
            forall|j: int| 0 <= j < i ==> dictionary.model().dom().contains(#[trigger] nms[j]@)
                && dictionary.model()[nms[j]@].builtin && dictionary.model()[nms[j]@].body
                == Seq::<crate::tokenizer::TokModel>::empty() && dictionary.model()[
                nms[j]@].dependents == Set::<Seq<char>>::empty() && dictionary.model()[
                nms[j]@].desc is Some,
            forall|k: Seq<char>| dictionary.model().dom().contains(k) ==> exists|j: int|
                0 <= j < i && #[trigger] nms[j]@ == k,
        decreases nms.len() - i,
    {
        let ghost before = dictionary.model();
        register_builtin(dictionary, names[i], descs[i]);
        i += 1;
        proof {
            assert forall|k: Seq<char>| dictionary.model().dom().contains(k) implies exists|j: int|
                0 <= j < i && #[trigger] nms[j]@ == k by {
                if before.dom().contains(k) {
                } else {
                    assert(nms[i - 1]@ == k);
                }
            }
        }
    }
    proof {
        assert(nms =~= builtin_name_list());
        assert forall|k: Seq<char>| is_builtin_name(k) implies dictionary.model().dom().contains(
            k,
        ) && (#[trigger] dictionary.model()[k]).builtin && dictionary.model()[k].body
            == Seq::<crate::tokenizer::TokModel>::empty() && dictionary.model()[k].dependents
            == Set::<Seq<char>>::empty() && dictionary.model()[k].desc is Some by {
            builtin_index_witness(nms, k);
            let j = choose|j: int| 0 <= j < nms.len() && nms[j]@ == k;
            assert(dictionary.model().dom().contains(nms[j]@));
            assert(dictionary.model()[nms[j]@].builtin);
            assert(dictionary.model()[nms[j]@].dependents == Set::<Seq<char>>::empty());
        }
        assert forall|k: Seq<char>| dictionary.model().dom().contains(k) implies is_builtin_name(
            k,
        ) by {
            let j = choose|j: int| 0 <= j < nms.len() && nms[j]@ == k;
            lemma_name_is_builtin(nms, j);
        }
    }
}

/// Each listed builtin name satisfies `is_builtin_name`.
proof fn lemma_name_is_builtin(nms: Seq<&str>, j: int)
    requires
        nms == builtin_name_list(),
        0 <= j < nms.len(),
    ensures
        is_builtin_name(nms[j]@),
{
}

/// Every name accepted by `is_builtin_name` occurs in the list.
proof fn builtin_index_witness(nms: Seq<&str>, k: Seq<char>)
    requires
        nms == builtin_name_list(),
        is_builtin_name(k),
    ensures
        exists|j: int| 0 <= j < nms.len() && #[trigger] nms[j]@ == k,
{
    if k == "DUP"@ {
        assert(nms[0]@ == k);
    } else if k == "DROP"@ {
        assert(nms[1]@ == k);
    } else if k == "SWAP"@ {
        assert(nms[2]@ == k);
    } else if k == "OVER"@ {
        assert(nms[3]@ == k);
    } else if k == "ROT"@ {
        assert(nms[4]@ == k);
    } else if k == "NIP"@ {
        assert(nms[5]@ == k);
    } else if k == ">R"@ {
        assert(nms[6]@ == k);
    } else if k == "R>"@ {
        assert(nms[7]@ == k);
    } else if k == "R@"@ {
        assert(nms[8]@ == k);
    } else if k == "LENGTH"@ {
        assert(nms[9]@ == k);
    } else if k == "HEAD"@ {
        assert(nms[10]@ == k);
    } else if k == "TAIL"@ {
        assert(nms[11]@ == k);
    } else if k == "CONS"@ {
        assert(nms[12]@ == k);
    } else if k == "APPEND"@ {
        assert(nms[13]@ == k);
    } else if k == "REVERSE"@ {
        assert(nms[14]@ == k);
    } else if k == "NTH"@ {
        assert(nms[15]@ == k);
    } else if k == "UNCONS"@ {
        assert(nms[16]@ == k);
    } else if k == "EMPTY?"@ {
        assert(nms[17]@ == k);
    } else if k == "MAP"@ {
        assert(nms[18]@ == k);
    } else if k == "FOLD"@ {
        assert(nms[19]@ == k);
    } else if k == "DEF"@ {
        assert(nms[20]@ == k);
    } else if k == "IF"@ {
        assert(nms[21]@ == k);
    } else if k == "WHEN"@ {
        assert(nms[22]@ == k);
    } else if k == "UNLESS"@ {
        assert(nms[23]@ == k);
    } else if k == "CASE"@ {
        assert(nms[24]@ == k);
    } else if k == "DEL"@ {
        assert(nms[25]@ == k);
    } else if k == "DO"@ {
        assert(nms[26]@ == k);
    } else if k == "LOOP"@ {
        assert(nms[27]@ == k);
    } else if k == "BEGIN"@ {
        assert(nms[28]@ == k);
    } else if k == "AGAIN"@ {
        assert(nms[29]@ == k);
    } else if k == "UNTIL"@ {
        assert(nms[30]@ == k);
    } else if k == "WHILE"@ {
        assert(nms[31]@ == k);
    } else if k == "REPEAT"@ {
        assert(nms[32]@ == k);
    } else if k == "I"@ {
        assert(nms[33]@ == k);
    } else if k == "J"@ {
        assert(nms[34]@ == k);
    } else if k == "+"@ {
        assert(nms[35]@ == k);
    } else if k == "-"@ {
        assert(nms[36]@ == k);
    } else if k == "*"@ {
        assert(nms[37]@ == k);
    } else if k == "/"@ {
        assert(nms[38]@ == k);
    } else if k == ">"@ {
        assert(nms[39]@ == k);
    } else if k == ">="@ {
        assert(nms[40]@ == k);
    } else if k == "="@ {
        assert(nms[41]@ == k);
    } else if k == "<"@ {
        assert(nms[42]@ == k);
    } else if k == "<="@ {
        assert(nms[43]@ == k);
    } else if k == "NOT"@ {
        assert(nms[44]@ == k);
    } else if k == "."@ {
        assert(nms[45]@ == k);
    } else if k == "PRINT"@ {
        assert(nms[46]@ == k);
    } else if k == "CR"@ {
        assert(nms[47]@ == k);
    } else if k == "SPACE"@ {
        assert(nms[48]@ == k);
    } else if k == "SPACES"@ {
        assert(nms[49]@ == k);
    } else {
        assert(nms[50]@ == k);
    }
}

/// The builtin names, in registration order.
pub open spec fn builtin_name_list() -> Seq<&'static str> {
    seq![
        "DUP", "DROP", "SWAP", "OVER", "ROT", "NIP", ">R", "R>", "R@", "LENGTH", "HEAD", "TAIL",
        "CONS", "APPEND", "REVERSE", "NTH", "UNCONS", "EMPTY?", "MAP", "FOLD", "DEF", "IF",
        "WHEN", "UNLESS", "CASE", "DEL", "DO", "LOOP", "BEGIN", "AGAIN", "UNTIL", "WHILE",
        "REPEAT", "I", "J", "+", "-", "*", "/", ">", ">=", "=", "<", "<=", "NOT", ".", "PRINT",
        "CR", "SPACE", "SPACES", "EMIT",
    ]
}

} // verus!
