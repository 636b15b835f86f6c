use vstd::prelude::*;
use crate::tokenizer::{
    TokModel, PErrModel, spec_tok, spec_tokenize, count_to_delim, count_to_char, is_delim,
    classify_word, classify_fraction, has_char, ok_prepend,
};
use crate::text::{
    int_text, dec_digits, parse_i64_spec, sign_skip, all_digits, is_digit, is_neg,
    lemma_digits_roundtrip, lemma_dec_digits_shape,
};
use crate::value::{vm_text, frac_text, ValModel};
use crate::fraction::{gcd, abs_val, red_num, red_den, frac_fits, lemma_red_vals};

verus! {

/// The datum a single literal token denotes when read back as data.
pub open spec fn tok_reads_back(t: TokModel) -> Option<ValModel> {
    match t {
        TokModel::Num { n, d } => if d != 0 && frac_fits(n, d) {
            Some(ValModel::Num { n: red_num(n, d), d: red_den(n, d) })
        } else {
            None
        },
        TokModel::Str(s) => Some(ValModel::Str(s)),
        TokModel::Bool(b) => Some(ValModel::Bool(b)),
        TokModel::Nil => Some(ValModel::Nil),
        _ => None,
    }
}

/// Over a run with no delimiter, the word scan reaches the end.
proof fn lemma_count_delim_all(s: Seq<char>, i: int)
    requires
        0 <= i <= s.len(),
        forall|j: int| i <= j < s.len() ==> !is_delim(s[j]),
    ensures
        count_to_delim(s, i) == s.len() - i,
    decreases s.len() - i,
{
    if i < s.len() {
        lemma_count_delim_all(s, i + 1);
    }
}

/// A character that does not occur is never found.
proof fn lemma_count_char_absent(s: Seq<char>, i: int, c: char)
    requires
        0 <= i <= s.len(),
        forall|j: int| i <= j < s.len() ==> s[j] != c,
    ensures
        count_to_char(s, i, c) == s.len() - i,
    decreases s.len() - i,
{
    if i < s.len() {
        lemma_count_char_absent(s, i + 1, c);
    }
}

/// The first occurrence of a character is found at its position.
proof fn lemma_count_char_at(s: Seq<char>, i: int, m: int, c: char)
    requires
        0 <= i <= m < s.len(),
        forall|j: int| i <= j < m ==> s[j] != c,
        s[m] == c,
    ensures
        count_to_char(s, i, c) == m - i,
    decreases m - i,
{
    if i < m {
        lemma_count_char_at(s, i + 1, m, c);
    }
}

/// The decimal text of an integer holds only digits after an optional
/// leading minus sign; in particular no delimiter, period or slash.
proof fn lemma_int_text_chars(n: int)
    ensures
        int_text(n).len() >= 1,
        forall|j: int| 0 <= j < int_text(n).len() ==> (is_digit(#[trigger] int_text(n)[j])
            || int_text(n)[j] == '-'),
        forall|j: int| 1 <= j < int_text(n).len() ==> is_digit(#[trigger] int_text(n)[j]),
        is_digit(int_text(n)[0]) <==> n >= 0,
{
    if n < 0 {
        lemma_dec_digits_shape((-n) as nat);
        assert(int_text(n) == seq!['-'] + dec_digits((-n) as nat));
        assert(int_text(n)[0] == '-');
        assert(forall|j: int| 1 <= j < int_text(n).len() ==> int_text(n)[j] == dec_digits(
            (-n) as nat,
        )[j - 1]);
        assert(!is_digit('-'));
    } else {
        lemma_dec_digits_shape(n as nat);
    }
}

/// Digits and the minus sign are not delimiters, periods or slashes.
proof fn lemma_plain_char_facts(c: char)
    requires
        is_digit(c) || c == '-',
    ensures
        !is_delim(c),
        c != '.',
        c != '/',
        c != '"',
{
}

/// Reading back the decimal text of a machine integer gives the integer.
proof fn lemma_parse_int_text(n: int)
    requires
        i64::MIN <= n <= i64::MAX,
    ensures
        parse_i64_spec(int_text(n)) == Some(n as i64),
{
    let s = int_text(n);
    lemma_int_text_chars(n);
    if n < 0 {
        assert(s == seq!['-'] + dec_digits((-n) as nat));
        assert(s[0] == '-');
        assert(sign_skip(s) =~= dec_digits((-n) as nat));
        lemma_dec_digits_shape((-n) as nat);
        lemma_digits_roundtrip((-n) as nat);
        assert(all_digits(sign_skip(s)));
        assert(is_neg(s));
        assert(crate::text::digits_val(sign_skip(s)) == -n);
        assert(-n <= 0x8000_0000_0000_0000);
        assert((-(crate::text::digits_val(sign_skip(s)) as int)) as i64 == n as i64);
    } else {
        assert(s == dec_digits(n as nat));
        lemma_dec_digits_shape(n as nat);
        assert(is_digit(s[0]));
        assert(s[0] != '-' && s[0] != '+');
        assert(sign_skip(s) == s);
        lemma_digits_roundtrip(n as nat);
        assert(all_digits(sign_skip(s)));
        assert(!is_neg(s));
        assert(crate::text::digits_val(s) == n);
        assert(n <= 0x7fff_ffff_ffff_ffff);
    }
}

/// A reduced pair stays itself under reduction.
proof fn lemma_red_of_reduced(n: int, d: int)
    requires
        1 <= d,
        gcd(abs_val(n) as nat, d as nat) == 1,
        i64::MIN <= n <= i64::MAX,
        d <= i64::MAX,
    ensures
        frac_fits(n, d),
        red_num(n, d) == n,
        red_den(n, d) == d,
{
    lemma_red_vals(n, d);
    assert(crate::fraction::red_g(n, d) == 1);
    assert(crate::fraction::norm_n(n, d) == n);
    assert(red_num(n, d) == n / 1int);
    assert(n / 1int == n) by {
        vstd::arithmetic::div_mod::lemma_div_multiples_vanish(n, 1int);
    }
    assert(abs_val(d) == d);
    assert(red_den(n, d) == d / 1int);
    assert(d / 1int == d) by {
        vstd::arithmetic::div_mod::lemma_div_multiples_vanish(d, 1int);
    }
}

/// Tokenizing the decimal text of a whole number yields that number token.
proof fn lemma_tokenize_int(n: int)
    requires
        i64::MIN <= n <= i64::MAX,
    ensures
        spec_tokenize(int_text(n)) == Ok::<Seq<TokModel>, PErrModel>(
            seq![TokModel::Num { n: n, d: 1 }],
        ),
{
    let s = int_text(n);
    lemma_int_text_chars(n);
    assert forall|j: int| 0 <= j < s.len() implies !is_delim(#[trigger] s[j]) by {
        lemma_plain_char_facts(s[j]);
    }
    assert(!is_delim(s[0]));
    assert(s[0] != '#' && s[0] != '(' && s[0] != '"' && s[0] != '[' && s[0] != ']');
    assert(!crate::tokenizer::is_space(s[0]));
    lemma_count_delim_all(s, 0);
    assert(count_to_delim(s, 0) == s.len());
    let w = s.subrange(0, s.len() as int);
    assert(w =~= s);
    lemma_parse_int_text(n);
    assert(classify_word(w) == Ok::<TokModel, PErrModel>(TokModel::Num { n: n, d: 1 }));
    assert(spec_tok(s, s.len() as int) == Ok::<Seq<TokModel>, PErrModel>(Seq::empty()));
    assert(spec_tok(s, 0) == ok_prepend(
        TokModel::Num { n: n, d: 1 },
        spec_tok(s, s.len() as int),
    ));
    assert(seq![TokModel::Num { n: n, d: 1 }] + Seq::<TokModel>::empty() =~= seq![
        TokModel::Num { n: n, d: 1 },
    ]);
}

/// Tokenizing the text `numerator/denominator` yields that fraction token.
proof fn lemma_tokenize_fraction(n: int, d: int)
    requires
        i64::MIN <= n <= i64::MAX,
        2 <= d <= i64::MAX,
    ensures
        spec_tokenize(frac_text(n, d)) == Ok::<Seq<TokModel>, PErrModel>(
            seq![TokModel::Num { n: n, d: d }],
        ),
{
    let a = int_text(n);
    let b = int_text(d);
    let s = a + seq!['/'] + b;
    assert(frac_text(n, d) == s);
    lemma_int_text_chars(n);
    lemma_int_text_chars(d);
    let k = a.len() as int;
    assert(s[k] == '/');
    assert forall|j: int| 0 <= j < s.len() implies !is_delim(#[trigger] s[j]) && s[j] != '.' by {
        if j < k {
            assert(s[j] == a[j]);
            lemma_plain_char_facts(a[j]);
        } else if j > k {
            assert(s[j] == b[j - k - 1]);
            lemma_plain_char_facts(b[j - k - 1]);
        }
    }
    assert(!crate::tokenizer::is_space(s[0]));
    assert(s[0] != '#' && s[0] != '(' && s[0] != '"' && s[0] != '[' && s[0] != ']');
    lemma_count_delim_all(s, 0);
    let w = s.subrange(0, s.len() as int);
    assert(w =~= s);
    // the whole word does not parse as an integer: the digit part holds '/'
    assert(parse_i64_spec(s) is None) by {
        if s[0] == '-' || s[0] == '+' {
            assert(sign_skip(s) == s.skip(1));
            assert(s.skip(1)[k - 1] == '/');
            assert(!is_digit('/'));
            assert(!all_digits(sign_skip(s)));
        } else {
            assert(sign_skip(s) == s);
            assert(!is_digit(s[k]));
            assert(!all_digits(sign_skip(s)));
        }
    }
    assert(s.len() >= 3);
    assert(!has_char(s, '.')) by {
        lemma_count_char_absent(s, 0, '.');
    }
    assert(has_char(s, '/')) by {
        assert forall|j: int| 0 <= j < k implies s[j] != '/' by {
            assert(s[j] == a[j]);
            lemma_plain_char_facts(a[j]);
        }
        lemma_count_char_at(s, 0, k, '/');
    }
    // the fraction classifier splits at the slash
    assert(classify_fraction(s) == Ok::<TokModel, PErrModel>(TokModel::Num { n: n, d: d })) by {
        assert forall|j: int| 0 <= j < k implies s[j] != '/' by {
            assert(s[j] == a[j]);
            lemma_plain_char_facts(a[j]);
        }
        lemma_count_char_at(s, 0, k, '/');
        assert(s.subrange(0, k) =~= a);
        assert(s.subrange(k + 1, s.len() as int) =~= b);
        assert(!has_char(b, '/')) by {
            assert forall|j: int| 0 <= j < b.len() implies b[j] != '/' by {
                lemma_plain_char_facts(b[j]);
            }
            lemma_count_char_absent(b, 0, '/');
        }
        lemma_parse_int_text(n);
        lemma_parse_int_text(d);
    }
    assert(classify_word(w) == Ok::<TokModel, PErrModel>(TokModel::Num { n: n, d: d }));
    assert(spec_tok(s, s.len() as int) == Ok::<Seq<TokModel>, PErrModel>(Seq::empty()));
    assert(spec_tok(s, 0) == ok_prepend(
        TokModel::Num { n: n, d: d },
        spec_tok(s, s.len() as int),
    ));
    assert(seq![TokModel::Num { n: n, d: d }] + Seq::<TokModel>::empty() =~= seq![
        TokModel::Num { n: n, d: d },
    ]);
}

/// Printing a number in lowest terms and tokenizing the text reads the same
/// number back: the scalar half of the display round trip.
pub proof fn lemma_number_roundtrip(n: int, d: int)
    requires
        i64::MIN <= n <= i64::MAX,
        1 <= d <= i64::MAX,
        gcd(abs_val(n) as nat, d as nat) == 1,
    ensures
        spec_tokenize(vm_text(ValModel::Num { n: n, d: d })) matches Ok(ts) && ts.len() == 1
            && tok_reads_back(ts[0]) == Some(ValModel::Num { n: n, d: d }),
{
    lemma_red_of_reduced(n, d);
    if d == 1 {
        lemma_tokenize_int(n);
    } else {
        lemma_tokenize_fraction(n, d);
    }
}


/// Tokenizing the printed form of a boolean reads the boolean back.
pub proof fn lemma_bool_roundtrip(b: bool)
    ensures
        spec_tokenize(vm_text(ValModel::Bool(b))) matches Ok(ts) && ts.len() == 1
            && tok_reads_back(ts[0]) == Some(ValModel::Bool(b)),
{
    reveal_strlit("true");
    reveal_strlit("false");
    let s = vm_text(ValModel::Bool(b));
    assert forall|j: int| 0 <= j < s.len() implies !is_delim(#[trigger] s[j]) by {
    }
    lemma_count_delim_all(s, 0);
    let w = s.subrange(0, s.len() as int);
    assert(w =~= s);
    assert(parse_i64_spec(s) is None) by {
        assert(sign_skip(s) == s);
        assert(!is_digit(s[0]));
        assert(!all_digits(sign_skip(s)));
    }
    assert(!has_char(s, '.')) by {
        lemma_count_char_absent(s, 0, '.');
    }
    assert(!has_char(s, '/')) by {
        lemma_count_char_absent(s, 0, '/');
    }
    assert(classify_word(w) == Ok::<TokModel, PErrModel>(TokModel::Bool(b)));
    assert(spec_tok(s, s.len() as int) == Ok::<Seq<TokModel>, PErrModel>(Seq::empty()));
    assert(seq![TokModel::Bool(b)] + Seq::<TokModel>::empty() =~= seq![TokModel::Bool(b)]);
}

/// Tokenizing the printed form of nil reads nil back: `nil` is recognized
/// case-insensitively.
pub proof fn lemma_nil_roundtrip()
    ensures
        spec_tokenize(vm_text(ValModel::Nil)) matches Ok(ts) && ts.len() == 1 && tok_reads_back(
            ts[0],
        ) == Some(ValModel::Nil),
{
    reveal_strlit("nil");
    reveal_strlit("NIL");
    reveal_strlit("true");
    reveal_strlit("false");
    let s = vm_text(ValModel::Nil);
    assert(s == "nil"@);
    assert forall|j: int| 0 <= j < s.len() implies !is_delim(#[trigger] s[j]) by {
    }
    lemma_count_delim_all(s, 0);
    let w = s.subrange(0, s.len() as int);
    assert(w =~= s);
    assert(parse_i64_spec(s) is None) by {
        assert(sign_skip(s) == s);
        assert(!is_digit(s[0]));
        assert(!all_digits(sign_skip(s)));
    }
    assert(!has_char(s, '.')) by {
        lemma_count_char_absent(s, 0, '.');
    }
    assert(!has_char(s, '/')) by {
        lemma_count_char_absent(s, 0, '/');
    }
    assert(s != "true"@ && s != "false"@);
    assert(crate::text::upper_seq(s) =~= "NIL"@);
    assert(classify_word(w) == Ok::<TokModel, PErrModel>(TokModel::Nil));
    assert(spec_tok(s, s.len() as int) == Ok::<Seq<TokModel>, PErrModel>(Seq::empty()));
    assert(seq![TokModel::Nil] + Seq::<TokModel>::empty() =~= seq![TokModel::Nil]);
}

/// Scanning a quoted body with no quote or backslash inside finds exactly
/// that body and stops at the closing quote.
proof fn lemma_scan_plain(w: Seq<char>, i: int, m: int)
    requires
        0 <= i <= m < w.len(),
        forall|j: int| i <= j < m ==> w[j] != '"' && w[j] != '\\',
        w[m] == '"',
    ensures
        crate::tokenizer::scan_str(w, i) == Some((w.subrange(i, m), (m + 1 - i) as nat)),
    decreases m - i,
{
    if i == m {
        assert(w.subrange(i, m) =~= Seq::<char>::empty());
    } else {
        lemma_scan_plain(w, i + 1, m);
        assert(seq![w[i]] + w.subrange(i + 1, m) =~= w.subrange(i, m));
    }
}

/// Tokenizing the printed form of a string with no quote or backslash in it
/// reads the string back.
pub proof fn lemma_string_roundtrip(t: Seq<char>)
    requires
        forall|j: int| 0 <= j < t.len() ==> t[j] != '"' && t[j] != '\\',
    ensures
        spec_tokenize(vm_text(ValModel::Str(t))) matches Ok(ts) && ts.len() == 1
            && tok_reads_back(ts[0]) == Some(ValModel::Str(t)),
{
    let s = vm_text(ValModel::Str(t));
    assert(s == seq!['"'] + t + seq!['"']);
    assert(s[0] == '"');
    let m = s.len() - 1;
    assert(s[m as int] == '"');
    assert forall|j: int| 1 <= j < m implies s[j] != '"' && s[j] != '\\' by {
        assert(s[j] == t[j - 1]);
    }
    lemma_scan_plain(s, 1, m as int);
    assert(s.subrange(1, m as int) =~= t);
    assert(crate::tokenizer::scan_str(s, 1) == Some((t, (m as int - 1 + 1) as nat)));
    assert(spec_tok(s, s.len() as int) == Ok::<Seq<TokModel>, PErrModel>(Seq::empty()));
    assert(spec_tok(s, 0) == ok_prepend(TokModel::Str(t), spec_tok(s, s.len() as int)));
    assert(seq![TokModel::Str(t)] + Seq::<TokModel>::empty() =~= seq![TokModel::Str(t)]);
}


/// The display round trip through the engine, for scalar data: tokenizing
/// the printed form of a number in lowest terms, a boolean, nil, or a string
/// free of quotes and backslashes yields a one-token stream whose data run
/// pushes exactly that datum. Together with the data-run clause of
/// `Interpreter::execute`, executing the printed form reproduces the value.
pub proof fn lemma_scalar_data_roundtrip(v: ValModel)
    requires
        v is Num || v is Bool || v is Nil || v is Str,
        (v matches ValModel::Num { n, d } ==> i64::MIN <= n <= i64::MAX && 1 <= d <= i64::MAX
            && gcd(abs_val(n) as nat, d as nat) == 1),
        (v matches ValModel::Str(t) ==> forall|j: int|
            0 <= j < t.len() ==> t[j] != '"' && t[j] != '\\'),
    ensures
        spec_tokenize(vm_text(v)) matches Ok(ts) && crate::interp::spec_data_run(ts, 0) == Some(
            seq![v],
        ),
{
    match v {
        ValModel::Num { n, d } => {
            lemma_red_of_reduced(n, d);
            if d == 1 {
                lemma_tokenize_int(n);
            } else {
                lemma_tokenize_fraction(n, d);
            }
            let ts = spec_tokenize(vm_text(v))->Ok_0;
            assert(ts == seq![TokModel::Num { n: n, d: d }]);
            assert(crate::interp::spec_data_run(ts, 1) == Some(Seq::<ValModel>::empty()));
            assert(seq![v] + Seq::<ValModel>::empty() =~= seq![v]);
        },
        ValModel::Bool(b) => {
            lemma_bool_roundtrip(b);
            let ts = spec_tokenize(vm_text(v))->Ok_0;
            assert(ts == seq![TokModel::Bool(b)]);
            assert(crate::interp::spec_data_run(ts, 1) == Some(Seq::<ValModel>::empty()));
            assert(seq![v] + Seq::<ValModel>::empty() =~= seq![v]);
        },
        ValModel::Nil => {
            lemma_nil_roundtrip();
            let ts = spec_tokenize(vm_text(v))->Ok_0;
            assert(ts == seq![TokModel::Nil]);
            assert(crate::interp::spec_data_run(ts, 1) == Some(Seq::<ValModel>::empty()));
            assert(seq![v] + Seq::<ValModel>::empty() =~= seq![v]);
        },
        ValModel::Str(t) => {
            lemma_string_roundtrip(t);
            let ts = spec_tokenize(vm_text(v))->Ok_0;
            assert(ts == seq![TokModel::Str(t)]);
            assert(crate::interp::spec_data_run(ts, 1) == Some(Seq::<ValModel>::empty()));
            assert(seq![v] + Seq::<ValModel>::empty() =~= seq![v]);
        },
        _ => {},
    }
}

} // verus!
