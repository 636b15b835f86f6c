use vstd::prelude::*;
use crate::text::{
    parse_i64_spec, parse_i64_chars, upper_seq, to_upper_chars, chars_to_string, str_eq_chars,
    str_to_chars,
};

verus! {

/// A lexical token of the source language.
#[derive(Debug)]
pub enum Token {
    Number(i64, i64),
    String(String),
    Boolean(bool),
    Symbol(String),
    VectorStart,
    VectorEnd,
    Nil,
    Description(String),
}

/// Mathematical model of a token.
#[verifier::ext_equal]
pub enum TokModel {
    Num { n: int, d: int },
    Str(Seq<char>),
    Bool(bool),
    Sym(Seq<char>),
    VecStart,
    VecEnd,
    Nil,
    Desc(Seq<char>),
}

impl Token {
    /// The mathematical model of this token.
    pub open spec fn model(self) -> TokModel {
        match self {
            Token::Number(n, d) => TokModel::Num { n: n as int, d: d as int },
            Token::String(s) => TokModel::Str(s@),
            Token::Boolean(b) => TokModel::Bool(b),
            Token::Symbol(s) => TokModel::Sym(s@),
            Token::VectorStart => TokModel::VecStart,
            Token::VectorEnd => TokModel::VecEnd,
            Token::Nil => TokModel::Nil,
            Token::Description(s) => TokModel::Desc(s@),
        }
    }
}

/// Model of a token sequence, element by element.
pub open spec fn toks_model(s: Seq<Token>) -> Seq<TokModel>
    decreases s,
{
    if s.len() == 0 {
        Seq::empty()
    } else {
        toks_model(s.drop_last()).push(s.last().model())
    }
}

/// `toks_model` maps the sequence pointwise.
pub proof fn lemma_toks_model(s: Seq<Token>)
    ensures
        toks_model(s).len() == s.len(),
        forall|i: int| 0 <= i < s.len() ==> toks_model(s)[i] == s[i].model(),
    decreases s,
{
    if s.len() > 0 {
        lemma_toks_model(s.drop_last());
    }
}

/// The reason a source text was rejected by the tokenizer.
#[derive(Debug)]
pub enum ParseReason {
    /// A word containing `.` that is not a well-formed decimal literal.
    InvalidNumber(String),
    /// A word containing `/` that is not a well-formed fraction literal.
    InvalidFraction(String),
    /// A fraction literal with a zero denominator.
    ZeroDenominator(String),
    /// A string literal with no closing quote.
    UnterminatedString,
}

/// Mathematical model of a parse failure.
#[verifier::ext_equal]
pub enum PErrModel {
    BadNumber(Seq<char>),
    BadFraction(Seq<char>),
    ZeroDen(Seq<char>),
    UnterminatedStr,
}

impl ParseReason {
    /// The mathematical model of this failure.
    pub open spec fn model(self) -> PErrModel {
        match self {
            ParseReason::InvalidNumber(w) => PErrModel::BadNumber(w@),
            ParseReason::InvalidFraction(w) => PErrModel::BadFraction(w@),
            ParseReason::ZeroDenominator(w) => PErrModel::ZeroDen(w@),
            ParseReason::UnterminatedString => PErrModel::UnterminatedStr,
        }
    }
}

/// Separator characters: the Unicode white-space characters.
pub open spec fn is_space(c: char) -> bool {
    ||| c == '\t'
    ||| c == '\n'
    ||| c == '\u{000B}'
    ||| c == '\u{000C}'
    ||| c == '\r'
    ||| c == ' '
    ||| c == '\u{0085}'
    ||| c == '\u{00A0}'
    ||| c == '\u{1680}'
    ||| ('\u{2000}' <= c && c <= '\u{200A}')
    ||| c == '\u{2028}'
    ||| c == '\u{2029}'
    ||| c == '\u{202F}'
    ||| c == '\u{205F}'
    ||| c == '\u{3000}'
}

/// Characters that end a bare word.
pub open spec fn is_delim(c: char) -> bool {
    is_space(c) || c == '(' || c == '[' || c == ']' || c == '"' || c == '#'
}

/// Number of characters from `i` up to (not including) the first `c`, or up to
/// the end of the input.
pub open spec fn count_to_char(s: Seq<char>, i: int, c: char) -> nat
    decreases s.len() - i,
{
    if i < 0 || i >= s.len() {
        0
    } else if s[i] == c {
        0
    } else {
        1 + count_to_char(s, i + 1, c)
    }
}

/// Number of characters from `i` up to (not including) the first delimiter.
pub open spec fn count_to_delim(s: Seq<char>, i: int) -> nat
    decreases s.len() - i,
{
    if i < 0 || i >= s.len() {
        0
    } else if is_delim(s[i]) {
        0
    } else {
        1 + count_to_delim(s, i + 1)
    }
}

/// Leading separator characters starting at `i`.
pub open spec fn count_spaces(s: Seq<char>, i: int) -> nat
    decreases s.len() - i,
{
    if i < 0 || i >= s.len() {
        0
    } else if is_space(s[i]) {
        1 + count_spaces(s, i + 1)
    } else {
        0
    }
}

/// Trailing separator characters below position `j`.
pub open spec fn count_spaces_back(s: Seq<char>, j: int) -> nat
    decreases j,
{
    if j <= 0 || j > s.len() {
        0
    } else if is_space(s[j - 1]) {
        1 + count_spaces_back(s, j - 1)
    } else {
        0
    }
}

/// Separator characters removed from both ends.
pub open spec fn trim_spec(s: Seq<char>) -> Seq<char> {
    let a = count_spaces(s, 0) as int;
    let b = s.len() - count_spaces_back(s, s.len() as int);
    if a < b {
        s.subrange(a, b)
    } else {
        Seq::empty()
    }
}

/// Scan a string literal body starting at `i` (just after the opening quote).
/// A backslash makes the following character literal. Returns the contents and
/// the number of characters consumed, closing quote included; `None` when the
/// input ends before the closing quote.
pub open spec fn scan_str(s: Seq<char>, i: int) -> Option<(Seq<char>, nat)>
    decreases s.len() - i,
{
    if i < 0 || i >= s.len() {
        None
    } else if s[i] == '\\' {
        if i + 1 >= s.len() {
            None
        } else {
            match scan_str(s, i + 2) {
                Some((c, k)) => Some((seq![s[i + 1]] + c, k + 2)),
                None => None,
            }
        }
    } else if s[i] == '"' {
        Some((Seq::empty(), 1))
    } else {
        match scan_str(s, i + 1) {
            Some((c, k)) => Some((seq![s[i]] + c, k + 1)),
            None => None,
        }
    }
}

/// Whether `c` occurs in `s`.
pub open spec fn has_char(s: Seq<char>, c: char) -> bool {
    count_to_char(s, 0, c) < s.len()
}

/// Powers of ten.
pub open spec fn pow10(k: nat) -> nat
    decreases k,
{
    if k == 0 {
        1
    } else {
        10 * pow10((k - 1) as nat)
    }
}

/// Classify a word containing a period as a decimal literal
/// `whole.fractional`, read as `whole * 10^places + fractional` over
/// `10^places`; any malformed or overflowing form is rejected.
pub open spec fn classify_decimal(w: Seq<char>) -> Result<TokModel, PErrModel> {
    let k = count_to_char(w, 0, '.') as int;
    let a = w.subrange(0, k);
    let b = w.subrange(k + 1, w.len() as int);
    if has_char(b, '.') {
        Err(PErrModel::BadNumber(w))
    } else {
        let ip = if a.len() == 0 {
            Some(0i64)
        } else {
            parse_i64_spec(a)
        };
        let dp = if b.len() == 0 {
            Some(0i64)
        } else {
            parse_i64_spec(b)
        };
        if ip is Some && dp is Some {
            let den = pow10(b.len()) as int;
            let num = ip->0 * den + dp->0;
            if den <= i64::MAX && i64::MIN <= num <= i64::MAX {
                Ok(TokModel::Num { n: num, d: den })
            } else {
                Err(PErrModel::BadNumber(w))
            }
        } else {
            Err(PErrModel::BadNumber(w))
        }
    }
}

/// Classify a word containing a slash as a fraction literal.
pub open spec fn classify_fraction(w: Seq<char>) -> Result<TokModel, PErrModel> {
    let k = count_to_char(w, 0, '/') as int;
    let a = w.subrange(0, k);
    let b = w.subrange(k + 1, w.len() as int);
    if has_char(b, '/') {
        Err(PErrModel::BadFraction(w))
    } else if parse_i64_spec(a) is Some && parse_i64_spec(b) is Some {
        if parse_i64_spec(b)->0 == 0 {
            Err(PErrModel::ZeroDen(w))
        } else {
            Ok(TokModel::Num { n: parse_i64_spec(a)->0 as int, d: parse_i64_spec(b)->0 as int })
        }
    } else {
        Err(PErrModel::BadFraction(w))
    }
}

/// Classify a bare word, in priority order: integer, the solitary operator
/// characters, decimal, fraction, boolean, nil (case-insensitive), and
/// otherwise an uppercased symbol.
pub open spec fn classify_word(w: Seq<char>) -> Result<TokModel, PErrModel> {
    if parse_i64_spec(w) is Some {
        Ok(TokModel::Num { n: parse_i64_spec(w)->0 as int, d: 1 })
    } else if w.len() == 1 && (w[0] == '.' || w[0] == '/') {
        Ok(TokModel::Sym(w))
    } else if has_char(w, '.') {
        classify_decimal(w)
    } else if has_char(w, '/') {
        classify_fraction(w)
    } else if w == "true"@ {
        Ok(TokModel::Bool(true))
    } else if w == "false"@ {
        Ok(TokModel::Bool(false))
    } else if upper_seq(w) == "NIL"@ {
        Ok(TokModel::Nil)
    } else {
        Ok(TokModel::Sym(upper_seq(w)))
    }
}

/// The token stream of the input from position `i` on: one separator,
/// comment, description, string, bracket or word per step.
pub open spec fn spec_tok(s: Seq<char>, i: int) -> Result<Seq<TokModel>, PErrModel>
    decreases s.len() - i,
{
    if i < 0 || i >= s.len() {
        Ok(Seq::empty())
    } else {
        let c = s[i];
        if is_space(c) {
            spec_tok(s, i + 1)
        } else if c == '#' {
            let cnt = count_to_char(s, i + 1, '\n') as int;
            let next = if i + 1 + cnt + 1 <= s.len() {
                i + 1 + cnt + 1
            } else {
                s.len() as int
            };
            spec_tok(s, next)
        } else if c == '(' {
            let cnt = count_to_char(s, i + 1, ')') as int;
            let body = s.subrange(i + 1, i + 1 + cnt);
            let next = if i + 1 + cnt + 1 <= s.len() {
                i + 1 + cnt + 1
            } else {
                s.len() as int
            };
            ok_prepend(TokModel::Desc(trim_spec(body)), spec_tok(s, next))
        } else if c == '"' {
            match scan_str(s, i + 1) {
                Some((body, k)) => {
                    let next = if i + 1 + k <= s.len() {
                        i + 1 + k
                    } else {
                        s.len() as int
                    };
                    ok_prepend(TokModel::Str(body), spec_tok(s, next))
                },
                None => Err(PErrModel::UnterminatedStr),
            }
        } else if c == '[' {
            ok_prepend(TokModel::VecStart, spec_tok(s, i + 1))
        } else if c == ']' {
            ok_prepend(TokModel::VecEnd, spec_tok(s, i + 1))
        } else {
            let cnt = count_to_delim(s, i) as int;
            let w = s.subrange(i, i + cnt);
            let next = if cnt > 0 && i + cnt <= s.len() {
                i + cnt
            } else {
                s.len() as int
            };
            match classify_word(w) {
                Ok(t) => ok_prepend(t, spec_tok(s, next)),
                Err(e) => Err(e),
            }
        }
    }
}

/// Prepend a token to a tokenizing result.
pub open spec fn ok_prepend(t: TokModel, r: Result<Seq<TokModel>, PErrModel>) -> Result<
    Seq<TokModel>,
    PErrModel,
> {
    match r {
        Ok(ts) => Ok(seq![t] + ts),
        Err(e) => Err(e),
    }
}

/// Append an already-produced prefix to a tokenizing result.
pub open spec fn ok_concat(prefix: Seq<TokModel>, r: Result<Seq<TokModel>, PErrModel>) -> Result<
    Seq<TokModel>,
    PErrModel,
> {
    match r {
        Ok(ts) => Ok(prefix + ts),
        Err(e) => Err(e),
    }
}

/// The token stream of a whole source text.
pub open spec fn spec_tokenize(s: Seq<char>) -> Result<Seq<TokModel>, PErrModel> {
    spec_tok(s, 0)
}

/// Position and range facts about `count_to_char`.
pub proof fn lemma_count_to_char(s: Seq<char>, i: int, c: char)
    requires
        0 <= i <= s.len(),
    ensures
        i + count_to_char(s, i, c) <= s.len(),
        i + count_to_char(s, i, c) < s.len() ==> s[i + count_to_char(s, i, c)] == c,
        forall|j: int| i <= j < i + count_to_char(s, i, c) ==> s[j] != c,
    decreases s.len() - i,
{
    if i < s.len() && s[i] != c {
        lemma_count_to_char(s, i + 1, c);
    }
}

/// Position and range facts about `count_to_delim`.
pub proof fn lemma_count_to_delim(s: Seq<char>, i: int)
    requires
        0 <= i <= s.len(),
    ensures
        i + count_to_delim(s, i) <= s.len(),
        i + count_to_delim(s, i) < s.len() ==> is_delim(s[i + count_to_delim(s, i)]),
        forall|j: int| i <= j < i + count_to_delim(s, i) ==> !is_delim(s[j]),
    decreases s.len() - i,
{
    if i < s.len() && !is_delim(s[i]) {
        lemma_count_to_delim(s, i + 1);
    }
}

/// Whether a character is a white-space separator.
pub fn is_space_exec(c: char) -> (r: bool)
    ensures
        r == is_space(c),
{
    c == '\t' || c == '\n' || c == '\u{000B}' || c == '\u{000C}' || c == '\r' || c == ' '
        || c == '\u{0085}' || c == '\u{00A0}' || c == '\u{1680}' || ('\u{2000}' <= c
        && c <= '\u{200A}') || c == '\u{2028}' || c == '\u{2029}' || c == '\u{202F}'
        || c == '\u{205F}' || c == '\u{3000}'
}

/// First position at or after `i` holding `c`, or the input length.
#[verifier::loop_isolation(false)]
fn find_char_pos(s: &Vec<char>, i: usize, c: char) -> (j: usize)
    requires
        i <= s@.len(),
    ensures
        j == i + count_to_char(s@, i as int, c),
        i <= j <= s@.len(),
        j < s@.len() ==> s@[j as int] == c,
{
    proof {
        lemma_count_to_char(s@, i as int, c);
    }
    let mut j = i;
    while j < s.len()
        invariant
            i <= j <= s@.len(),
            count_to_char(s@, i as int, c) == (j - i) + count_to_char(s@, j as int, c),
            forall|k: int| i <= k < j ==> s@[k] != c,
        decreases s@.len() - j,
    {
        if s[j] == c {
            return j;
        }
        j += 1;
    }
    j
}

/// First position at or after `i` holding a delimiter, or the input length.
#[verifier::loop_isolation(false)]
fn find_delim_pos(s: &Vec<char>, i: usize) -> (j: usize)
    requires
        i <= s@.len(),
    ensures
        j == i + count_to_delim(s@, i as int),
        i <= j <= s@.len(),
        j < s@.len() ==> is_delim(s@[j as int]),
{
    proof {
        lemma_count_to_delim(s@, i as int);
    }
    let mut j = i;
    while j < s.len()
        invariant
            i <= j <= s@.len(),
            count_to_delim(s@, i as int) == (j - i) + count_to_delim(s@, j as int),
            forall|k: int| i <= k < j ==> !is_delim(s@[k]),
        decreases s@.len() - j,
    {
        let c = s[j];
        if is_space_exec(c) || c == '(' || c == '[' || c == ']' || c == '"' || c == '#' {
            return j;
        }
        j += 1;
    }
    j
}

/// Copy a range of the input.
#[verifier::loop_isolation(false)]
fn subrange_vec(s: &Vec<char>, from: usize, to: usize) -> (r: Vec<char>)
    requires
        from <= to <= s@.len(),
    ensures
        r@ == s@.subrange(from as int, to as int),
{
    let mut out: Vec<char> = Vec::new();
    let mut i = from;
    while i < to
        invariant
            from <= i <= to,
            out@ =~= s@.subrange(from as int, i as int),
        decreases to - i,
    {
        out.push(s[i]);
        i += 1;
        proof {
            assert(out@ =~= s@.subrange(from as int, i as int));
        }
    }
    out
}

/// Remove separators from both ends of a word.
#[verifier::loop_isolation(false)]
fn trim_chars(s: &Vec<char>) -> (r: Vec<char>)
    ensures
        r@ == trim_spec(s@),
{
    let n = s.len();
    let mut a: usize = 0;
    while a < n && is_space_exec(s[a])
        invariant
            a <= n,
            n == s@.len(),
            count_spaces(s@, 0) == a + count_spaces(s@, a as int),
        decreases n - a,
    {
        a += 1;
    }
    proof {
        assert(count_spaces(s@, 0) == a);
    }
    let mut b: usize = n;
    while b > 0 && is_space_exec(s[b - 1])
        invariant
            b <= n,
            n == s@.len(),
            count_spaces_back(s@, n as int) == (n - b) + count_spaces_back(s@, b as int),
        decreases b,
    {
        b -= 1;
    }
    proof {
        assert(count_spaces_back(s@, n as int) == n - b);
    }
    if a < b {
        subrange_vec(s, a, b)
    } else {
        let out: Vec<char> = Vec::new();
        proof {
            assert(out@ =~= trim_spec(s@));
        }
        out
    }
}

/// Scan a string literal body, mirroring `scan_str`.
fn scan_str_exec(s: &Vec<char>, i: usize) -> (r: Option<(Vec<char>, usize)>)
    requires
        i <= s@.len(),
    ensures
        match r {
            Some((body, k)) => scan_str(s@, i as int) matches Some((sb, sk)) && body@ == sb && k
                == sk && i + k <= s@.len(),
            None => scan_str(s@, i as int) is None,
        },
    decreases s@.len() - i,
{
    if i >= s.len() {
        return None;
    }
    let c = s[i];
    if c == '\\' {
        if i + 1 >= s.len() {
            return None;
        }
        match scan_str_exec(s, i + 2) {
            Some((rest, k)) => {
                let mut body: Vec<char> = Vec::new();
                body.push(s[i + 1]);
                let mut rest = rest;
                body.append(&mut rest);
                proof {
                    assert(body@ =~= seq![s@[i + 1]] + (scan_str(s@, i + 2)->0).0);
                }
                Some((body, k + 2))
            },
            None => None,
        }
    } else if c == '"' {
        let body: Vec<char> = Vec::new();
        proof {
            assert(body@ =~= Seq::<char>::empty());
        }
        Some((body, 1))
    } else {
        match scan_str_exec(s, i + 1) {
            Some((rest, k)) => {
                let mut body: Vec<char> = Vec::new();
                body.push(c);
                let mut rest = rest;
                body.append(&mut rest);
                proof {
                    assert(body@ =~= seq![s@[i as int]] + (scan_str(s@, i + 1)->0).0);
                }
                Some((body, k + 1))
            },
            None => None,
        }
    }
}

/// Compute `10^places` when it fits in an `i64`.
#[verifier::loop_isolation(false)]
fn pow10_i64(places: usize) -> (r: Option<i64>)
    ensures
        match r {
            Some(v) => v as nat == pow10(places as nat) && v >= 1,
            None => pow10(places as nat) > i64::MAX,
        },
{
    let mut p: usize = 0;
    let mut acc: i64 = 1;
    while p < places
        invariant
            p <= places,
            1 <= acc,
            acc as nat == pow10(p as nat),
        decreases places - p,
    {
        if acc > 922_337_203_685_477_580 {
            proof {
                lemma_pow10_mono(p as nat + 1, places as nat);
                assert(pow10(p as nat + 1) == 10 * pow10(p as nat));
            }
            return None;
        }
        acc = acc * 10;
        p += 1;
    }
    Some(acc)
}

/// Powers of ten are monotone in the exponent.
proof fn lemma_pow10_mono(a: nat, b: nat)
    requires
        a <= b,
    ensures
        pow10(a) <= pow10(b),
    decreases b,
{
    if a < b {
        lemma_pow10_mono(a, (b - 1) as nat);
        assert(pow10(b) == 10 * pow10((b - 1) as nat));
        assert(10 * pow10((b - 1) as nat) >= pow10((b - 1) as nat)) by (nonlinear_arith);
    }
}

/// Classify the word `s[from..to]`, mirroring `classify_word`.
#[verifier::loop_isolation(false)]
fn classify_word_exec(s: &Vec<char>, from: usize, to: usize) -> (r: Result<Token, ParseReason>)
    requires
        from <= to <= s@.len(),
    ensures
        match r {
            Ok(t) => classify_word(s@.subrange(from as int, to as int)) == Ok::<
                TokModel,
                PErrModel,
            >(t.model()),
            Err(e) => classify_word(s@.subrange(from as int, to as int)) == Err::<
                TokModel,
                PErrModel,
            >(e.model()),
        },
{
    let ghost w = s@.subrange(from as int, to as int);
    let wv = subrange_vec(s, from, to);
    if let Some(v) = parse_i64_chars(s, from, to) {
        return Ok(Token::Number(v, 1));
    }
    if wv.len() == 1 && (wv[0] == '.' || wv[0] == '/') {
        let sym = chars_to_string(&wv);
        return Ok(Token::Symbol(sym));
    }
    let dot = find_char_pos(&wv, 0, '.');
    if dot < wv.len() {
        proof {
            assert(has_char(w, '.'));
        }
        return classify_decimal_exec(&wv);
    }
    proof {
        assert(!has_char(w, '.'));
    }
    let slash = find_char_pos(&wv, 0, '/');
    if slash < wv.len() {
        proof {
            assert(has_char(w, '/'));
        }
        return classify_fraction_exec(&wv);
    }
    proof {
        assert(!has_char(w, '/'));
    }
    if str_eq_chars("true", &wv) {
        return Ok(Token::Boolean(true));
    }
    if str_eq_chars("false", &wv) {
        return Ok(Token::Boolean(false));
    }
    let upper = to_upper_chars(&wv);
    if str_eq_chars("NIL", &upper) {
        return Ok(Token::Nil);
    }
    Ok(Token::Symbol(chars_to_string(&upper)))
}

/// Classify a decimal word, mirroring `classify_decimal`.
#[verifier::loop_isolation(false)]
fn classify_decimal_exec(wv: &Vec<char>) -> (r: Result<Token, ParseReason>)
    requires
        has_char(wv@, '.'),
    ensures
        match r {
            Ok(t) => classify_decimal(wv@) == Ok::<TokModel, PErrModel>(t.model()),
            Err(e) => classify_decimal(wv@) == Err::<TokModel, PErrModel>(e.model()),
        },
{
    let n = wv.len();
    let k = find_char_pos(wv, 0, '.');
    proof {
        lemma_count_to_char(wv@, 0, '.');
        assert(k < n);
    }
    let b = subrange_vec(wv, k + 1, n);
    let bdot = find_char_pos(&b, 0, '.');
    if bdot < b.len() {
        proof {
            assert(has_char(b@, '.'));
        }
        return Err(ParseReason::InvalidNumber(chars_to_string(wv)));
    }
    proof {
        assert(!has_char(b@, '.'));
    }
    let ip: Option<i64> = if k == 0 {
        Some(0)
    } else {
        parse_i64_chars(wv, 0, k)
    };
    let dp: Option<i64> = if b.len() == 0 {
        Some(0)
    } else {
        parse_i64_chars(wv, k + 1, wv.len())
    };
    proof {
        assert(wv@.subrange(0, k as int).len() == 0 <==> k == 0);
        assert(wv@.subrange(k + 1, wv@.len() as int) == b@);
    }
    match (ip, dp) {
        (Some(iv), Some(dv)) => {
            let den = match pow10_i64(b.len()) {
                Some(d) => d,
                None => {
                    return Err(ParseReason::InvalidNumber(chars_to_string(wv)));
                },
            };
            proof {
                assert((iv as int) * (den as int) <= 0x4000_0000_0000_0000_0000_0000_0000_0000
                    && (iv as int) * (den as int)
                    >= -0x4000_0000_0000_0000_0000_0000_0000_0000) by (nonlinear_arith)
                    requires
                        -0x8000_0000_0000_0000 <= iv as int <= 0x7fff_ffff_ffff_ffff,
                        1 <= den as int <= 0x7fff_ffff_ffff_ffff,
                ;
            }
            let num128: i128 = (iv as i128) * (den as i128) + (dv as i128);
            if num128 > 0x7fff_ffff_ffff_ffff_i128 || num128 < -0x8000_0000_0000_0000_i128 {
                return Err(ParseReason::InvalidNumber(chars_to_string(wv)));
            }
            Ok(Token::Number(num128 as i64, den))
        },
        _ => Err(ParseReason::InvalidNumber(chars_to_string(wv))),
    }
}

/// Classify a fraction word, mirroring `classify_fraction`.
#[verifier::loop_isolation(false)]
fn classify_fraction_exec(wv: &Vec<char>) -> (r: Result<Token, ParseReason>)
    requires
        has_char(wv@, '/'),
    ensures
        match r {
            Ok(t) => classify_fraction(wv@) == Ok::<TokModel, PErrModel>(t.model()),
            Err(e) => classify_fraction(wv@) == Err::<TokModel, PErrModel>(e.model()),
        },
{
    let n = wv.len();
    let k = find_char_pos(wv, 0, '/');
    proof {
        lemma_count_to_char(wv@, 0, '/');
        assert(k < n);
    }
    let b = subrange_vec(wv, k + 1, n);
    let bslash = find_char_pos(&b, 0, '/');
    if bslash < b.len() {
        proof {
            assert(has_char(b@, '/'));
        }
        return Err(ParseReason::InvalidFraction(chars_to_string(wv)));
    }
    proof {
        assert(!has_char(b@, '/'));
        assert(wv@.subrange(k + 1, wv@.len() as int) == b@);
    }
    let pn = parse_i64_chars(wv, 0, k);
    let pd = parse_i64_chars(wv, k + 1, wv.len());
    match (pn, pd) {
        (Some(n), Some(d)) => {
            if d == 0 {
                Err(ParseReason::ZeroDenominator(chars_to_string(wv)))
            } else {
                Ok(Token::Number(n, d))
            }
        },
        _ => Err(ParseReason::InvalidFraction(chars_to_string(wv))),
    }
}

/// Convert source text into tokens: separators are skipped, `#` starts a
/// line comment, `(...)` is a description annotation, `"..."` a string with
/// backslash escapes, brackets are vector delimiters, and bare words are
/// classified as numbers, booleans, nil or symbols.
#[verifier::loop_isolation(false)]
pub fn tokenize(input: &str) -> (r: Result<Vec<Token>, ParseReason>)
    ensures
        match r {
            Ok(toks) => spec_tokenize(input@) == Ok::<Seq<TokModel>, PErrModel>(
                toks_model(toks@),
            ),
            Err(e) => spec_tokenize(input@) == Err::<Seq<TokModel>, PErrModel>(e.model()),
        },
{
    let s = str_to_chars(input);
    let n = s.len();
    let mut toks: Vec<Token> = Vec::new();
    let mut i: usize = 0;
    while i < n
        invariant
            n == s@.len(),
            i <= n,
            s@ == input@,
            spec_tok(s@, 0) == ok_concat(toks_model(toks@), spec_tok(s@, i as int)),
        decreases n - i,
    {
        let ghost prev = i as int;
        let ghost prev_vec = toks@;
        let ghost prev_toks = toks_model(toks@);
        let c = s[i];
        if is_space_exec(c) {
            i += 1;
            proof {
                assert(spec_tok(s@, prev) == spec_tok(s@, i as int));
            }
        } else if c == '#' {
            let j = find_char_pos(&s, i + 1, '\n');
            i = if j < n {
                j + 1
            } else {
                n
            };
            proof {
                assert(spec_tok(s@, prev) == spec_tok(s@, i as int));
            }
        } else if c == '(' {
            let j = find_char_pos(&s, i + 1, ')');
            let body = subrange_vec(&s, i + 1, j);
            let trimmed = trim_chars(&body);
            let tok = Token::Description(chars_to_string(&trimmed));
            let ghost delta = seq![tok.model()];
            toks.push(tok);
            i = if j < n {
                j + 1
            } else {
                n
            };
            proof {
                lemma_model_push(prev_vec, toks@, toks@.last());
                assert(toks_model(toks@) == prev_toks + delta);
                assert(spec_tok(s@, prev) == ok_concat(delta, spec_tok(s@, i as int)));
                lemma_ok_concat_chain(prev_toks, delta, spec_tok(s@, i as int));
            }
        } else if c == '"' {
            match scan_str_exec(&s, i + 1) {
                Some((body, k)) => {
                    let tok = Token::String(chars_to_string(&body));
                    let ghost delta = seq![tok.model()];
                    toks.push(tok);
                    i = i + 1 + k;
                    proof {
                        lemma_model_push(prev_vec, toks@, toks@.last());
                        assert(toks_model(toks@) == prev_toks + delta);
                        assert(spec_tok(s@, prev) == ok_concat(delta, spec_tok(s@, i as int)));
                        lemma_ok_concat_chain(prev_toks, delta, spec_tok(s@, i as int));
                    }
                },
                None => {
                    proof {
                        assert(spec_tok(s@, prev) == Err::<Seq<TokModel>, PErrModel>(
                            PErrModel::UnterminatedStr,
                        ));
                    }
                    return Err(ParseReason::UnterminatedString);
                },
            }
        } else if c == '[' {
            let ghost delta = seq![TokModel::VecStart];
            toks.push(Token::VectorStart);
            i += 1;
            proof {
                lemma_model_push(prev_vec, toks@, toks@.last());
                assert(toks_model(toks@) == prev_toks + delta);
                assert(spec_tok(s@, prev) == ok_concat(delta, spec_tok(s@, i as int)));
                lemma_ok_concat_chain(prev_toks, delta, spec_tok(s@, i as int));
            }
        } else if c == ']' {
            let ghost delta = seq![TokModel::VecEnd];
            toks.push(Token::VectorEnd);
            i += 1;
            proof {
                lemma_model_push(prev_vec, toks@, toks@.last());
                assert(toks_model(toks@) == prev_toks + delta);
                assert(spec_tok(s@, prev) == ok_concat(delta, spec_tok(s@, i as int)));
                lemma_ok_concat_chain(prev_toks, delta, spec_tok(s@, i as int));
            }
        } else {
            let j = find_delim_pos(&s, i);
            proof {
                assert(!is_delim(s@[i as int]));
                assert(count_to_delim(s@, i as int) == 1 + count_to_delim(s@, i + 1));
                assert(j > i);
            }
            match classify_word_exec(&s, i, j) {
                Ok(t) => {
                    let ghost delta = seq![t.model()];
                    toks.push(t);
                    i = j;
                    proof {
                        lemma_model_push(prev_vec, toks@, toks@.last());
                        assert(toks_model(toks@) == prev_toks + delta);
                        assert(spec_tok(s@, prev) == ok_concat(delta, spec_tok(s@, i as int)));
                        lemma_ok_concat_chain(prev_toks, delta, spec_tok(s@, i as int));
                    }
                },
                Err(e) => {
                    proof {
                        assert(spec_tok(s@, prev) == Err::<Seq<TokModel>, PErrModel>(e.model()));
                    }
                    return Err(e);
                },
            }
        }
    }
    proof {
        assert(toks_model(toks@) + Seq::<TokModel>::empty() =~= toks_model(toks@));
    }
    Ok(toks)
}

/// Pushing one token onto the output extends the model by one element.
proof fn lemma_model_push(prev: Seq<Token>, cur: Seq<Token>, t: Token)
    requires
        cur == prev.push(t),
    ensures
        toks_model(cur) == toks_model(prev) + seq![t.model()],
{
    assert(cur.drop_last() =~= prev);
    assert(cur.last() == t);
    assert(toks_model(prev).push(t.model()) =~= toks_model(prev) + seq![t.model()]);
}

/// Splitting a produced prefix off a tokenizing result.
proof fn lemma_ok_concat_chain(
    prefix: Seq<TokModel>,
    delta: Seq<TokModel>,
    r: Result<Seq<TokModel>, PErrModel>,
)
    ensures
        ok_concat(prefix, ok_concat(delta, r)) == ok_concat(prefix + delta, r),
{
    match r {
        Ok(ts) => {
            assert(prefix + (delta + ts) =~= (prefix + delta) + ts);
        },
        Err(_) => {},
    }
}

} // verus!
