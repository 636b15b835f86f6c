use vstd::prelude::*;

verus! {

/// ASCII decimal digit.
pub open spec fn is_digit(c: char) -> bool {
    '0' <= c && c <= '9'
}

/// Numeric value of a decimal digit character.
pub open spec fn digit_val(c: char) -> nat {
    (c as nat - '0' as nat) as nat
}

/// The decimal digit character for a value below ten.
pub open spec fn digit_char(d: nat) -> char {
    if d == 0 {
        '0'
    } else if d == 1 {
        '1'
    } else if d == 2 {
        '2'
    } else if d == 3 {
        '3'
    } else if d == 4 {
        '4'
    } else if d == 5 {
        '5'
    } else if d == 6 {
        '6'
    } else if d == 7 {
        '7'
    } else if d == 8 {
        '8'
    } else {
        '9'
    }
}

/// Decimal representation of a natural number, most significant digit first.
pub open spec fn dec_digits(n: nat) -> Seq<char>
    decreases n,
{
    if n < 10 {
        seq![digit_char(n)]
    } else {
        dec_digits(n / 10).push(digit_char(n % 10))
    }
}

/// Decimal representation of an integer, with a leading minus sign when
/// negative.
pub open spec fn int_text(n: int) -> Seq<char> {
    if n < 0 {
        seq!['-'] + dec_digits((-n) as nat)
    } else {
        dec_digits(n as nat)
    }
}

/// Every character printed for a natural number is a digit, and the first one
/// is nonzero unless the number itself is zero.
pub proof fn lemma_dec_digits_shape(n: nat)
    ensures
        dec_digits(n).len() >= 1,
        forall|i: int| 0 <= i < dec_digits(n).len() ==> is_digit(#[trigger] dec_digits(n)[i]),
        dec_digits(n)[0] == '0' <==> n == 0,
    decreases n,
{
    if n < 10 {
        assert(is_digit(digit_char(n)));
    } else {
        lemma_dec_digits_shape(n / 10);
        assert(is_digit(digit_char(n % 10)));
        assert(n / 10 > 0);
    }
}

/// Value of a digit string, most significant digit first.
pub open spec fn digits_val(s: Seq<char>) -> nat
    decreases s,
{
    if s.len() == 0 {
        0
    } else {
        digits_val(s.drop_last()) * 10 + digit_val(s.last())
    }
}

/// Printing then reading a natural number gives the number back.
pub proof fn lemma_digits_roundtrip(n: nat)
    ensures
        digits_val(dec_digits(n)) == n,
    decreases n,
{
    if n < 10 {
        assert(dec_digits(n) =~= seq![digit_char(n)]);
        assert(dec_digits(n).drop_last() =~= Seq::<char>::empty());
        assert(digits_val(Seq::<char>::empty()) == 0);
        assert(dec_digits(n).last() == digit_char(n));
        assert(digit_val(digit_char(n)) == n);
        assert(digits_val(dec_digits(n)) == digits_val(dec_digits(n).drop_last()) * 10 + digit_val(
            dec_digits(n).last(),
        ));
    } else {
        lemma_digits_roundtrip(n / 10);
        let s = dec_digits(n / 10).push(digit_char(n % 10));
        assert(s.drop_last() =~= dec_digits(n / 10));
        assert(s.last() == digit_char(n % 10));
        assert(digit_val(digit_char(n % 10)) == n % 10);
        assert(digits_val(s) == (n / 10) * 10 + n % 10);
        assert((n / 10) * 10 + n % 10 == n) by {
            vstd::arithmetic::div_mod::lemma_fundamental_div_mod(n as int, 10);
        }
    }
}

/// The digit part of a numeric literal: everything after an optional sign.
pub open spec fn sign_skip(s: Seq<char>) -> Seq<char> {
    if s.len() > 0 && (s[0] == '-' || s[0] == '+') {
        s.skip(1)
    } else {
        s
    }
}

/// Whether a numeric literal carries a minus sign.
pub open spec fn is_neg(s: Seq<char>) -> bool {
    s.len() > 0 && s[0] == '-'
}

/// Every character is a decimal digit.
pub open spec fn all_digits(s: Seq<char>) -> bool {
    forall|i: int| 0 <= i < s.len() ==> is_digit(s[i])
}

/// Mirror of `str::parse::<i64>`: an optional sign, then at least one digit,
/// all digits, and a value inside the `i64` range.
pub open spec fn parse_i64_spec(s: Seq<char>) -> Option<i64> {
    if sign_skip(s).len() == 0 || !all_digits(sign_skip(s)) {
        None
    } else if is_neg(s) {
        if digits_val(sign_skip(s)) <= 0x8000_0000_0000_0000 {
            Some((-(digits_val(sign_skip(s)) as int)) as i64)
        } else {
            None
        }
    } else {
        if digits_val(sign_skip(s)) <= 0x7fff_ffff_ffff_ffff {
            Some(digits_val(sign_skip(s)) as i64)
        } else {
            None
        }
    }
}

/// A digit-string value only grows when more digits follow.
pub proof fn lemma_digits_val_prefix(s: Seq<char>, i: int)
    requires
        0 <= i < s.len(),
    ensures
        digits_val(s.take(i + 1)) == digits_val(s.take(i)) * 10 + digit_val(s[i]),
        digits_val(s) >= digits_val(s.take(i + 1)),
    decreases s.len() - i,
{
    assert(s.take(i + 1).drop_last() =~= s.take(i));
    assert(s.take(i + 1).last() == s[i]);
    if i + 1 == s.len() {
        assert(s.take(i + 1) =~= s);
    } else {
        lemma_digits_val_prefix(s, i + 1);
        assert(digits_val(s.take(i + 2)) == digits_val(s.take(i + 1)) * 10 + digit_val(s[i + 1]));
        assert(digits_val(s.take(i + 1)) * 10 >= digits_val(s.take(i + 1))) by (nonlinear_arith);
    }
}

/// Append the decimal digits of `n` to `out`.
pub fn push_u64_digits(n: u64, out: &mut Vec<char>)
    ensures
        final(out)@ == old(out)@ + dec_digits(n as nat),
    decreases n,
{
    if n < 10 {
        let c = digit_to_char((n % 10) as u8);
        out.push(c);
        proof {
            assert(out@ =~= old(out)@ + dec_digits(n as nat));
        }
    } else {
        push_u64_digits(n / 10, out);
        let c = digit_to_char((n % 10) as u8);
        out.push(c);
        proof {
            assert(out@ =~= old(out)@ + dec_digits(n as nat));
        }
    }
}

/// Append the decimal text of `n`, sign included, to `out`.
pub fn push_i64_text(n: i64, out: &mut Vec<char>)
    ensures
        final(out)@ == old(out)@ + int_text(n as int),
{
    if n < 0 {
        out.push('-');
        let mag: u64 = (-(n as i128)) as u64;
        push_u64_digits(mag, out);
        proof {
            assert(out@ =~= old(out)@ + int_text(n as int));
        }
    } else {
        push_u64_digits(n as u64, out);
    }
}

/// The digit character for a value below ten.
fn digit_to_char(d: u8) -> (c: char)
    requires
        d < 10,
    ensures
        c == digit_char(d as nat),
        is_digit(c),
{
    match d {
        0 => '0',
        1 => '1',
        2 => '2',
        3 => '3',
        4 => '4',
        5 => '5',
        6 => '6',
        7 => '7',
        8 => '8',
        _ => '9',
    }
}

/// Numeric value of a digit character.
fn char_to_digit(c: char) -> (d: u8)
    requires
        is_digit(c),
    ensures
        d as nat == digit_val(c),
{
    (c as u8) - 48u8
}

/// Mirror of `str::parse::<i64>` over a character slice.
pub fn parse_i64_chars(s: &[char], from: usize, to: usize) -> (r: Option<i64>)
    requires
        from <= to <= s@.len(),
    ensures
        r == parse_i64_spec(s@.subrange(from as int, to as int)),
{
    let ghost w = s@.subrange(from as int, to as int);
    let mut i = from;
    let mut neg = false;
    if from < to && (s[from] == '-' || s[from] == '+') {
        neg = s[from] == '-';
        i = from + 1;
    }
    let ghost digits = sign_skip(w);
    proof {
        if w.len() > 0 && (w[0] == '-' || w[0] == '+') {
            assert(w[0] == s@[from as int]);
            assert(i == from + 1);
        } else {
            assert(digits == w);
        }
        assert(digits =~= w.skip(i - from));
    }
    if i == to {
        return None;
    }
    let mut acc: u64 = 0;
    let mut j = i;
    while j < to
        invariant
            from <= i <= j <= to <= s@.len(),
            i < to,
            digits == sign_skip(w),
            digits == w.skip(i - from),
            w == s@.subrange(from as int, to as int),
            forall|k: int| 0 <= k < j - i ==> is_digit(digits[k]),
            acc as nat == digits_val(digits.take(j - i)),
            acc <= 0x8000_0000_0000_0000,
        decreases to - j,
    {
        let c = s[j];
        if !(c >= '0' && c <= '9') {
            proof {
                assert(digits[j - i] == c);
                assert(!is_digit(digits[j - i]));
                assert(!all_digits(digits));
            }
            return None;
        }
        let d = char_to_digit(c);
        proof {
            assert(digits[j - i] == c);
            lemma_digits_val_prefix(digits, j - i);
        }
        if acc > 0xccc_cccc_cccc_cccc || (acc == 0xccc_cccc_cccc_cccc && d > 8) {
            // the value already exceeds the i64 range, as the remaining digits
            // can only enlarge it
            proof {
                let t = j + 1 - i;
                assert(digits_val(digits.take(t)) > 0x8000_0000_0000_0000) by (nonlinear_arith)
                    requires
                        digits_val(digits.take(t)) == digits_val(digits.take(t - 1)) * 10
                            + digit_val(digits[t - 1]),
                        digits_val(digits.take(t - 1)) == acc as nat,
                        digit_val(digits[t - 1]) == d as nat,
                        d < 10,
                        acc > 0xccc_cccc_cccc_cccc || (acc == 0xccc_cccc_cccc_cccc && d > 8),
                ;
                lemma_digits_out_of_range(w, digits, t);
            }
            return None;
        }
        acc = acc * 10 + (d as u64);
        j += 1;
        proof {
            assert(acc as nat == digits_val(digits.take(j - i)));
        }
    }
    proof {
        assert(digits.take(to - i) =~= digits);
        assert(all_digits(digits));
    }
    if neg {
        if acc > 0x8000_0000_0000_0000 {
            return None;
        }
        let v: i64 = if acc == 0x8000_0000_0000_0000 {
            i64::MIN
        } else {
            -(acc as i64)
        };
        Some(v)
    } else {
        if acc > 0x7fff_ffff_ffff_ffff {
            return None;
        }
        Some(acc as i64)
    }
}

/// Once a digit prefix exceeds the `i64` magnitude range, the whole string
/// parses to `None` (whichever sign applies).
proof fn lemma_digits_out_of_range(w: Seq<char>, digits: Seq<char>, t: int)
    requires
        digits == sign_skip(w),
        0 < t <= digits.len(),
        digits_val(digits.take(t)) > 0x8000_0000_0000_0000,
    ensures
        parse_i64_spec(w) is None,
{
    if all_digits(digits) {
        lemma_digits_val_monotone(digits, t);
    }
}

/// The value of a full digit string is at least the value of any prefix.
proof fn lemma_digits_val_monotone(s: Seq<char>, t: int)
    requires
        0 <= t <= s.len(),
    ensures
        digits_val(s) >= digits_val(s.take(t)),
    decreases s.len() - t,
{
    if t < s.len() {
        lemma_digits_val_prefix(s, t);
        lemma_digits_val_monotone(s, t + 1);
        assert(digits_val(s.take(t + 1)) >= digits_val(s.take(t))) by (nonlinear_arith)
            requires
                digits_val(s.take(t + 1)) == digits_val(s.take(t)) * 10 + digit_val(s[t]),
        ;
    } else {
        assert(s.take(t) =~= s);
    }
}

/// ASCII uppercase conversion for one character.
pub open spec fn upper_char(c: char) -> char {
    if c == 'a' {
        'A'
    } else if c == 'b' {
        'B'
    } else if c == 'c' {
        'C'
    } else if c == 'd' {
        'D'
    } else if c == 'e' {
        'E'
    } else if c == 'f' {
        'F'
    } else if c == 'g' {
        'G'
    } else if c == 'h' {
        'H'
    } else if c == 'i' {
        'I'
    } else if c == 'j' {
        'J'
    } else if c == 'k' {
        'K'
    } else if c == 'l' {
        'L'
    } else if c == 'm' {
        'M'
    } else if c == 'n' {
        'N'
    } else if c == 'o' {
        'O'
    } else if c == 'p' {
        'P'
    } else if c == 'q' {
        'Q'
    } else if c == 'r' {
        'R'
    } else if c == 's' {
        'S'
    } else if c == 't' {
        'T'
    } else if c == 'u' {
        'U'
    } else if c == 'v' {
        'V'
    } else if c == 'w' {
        'W'
    } else if c == 'x' {
        'X'
    } else if c == 'y' {
        'Y'
    } else if c == 'z' {
        'Z'
    } else {
        c
    }
}

/// ASCII uppercase conversion of a character sequence.
pub open spec fn upper_seq(s: Seq<char>) -> Seq<char> {
    s.map_values(|c: char| upper_char(c))
}

/// ASCII uppercase conversion, one character.
pub fn to_upper_char(c: char) -> (r: char)
    ensures
        r == upper_char(c),
{
    match c {
        'a' => 'A',
        'b' => 'B',
        'c' => 'C',
        'd' => 'D',
        'e' => 'E',
        'f' => 'F',
        'g' => 'G',
        'h' => 'H',
        'i' => 'I',
        'j' => 'J',
        'k' => 'K',
        'l' => 'L',
        'm' => 'M',
        'n' => 'N',
        'o' => 'O',
        'p' => 'P',
        'q' => 'Q',
        'r' => 'R',
        's' => 'S',
        't' => 'T',
        'u' => 'U',
        'v' => 'V',
        'w' => 'W',
        'x' => 'X',
        'y' => 'Y',
        'z' => 'Z',
        _ => c,
    }
}

/// ASCII uppercase conversion of a character vector.
pub fn to_upper_chars(s: &Vec<char>) -> (r: Vec<char>)
    ensures
        r@ == upper_seq(s@),
{
    let mut out: Vec<char> = Vec::new();
    let mut i: usize = 0;
    while i < s.len()
        invariant
            i <= s@.len(),
            out@ =~= upper_seq(s@).take(i as int),
        decreases s@.len() - i,
    {
        out.push(to_upper_char(s[i]));
        i += 1;
        proof {
            assert(out@ =~= upper_seq(s@).take(i as int));
        }
    }
    proof {
        assert(upper_seq(s@).take(s@.len() as int) =~= upper_seq(s@));
    }
    out
}

/// Read the characters of a string into a vector.
pub fn str_to_chars(s: &str) -> (r: Vec<char>)
    ensures
        r@ == s@,
{
    let n = s.unicode_len();
    let mut out: Vec<char> = Vec::new();
    let mut i: usize = 0;
    while i < n
        invariant
            n == s@.len(),
            i <= n,
            out@ =~= s@.take(i as int),
        decreases n - i,
    {
        out.push(s.get_char(i));
        i += 1;
        proof {
            assert(out@ =~= s@.take(i as int));
        }
    }
    proof {
        assert(s@.take(n as int) =~= s@);
    }
    out
}

/// Compare two character sequences held in vectors.
pub fn chars_eq(a: &Vec<char>, b: &Vec<char>) -> (r: bool)
    ensures
        r == (a@ == b@),
{
    if a.len() != b.len() {
        return false;
    }
    let mut i: usize = 0;
    while i < a.len()
        invariant
            a@.len() == b@.len(),
            i <= a@.len(),
            forall|k: int| 0 <= k < i ==> a@[k] == b@[k],
        decreases a@.len() - i,
    {
        if a[i] != b[i] {
            return false;
        }
        i += 1;
    }
    proof {
        assert(a@ =~= b@);
    }
    true
}

/// Turn a character vector into a `String`.
/// Relies on `String::push`: appends exactly the pushed character.
#[verifier::external_body]
fn push_char(s: &mut String, c: char)
    ensures
        final(s)@ == old(s)@.push(c),
{
    s.push(c);
}

/// Build a `String` holding exactly the given characters.
pub fn chars_to_string(v: &Vec<char>) -> (r: String)
    ensures
        r@ == v@,
{
    let mut s = String::new();
    let mut i: usize = 0;
    while i < v.len()
        invariant
            i <= v@.len(),
            s@ =~= v@.take(i as int),
        decreases v@.len() - i,
    {
        push_char(&mut s, v[i]);
        i += 1;
        proof {
            assert(s@ =~= v@.take(i as int));
        }
    }
    proof {
        assert(v@.take(v@.len() as int) =~= v@);
    }
    s
}

/// Compare two strings character by character.
pub fn str_eq_str(a: &str, b: &str) -> (r: bool)
    ensures
        r == (a@ == b@),
{
    let n = a.unicode_len();
    if n != b.unicode_len() {
        return false;
    }
    let mut i: usize = 0;
    while i < n
        invariant
            n == a@.len() == b@.len(),
            i <= n,
            forall|k: int| 0 <= k < i ==> a@[k] == b@[k],
        decreases n - i,
    {
        if a.get_char(i) != b.get_char(i) {
            return false;
        }
        i += 1;
    }
    proof {
        assert(a@ =~= b@);
    }
    true
}

/// Compare a string against a character sequence, e.g. a builtin name.
pub fn str_eq_chars(s: &str, v: &Vec<char>) -> (r: bool)
    ensures
        r == (s@ == v@),
{
    let n = s.unicode_len();
    if n != v.len() {
        return false;
    }
    let mut i: usize = 0;
    while i < n
        invariant
            n == s@.len() == v@.len(),
            i <= n,
            forall|k: int| 0 <= k < i ==> s@[k] == v@[k],
        decreases n - i,
    {
        if s.get_char(i) != v[i] {
            return false;
        }
        i += 1;
    }
    proof {
        assert(s@ =~= v@);
    }
    true
}

} // verus!
