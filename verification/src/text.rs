//! Small verified helpers shared by the parsers and the diagnostics of this
//! crate: whitespace splitting, integer tokens, decimal rendering of
//! integers, and character-level string assembly.

use vstd::prelude::*;

verus! {

/// ASCII whitespace, as the two input formats use it.
pub open spec fn ws_char(c: char) -> bool {
    c == ' ' || c == '\t' || c == '\r' || c == '\n' || c == '\u{b}' || c == '\u{c}'
}

/// Runtime test for [`ws_char`].
pub fn is_ws_char(c: char) -> (r: bool)
    ensures
        r == ws_char(c),
{
    c == ' ' || c == '\t' || c == '\r' || c == '\n' || c == '\u{b}' || c == '\u{c}'
}

/// Accumulator form of whitespace splitting: `acc` holds the finished words,
/// `cur` the word in progress, and `i` the next position of `s` to read.
pub open spec fn tok_fold(s: Seq<char>, i: int, acc: Seq<Seq<char>>, cur: Seq<char>) -> Seq<
    Seq<char>,
>
    decreases s.len() - i,
{
    if i < 0 || i >= s.len() {
        if cur.len() > 0 {
            acc.push(cur)
        } else {
            acc
        }
    } else if ws_char(s[i]) {
        if cur.len() > 0 {
            tok_fold(s, i + 1, acc.push(cur), seq![])
        } else {
            tok_fold(s, i + 1, acc, seq![])
        }
    } else {
        tok_fold(s, i + 1, acc, cur.push(s[i]))
    }
}

/// The whitespace-separated words of `s`.
pub open spec fn tokens_of(s: Seq<char>) -> Seq<Seq<char>> {
    tok_fold(s, 0, seq![], seq![])
}

/// Splits a line into its whitespace-separated words.
pub fn tokenize(line: &Vec<char>) -> (r: Vec<Vec<char>>)
    ensures
        r.deep_view() == tokens_of(line@),
{
    let mut acc: Vec<Vec<char>> = Vec::new();
    let mut cur: Vec<char> = Vec::new();
    let mut i: usize = 0;
    assert(acc.deep_view() =~~= Seq::<Seq<char>>::empty());
    while i < line.len()
        invariant
            i <= line@.len(),
            tokens_of(line@) == tok_fold(line@, i as int, acc.deep_view(), cur@),
        decreases line@.len() - i,
    {
        let ghost prev = acc.deep_view();
        let ghost curv = cur@;
        if is_ws_char(line[i]) {
            if cur.len() > 0 {
                acc.push(cur);
                assert(acc.deep_view() =~~= prev.push(curv));
                cur = Vec::new();
                assert(tok_fold(line@, i as int, prev, curv) == tok_fold(
                    line@,
                    i as int + 1,
                    prev.push(curv),
                    seq![],
                ));
            } else {
                assert(curv =~= Seq::<char>::empty());
                assert(tok_fold(line@, i as int, prev, curv) == tok_fold(
                    line@,
                    i as int + 1,
                    prev,
                    seq![],
                ));
                assert(cur@ =~= Seq::<char>::empty());
            }
        } else {
            cur.push(line[i]);
            assert(cur@ == curv.push(line@[i as int]));
            assert(tok_fold(line@, i as int, prev, curv) == tok_fold(
                line@,
                i as int + 1,
                prev,
                curv.push(line@[i as int]),
            ));
        }
        i = i + 1;
    }
    if cur.len() > 0 {
        let ghost prev = acc.deep_view();
        let ghost curv = cur@;
        acc.push(cur);
        assert(acc.deep_view() =~~= prev.push(curv));
    }
    acc
}

/// A decimal digit character.
pub open spec fn digit(c: char) -> bool {
    48 <= c as int <= 57
}

/// The value of a decimal digit character.
pub open spec fn digit_value(c: char) -> int {
    c as int - 48
}

/// Runtime test for [`digit`].
pub fn is_digit_char(c: char) -> (r: bool)
    ensures
        r == digit(c),
{
    let u = c as u32;
    48 <= u && u <= 57
}

/// Every character of `t` from position `i` on is a decimal digit.
pub open spec fn all_digits_from(t: Seq<char>, i: int) -> bool {
    forall|j: int| i <= j < t.len() ==> digit(#[trigger] t[j])
}

/// The value of the digits of `t` from position `i` on, on top of `acc`.
pub open spec fn dig_fold(t: Seq<char>, i: int, acc: int) -> int
    decreases t.len() - i,
{
    if i < 0 || i >= t.len() {
        acc
    } else {
        dig_fold(t, i + 1, acc * 10 + digit_value(t[i]))
    }
}

/// Where the digits of an integer token start: behind a sign, if any.
pub open spec fn int_token_start(t: Seq<char>) -> int {
    if t.len() > 0 && (t[0] == '-' || t[0] == '+') {
        1
    } else {
        0
    }
}

/// The shape of an integer token: an optional sign, then at least one digit
/// and nothing else. This is what Rust's integer parsing accepts, before its
/// range check.
pub open spec fn int_token_shape(t: Seq<char>) -> bool {
    t.len() > int_token_start(t) && all_digits_from(t, int_token_start(t))
}

/// The mathematical value of a well-shaped integer token.
pub open spec fn int_token_value(t: Seq<char>) -> int {
    if t.len() > 0 && t[0] == '-' {
        -dig_fold(t, 1, 0)
    } else {
        dig_fold(t, int_token_start(t), 0)
    }
}

/// The `i32` a token parses to, exactly when Rust's `i32` parsing accepts it.
pub open spec fn i32_token(t: Seq<char>) -> Option<int> {
    if int_token_shape(t) && -0x80000000 <= int_token_value(t) <= 0x7fffffff {
        Some(int_token_value(t))
    } else {
        None
    }
}

/// The `usize` a token parses to, exactly when Rust's `usize` parsing accepts
/// it: no minus sign is admitted.
pub open spec fn usize_token(t: Seq<char>) -> Option<int> {
    if int_token_shape(t) && !(t[0] == '-') && int_token_value(t) <= usize::MAX {
        Some(int_token_value(t))
    } else {
        None
    }
}

/// Runtime test for [`int_token_shape`].
pub fn is_int_token_shaped(t: &Vec<char>) -> (r: bool)
    ensures
        r == int_token_shape(t@),
{
    let n = t.len();
    let start: usize = if n > 0 && (t[0] == '-' || t[0] == '+') {
        1
    } else {
        0
    };
    assert(start as int == int_token_start(t@));
    if n <= start {
        return false;
    }
    let mut j: usize = start;
    while j < n
        invariant
            start <= j <= n,
            n == t@.len(),
            start as int == int_token_start(t@),
            forall|k: int| start <= k < j ==> digit(#[trigger] t@[k]),
        decreases n - j,
    {
        if !is_digit_char(t[j]) {
            assert(!digit(t@[j as int]));
            assert(!all_digits_from(t@, start as int));
            return false;
        }
        j = j + 1;
    }
    assert(all_digits_from(t@, start as int));
    true
}

/// On digits, the accumulated value never shrinks.
proof fn lemma_dig_fold_monotone(t: Seq<char>, i: int, acc: int)
    requires
        0 <= acc,
        all_digits_from(t, i),
    ensures
        dig_fold(t, i, acc) >= acc,
    decreases t.len() - i,
{
    if 0 <= i < t.len() {
        lemma_dig_fold_monotone(t, i + 1, acc * 10 + digit_value(t[i]));
    }
}

/// Parses a token as an `i32`, mirroring [`i32_token`].
pub fn parse_i32_token(t: &Vec<char>) -> (r: Option<i32>)
    ensures
        r matches Some(v) ==> i32_token(t@) == Some(v as int),
        r is None ==> i32_token(t@) is None,
{
    let n = t.len();
    let start: usize = if n > 0 && (t[0] == '-' || t[0] == '+') {
        1
    } else {
        0
    };
    assert(start as int == int_token_start(t@));
    if n <= start {
        assert(!int_token_shape(t@));
        return None;
    }
    let mut j: usize = start;
    while j < n
        invariant
            start <= j <= n,
            n == t@.len(),
            start as int == int_token_start(t@),
            forall|k: int| start <= k < j ==> digit(#[trigger] t@[k]),
        decreases n - j,
    {
        if !is_digit_char(t[j]) {
            assert(!digit(t@[j as int]));
            assert(!all_digits_from(t@, start as int));
            assert(!int_token_shape(t@));
            return None;
        }
        j = j + 1;
    }
    assert(all_digits_from(t@, start as int));
    let neg = t[0] == '-';
    let mut acc: i64 = 0;
    let mut j: usize = start;
    while j < n
        invariant
            start <= j <= n,
            n == t@.len(),
            start as int == int_token_start(t@),
            all_digits_from(t@, start as int),
            0 <= acc <= 0x80000000,
            dig_fold(t@, start as int, 0) == dig_fold(t@, j as int, acc as int),
        decreases n - j,
    {
        let c = t[j];
        assert(digit(t@[j as int]));
        let d: i64 = (c as u32 as i64) - 48;
        assert(d == digit_value(t@[j as int]));
        proof {
            assert(dig_fold(t@, j as int, acc as int) == dig_fold(
                t@,
                j + 1,
                acc as int * 10 + digit_value(t@[j as int]),
            ));
        }
        acc = acc * 10 + d;
        if acc > 0x80000000i64 {
            proof {
                lemma_dig_fold_monotone(t@, (j + 1) as int, acc as int);
                assert(dig_fold(t@, start as int, 0) >= acc as int);
                assert(int_token_value(t@) > 0x7fffffff || int_token_value(t@) < -0x80000000);
            }
            return None;
        }
        j = j + 1;
    }
    if neg {
        if acc > 0x80000000i64 {
            return None;
        }
        Some((-acc) as i32)
    } else {
        if acc > 0x7fffffffi64 {
            return None;
        }
        Some(acc as i32)
    }
}

/// Parses a token as a `usize`, mirroring [`usize_token`].
pub fn parse_usize_token(t: &Vec<char>) -> (r: Option<usize>)
    ensures
        r matches Some(v) ==> usize_token(t@) == Some(v as int),
        r is None ==> usize_token(t@) is None,
{
    let n = t.len();
    if n > 0 && t[0] == '-' {
        return None;
    }
    let start: usize = if n > 0 && t[0] == '+' {
        1
    } else {
        0
    };
    assert(start as int == int_token_start(t@));
    if n <= start {
        assert(!int_token_shape(t@));
        return None;
    }
    let mut j: usize = start;
    while j < n
        invariant
            start <= j <= n,
            n == t@.len(),
            start as int == int_token_start(t@),
            forall|k: int| start <= k < j ==> digit(#[trigger] t@[k]),
        decreases n - j,
    {
        if !is_digit_char(t[j]) {
            assert(!digit(t@[j as int]));
            assert(!all_digits_from(t@, start as int));
            assert(!int_token_shape(t@));
            return None;
        }
        j = j + 1;
    }
    assert(all_digits_from(t@, start as int));
    let mut acc: u128 = 0;
    let mut j: usize = start;
    let bound: u128 = usize::MAX as u128;
    while j < n
        invariant
            start <= j <= n,
            start < n,
            n == t@.len(),
            !(t@[0] == '-'),
            start as int == int_token_start(t@),
            all_digits_from(t@, start as int),
            0 <= acc <= bound,
            bound == usize::MAX,
            dig_fold(t@, start as int, 0) == dig_fold(t@, j as int, acc as int),
        decreases n - j,
    {
        let c = t[j];
        assert(digit(t@[j as int]));
        let d: u128 = (c as u32 as u128) - 48;
        assert(d == digit_value(t@[j as int]));
        proof {
            assert(dig_fold(t@, j as int, acc as int) == dig_fold(
                t@,
                j + 1,
                acc as int * 10 + digit_value(t@[j as int]),
            ));
        }
        acc = acc * 10 + d;
        if acc > bound {
            proof {
                lemma_dig_fold_monotone(t@, (j + 1) as int, acc as int);
                assert(dig_fold(t@, start as int, 0) >= acc as int);
                assert(int_token_value(t@) > usize::MAX);
            }
            return None;
        }
        j = j + 1;
    }
    Some(acc as usize)
}

/// The digit character for a value below ten.
pub open spec fn digit_char(d: nat) -> char {
    if d == 0 {
        '0'
    } else if d == 1 {
        '1'
    } else if d == 2 {
        '2'
    } else if d == 3 {
        '3'
    } else if d == 4 {
        '4'
    } else if d == 5 {
        '5'
    } else if d == 6 {
        '6'
    } else if d == 7 {
        '7'
    } else if d == 8 {
        '8'
    } else {
        '9'
    }
}

/// Decimal digits of a non-negative value, most significant first.
pub open spec fn dec_digits(n: nat) -> Seq<char>
    decreases n,
{
    if n < 10 {
        seq![digit_char(n)]
    } else {
        dec_digits(n / 10) + seq![digit_char(n % 10)]
    }
}

/// Decimal rendering of an integer, with a leading minus sign when negative.
pub open spec fn dec_int(v: int) -> Seq<char> {
    if v < 0 {
        seq!['-'] + dec_digits((-v) as nat)
    } else {
        dec_digits(v as nat)
    }
}

/// Relies on std's `String::push`: appends one character.
#[verifier::external_body]
pub fn push_char(out: &mut String, c: char)
    ensures
        final(out)@ == old(out)@ + seq![c],
{
    out.push(c);
}

/// Appends the decimal digit character for `d`.
pub fn push_digit(out: &mut String, d: u64)
    requires
        d < 10,
    ensures
        final(out)@ == old(out)@ + seq![digit_char(d as nat)],
{
    let c: char = if d == 0 {
        '0'
    } else if d == 1 {
        '1'
    } else if d == 2 {
        '2'
    } else if d == 3 {
        '3'
    } else if d == 4 {
        '4'
    } else if d == 5 {
        '5'
    } else if d == 6 {
        '6'
    } else if d == 7 {
        '7'
    } else if d == 8 {
        '8'
    } else {
        '9'
    };
    push_char(out, c);
}

/// Appends the decimal rendering of `n`.
pub fn push_u64(out: &mut String, n: u64)
    ensures
        final(out)@ == old(out)@ + dec_digits(n as nat),
    decreases n,
{
    if n < 10 {
        push_digit(out, n);
    } else {
        assert(n / 10 < n && n / 10 >= 1) by (nonlinear_arith)
            requires
                n >= 10,
        ;
        push_u64(out, n / 10);
        push_digit(out, n % 10);
        assert(final(out)@ =~= old(out)@ + dec_digits(n as nat));
    }
}

/// Appends the decimal rendering of a signed value.
pub fn push_i64(out: &mut String, v: i64)
    ensures
        final(out)@ == old(out)@ + dec_int(v as int),
{
    if v < 0 {
        push_char(out, '-');
        let m: u64 = (-(v as i128)) as u64;
        push_u64(out, m);
        assert(final(out)@ =~= old(out)@ + dec_int(v as int));
    } else {
        push_u64(out, v as u64);
    }
}

/// Appends a sub-range of a character sequence.
pub fn push_chars(out: &mut String, cs: &Vec<char>, from: usize, to: usize)
    requires
        from <= to <= cs@.len(),
    ensures
        final(out)@ == old(out)@ + cs@.subrange(from as int, to as int),
{
    let mut i: usize = from;
    while i < to
        invariant
            from <= i <= to <= cs@.len(),
            out@ == old(out)@ + cs@.subrange(from as int, i as int),
        decreases to - i,
    {
        push_char(out, cs[i]);
        assert(out@ =~= old(out)@ + cs@.subrange(from as int, (i + 1) as int));
        i = i + 1;
    }
}

/// A run of `n` spaces (empty when `n` is negative).
pub open spec fn spaces(n: int) -> Seq<char> {
    Seq::new(
        if n >= 0 {
            n as nat
        } else {
            0
        },
        |i: int| ' ',
    )
}

/// `s`, left-padded with spaces to width `w`.
pub open spec fn pad_left(s: Seq<char>, w: int) -> Seq<char> {
    if s.len() >= w {
        s
    } else {
        spaces(w - s.len()) + s
    }
}

/// Appends the decimal rendering of `v`, left-padded with spaces to width `w`.
pub fn push_padded_i64(out: &mut String, v: i64, w: usize)
    ensures
        final(out)@ == old(out)@ + pad_left(dec_int(v as int), w as int),
{
    let mut num = String::new();
    push_i64(&mut num, v);
    let len = num.as_str().unicode_len();
    let mut k: usize = len;
    assert(out@ =~= old(out)@ + spaces(0));
    while k < w
        invariant
            len <= k,
            k == len || k <= w,
            num@ == dec_int(v as int),
            len == num@.len(),
            out@ == old(out)@ + spaces(k - len),
        decreases w - k,
    {
        push_char(out, ' ');
        assert(out@ =~= old(out)@ + spaces(k + 1 - len));
        k = k + 1;
    }
    out.append(num.as_str());
    assert(out@ =~= old(out)@ + pad_left(dec_int(v as int), w as int));
}

/// Collects the characters of a string slice into a vector.
pub fn str_chars(s: &str) -> (r: Vec<char>)
    ensures
        r@ == s@,
{
    let n = s.unicode_len();
    let mut out: Vec<char> = Vec::new();
    let mut i: usize = 0;
    while i < n
        invariant
            i <= n,
            n == s@.len(),
            out@ =~= s@.subrange(0, i as int),
        decreases n - i,
    {
        out.push(s.get_char(i));
        i = i + 1;
    }
    assert(out@ =~= s@);
    out
}


/// What `str::to_uppercase` returns: a function of the characters alone.
pub uninterp spec fn upper_of(s: Seq<char>) -> Seq<char>;

/// A character of the ASCII range.
pub open spec fn ascii_char(c: char) -> bool {
    (c as int) < 128
}

/// Every character of `s` lies in the ASCII range.
pub open spec fn all_ascii(s: Seq<char>) -> bool {
    forall|i: int| 0 <= i < s.len() ==> ascii_char(#[trigger] s[i])
}

/// The upper-case form of one character of the ASCII range.
pub open spec fn ascii_upper(c: char) -> char {
    if 97 <= c as int <= 122 {
        (c as int - 32) as char
    } else {
        c
    }
}

/// The upper-case form of a string.
///
/// Relies on std's `str::to_uppercase`: the result depends on the
/// characters alone, and on the ASCII range it is the character-wise ASCII
/// upper-casing (no ASCII character maps to several, or out of ASCII).
#[verifier::external_body]
pub fn to_upper(s: &str) -> (r: String)
    ensures
        r@ == upper_of(s@),
        all_ascii(s@) ==> r@ == s@.map_values(|c: char| ascii_upper(c)),
{
    s.to_uppercase()
}

} // verus!
