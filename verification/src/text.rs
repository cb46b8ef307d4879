use vstd::prelude::*;

verus! {

// Character-level helpers shared by the decomposer, the command table and the
// evaluator: ASCII case folding, decimal number text, and lexicographic order
// on character sequences.

/// ASCII case folding for a single character; everything outside 'A'..'Z'
/// is left unchanged.
pub open spec fn lower_char(c: char) -> char {
    match c {
        'A' => 'a',
        'B' => 'b',
        'C' => 'c',
        'D' => 'd',
        'E' => 'e',
        'F' => 'f',
        'G' => 'g',
        'H' => 'h',
        'I' => 'i',
        'J' => 'j',
        'K' => 'k',
        'L' => 'l',
        'M' => 'm',
        'N' => 'n',
        'O' => 'o',
        'P' => 'p',
        'Q' => 'q',
        'R' => 'r',
        'S' => 's',
        'T' => 't',
        'U' => 'u',
        'V' => 'v',
        'W' => 'w',
        'X' => 'x',
        'Y' => 'y',
        'Z' => 'z',
        _ => c,
    }
}

/// ASCII case folding of a whole character sequence.
pub open spec fn fold_lower(s: Seq<char>) -> Seq<char> {
    s.map(|i: int, c: char| lower_char(c))
}

pub fn lower_char_exec(c: char) -> (r: char)
    ensures
        r == lower_char(c),
{
    match c {
        'A' => 'a',
        'B' => 'b',
        'C' => 'c',
        'D' => 'd',
        'E' => 'e',
        'F' => 'f',
        'G' => 'g',
        'H' => 'h',
        'I' => 'i',
        'J' => 'j',
        'K' => 'k',
        'L' => 'l',
        'M' => 'm',
        'N' => 'n',
        'O' => 'o',
        'P' => 'p',
        'Q' => 'q',
        'R' => 'r',
        'S' => 's',
        'T' => 't',
        'U' => 'u',
        'V' => 'v',
        'W' => 'w',
        'X' => 'x',
        'Y' => 'y',
        'Z' => 'z',
        _ => c,
    }
}

/// Relies on String::push: appends exactly one character at the end.
#[verifier::external_body]
pub fn push_char(s: &mut String, c: char)
    ensures
        final(s)@ == old(s)@.push(c),
{
    s.push(c);
}

/// ASCII-lowercased copy of a string.
pub fn lowercased(s: &str) -> (r: String)
    ensures
        r@ == fold_lower(s@),
{
    let n: usize = s.unicode_len();
    let mut r = String::new();
    let mut i: usize = 0;
    while i < n
        invariant
            i <= n,
            n == s@.len(),
            r@ == fold_lower(s@.subrange(0, i as int)),
        decreases n - i,
    {
        let c = s.get_char(i);
        push_char(&mut r, lower_char_exec(c));
        proof {
            assert(fold_lower(s@.subrange(0, i + 1 as int)) =~= fold_lower(
                s@.subrange(0, i as int),
            ).push(lower_char(s@[i as int])));
        }
        i = i + 1;
    }
    proof {
        assert(s@.subrange(0, n as int) =~= s@);
    }
    r
}

/// The decimal digit for a value in 0..=9; a placeholder otherwise.
pub open spec fn digit_char(d: int) -> char {
    if d == 0 {
        '0'
    } else if d == 1 {
        '1'
    } else if d == 2 {
        '2'
    } else if d == 3 {
        '3'
    } else if d == 4 {
        '4'
    } else if d == 5 {
        '5'
    } else if d == 6 {
        '6'
    } else if d == 7 {
        '7'
    } else if d == 8 {
        '8'
    } else if d == 9 {
        '9'
    } else {
        '?'
    }
}

/// The value of a decimal digit character, or -1 for any other character.
pub open spec fn char_digit(c: char) -> int {
    match c {
        '0' => 0,
        '1' => 1,
        '2' => 2,
        '3' => 3,
        '4' => 4,
        '5' => 5,
        '6' => 6,
        '7' => 7,
        '8' => 8,
        '9' => 9,
        _ => -1,
    }
}

pub open spec fn is_digit_char(c: char) -> bool {
    char_digit(c) >= 0
}

pub fn char_digit_exec(c: char) -> (r: Option<u8>)
    ensures
        r matches Some(d) ==> d as int == char_digit(c),
        r is Some <==> is_digit_char(c),
{
    match c {
        '0' => Some(0),
        '1' => Some(1),
        '2' => Some(2),
        '3' => Some(3),
        '4' => Some(4),
        '5' => Some(5),
        '6' => Some(6),
        '7' => Some(7),
        '8' => Some(8),
        '9' => Some(9),
        _ => None,
    }
}

/// The decimal digit sequence of a non-negative number, most significant first.
pub open spec fn dec_digits(n: nat) -> Seq<char>
    decreases n,
{
    if n < 10 {
        seq![digit_char(n as int)]
    } else {
        dec_digits(n / 10).push(digit_char((n % 10) as int))
    }
}

/// The canonical decimal text of an integer: a minus sign for negative
/// numbers, then the digits without leading zeros.
pub open spec fn int_text(n: int) -> Seq<char> {
    if n >= 0 {
        dec_digits(n as nat)
    } else {
        seq!['-'].add(dec_digits((-n) as nat))
    }
}

fn push_dec_digits(s: &mut String, n: u64)
    ensures
        final(s)@ == old(s)@ + dec_digits(n as nat),
    decreases n,
{
    if n >= 10 {
        push_dec_digits(s, n / 10);
        let d = n % 10;
        push_char(s, digit_char_exec(d));
    } else {
        push_char(s, digit_char_exec(n));
    }
}

fn digit_char_exec(d: u64) -> (r: char)
    ensures
        r == digit_char(d as int),
{
    match d {
        0u64 => '0',
        1u64 => '1',
        2u64 => '2',
        3u64 => '3',
        4u64 => '4',
        5u64 => '5',
        6u64 => '6',
        7u64 => '7',
        8u64 => '8',
        9u64 => '9',
        _ => '?',
    }
}

/// The canonical decimal text of a number value.
pub fn i64_to_string(n: i64) -> (s: String)
    ensures
        s@ == int_text(n as int),
{
    let mut s = String::new();
    if n >= 0 {
        push_dec_digits(&mut s, n as u64);
    } else {
        push_char(&mut s, '-');
        let magnitude: u64 = ((-(n + 1)) as u64) + 1;
        push_dec_digits(&mut s, magnitude);
    }
    s
}

/// The value of a digit sequence read left to right.
pub open spec fn digits_value(s: Seq<char>) -> int
    decreases s.len(),
{
    if s.len() == 0 {
        0
    } else {
        digits_value(s.drop_last()) * 10 + char_digit(s.last())
    }
}

pub open spec fn all_digits(s: Seq<char>) -> bool {
    forall|i: int| 0 <= i < s.len() ==> is_digit_char(#[trigger] s[i])
}

/// Where the first decimal point stands, or the length without one.
pub open spec fn dot_index(s: Seq<char>) -> int
    decreases s.len(),
{
    if s.len() == 0 {
        0
    } else if s[0] == '.' {
        0
    } else {
        1 + dot_index(s.subrange(1, s.len() as int))
    }
}

pub open spec fn zeros_only(s: Seq<char>) -> bool {
    forall|i: int| 0 <= i < s.len() ==> s[i] == '0'
}

/// The whole part of a token: what stands before the first decimal point,
/// or the token itself without one.
pub open spec fn whole_part(s: Seq<char>) -> Seq<char> {
    s.subrange(0, dot_index(s))
}

/// Whether what follows the first decimal point, if any, is only zeros, so
/// that the token's value is the whole part's.
pub open spec fn int_valued_tail(s: Seq<char>) -> bool {
    dot_index(s) < s.len() ==> zeros_only(s.subrange(dot_index(s) + 1, s.len() as int))
}

/// Whether a token is number text: an optional minus sign, then at least
/// one decimal digit, with a value that a number can carry; a decimal tail
/// of zeros (`2.0`, `2.`) leaves the value whole and is accepted.
pub open spec fn is_number_text(s: Seq<char>) -> bool {
    let w = whole_part(s);
    &&& int_valued_tail(s)
    &&& if w.len() > 0 && w[0] == '-' {
        &&& w.len() >= 2
        &&& all_digits(w.subrange(1, w.len() as int))
        &&& -digits_value(w.subrange(1, w.len() as int)) >= i64::MIN
    } else {
        &&& w.len() >= 1
        &&& all_digits(w)
        &&& digits_value(w) <= i64::MAX
    }
}

/// The number a piece of number text denotes: the whole part's value.
pub open spec fn number_text_value(s: Seq<char>) -> int {
    let w = whole_part(s);
    if w.len() > 0 && w[0] == '-' {
        -digits_value(w.subrange(1, w.len() as int))
    } else {
        digits_value(w)
    }
}

proof fn lemma_dot_index_char(s: Seq<char>, d: int)
    requires
        0 <= d <= s.len(),
        forall|i: int| 0 <= i < d ==> s[i] != '.',
        d < s.len() ==> s[d] == '.',
    ensures
        dot_index(s) == d,
    decreases s.len(),
{
    if s.len() > 0 && s[0] != '.' {
        let t = s.subrange(1, s.len() as int);
        assert(forall|i: int| 0 <= i < d - 1 ==> #[trigger] t[i] == s[i + 1]);
        lemma_dot_index_char(t, d - 1);
    }
}

proof fn lemma_digits_value_nonneg(s: Seq<char>)
    requires
        all_digits(s),
    ensures
        digits_value(s) >= 0,
    decreases s.len(),
{
    if s.len() > 0 {
        assert(all_digits(s.drop_last()));
        lemma_digits_value_nonneg(s.drop_last());
    }
}

proof fn lemma_digits_value_prefix_le(s: Seq<char>, k: int)
    requires
        all_digits(s),
        0 <= k <= s.len(),
    ensures
        digits_value(s.subrange(0, k)) <= digits_value(s),
    decreases s.len() - k,
{
    if k < s.len() {
        let t = s.subrange(0, k + 1);
        assert(t.drop_last() =~= s.subrange(0, k));
        assert(all_digits(t.drop_last()));
        lemma_digits_value_nonneg(t.drop_last());
        assert(digits_value(t) == digits_value(s.subrange(0, k)) * 10 + char_digit(s[k]));
        lemma_digits_value_prefix_le(s, k + 1);
    } else {
        assert(s.subrange(0, k) =~= s);
    }
}

fn parse_digits(s: &str, start: usize, n: usize) -> (r: Option<u64>)
    requires
        start <= n,
        n <= s@.len(),
    ensures
        r matches Some(v) ==> all_digits(s@.subrange(start as int, n as int)) && v as int
            == digits_value(s@.subrange(start as int, n as int)),
        r is None ==> !(all_digits(s@.subrange(start as int, n as int)) && digits_value(
            s@.subrange(start as int, n as int),
        ) <= u64::MAX),
{
    let ghost whole = s@.subrange(start as int, n as int);
    let mut acc: u64 = 0;
    let mut i: usize = start;
    while i < n
        invariant
            start <= i <= n,
            n <= s@.len(),
            whole == s@.subrange(start as int, n as int),
            all_digits(s@.subrange(start as int, i as int)),
            acc as int == digits_value(s@.subrange(start as int, i as int)),
        decreases n - i,
    {
        let c = s.get_char(i);
        let ghost prefix = s@.subrange(start as int, i as int);
        let ghost extended = s@.subrange(start as int, i + 1 as int);
        proof {
            assert(extended.drop_last() =~= prefix);
        }
        match char_digit_exec(c) {
            None => {
                proof {
                    assert(!all_digits(whole)) by {
                        assert(whole[i - start] == c);
                    }
                }
                return None;
            },
            Some(d) => {
                let next = match acc.checked_mul(10) {
                    Some(m) => m.checked_add(d as u64),
                    None => None,
                };
                match next {
                    Some(v) => {
                        acc = v;
                    },
                    None => {
                        proof {
                            assert(digits_value(extended) > u64::MAX);
                            assert(extended =~= whole.subrange(0, i + 1 - start));
                            if all_digits(whole) {
                                lemma_digits_value_prefix_le(whole, i + 1 - start);
                            }
                        }
                        return None;
                    },
                }
            },
        }
        i = i + 1;
    }
    proof {
        assert(s@.subrange(start as int, n as int) =~= whole);
    }
    Some(acc)
}

/// Reads a token as a number if it is number text, per `is_number_text`.
pub fn parse_number_token(s: &str) -> (r: Option<i64>)
    ensures
        r matches Some(v) ==> is_number_text(s@) && v as int == number_text_value(s@),
        r is None ==> !is_number_text(s@),
{
    let n: usize = s.unicode_len();
    // Find the first decimal point.
    let mut d: usize = 0;
    while d < n && s.get_char(d) != '.'
        invariant
            d <= n,
            n == s@.len(),
            forall|i: int| 0 <= i < d ==> s@[i] != '.',
        decreases n - d,
    {
        d = d + 1;
    }
    proof {
        lemma_dot_index_char(s@, d as int);
    }
    // A decimal tail must hold only zeros.
    if d < n {
        let mut j: usize = d + 1;
        while j < n && s.get_char(j) == '0'
            invariant
                d < n,
                d + 1 <= j <= n,
                n == s@.len(),
                forall|i: int| d + 1 <= i < j ==> s@[i] == '0',
            decreases n - j,
        {
            j = j + 1;
        }
        if j < n {
            proof {
                assert(!zeros_only(s@.subrange(d + 1, n as int))) by {
                    assert(s@.subrange(d + 1, n as int)[j - d - 1] != '0');
                }
            }
            return None;
        }
        proof {
            assert(zeros_only(s@.subrange(d + 1, n as int))) by {
                assert forall|i: int|
                    0 <= i < s@.subrange(d + 1, n as int).len() implies #[trigger] s@.subrange(
                    d + 1,
                    n as int,
                )[i] == '0' by {
                    assert(s@.subrange(d + 1, n as int)[i] == s@[d + 1 + i]);
                }
            }
        }
    }
    let ghost w = whole_part(s@);
    proof {
        assert(w =~= s@.subrange(0, d as int));
    }
    if d == 0 {
        return None;
    }
    let first = s.get_char(0);
    if first == '-' {
        if d < 2 {
            return None;
        }
        proof {
            assert(w.subrange(1, w.len() as int) =~= s@.subrange(1, d as int));
        }
        match parse_digits(s, 1, d) {
            Some(v) => {
                // The magnitude must not exceed 2^63, the magnitude of the
                // smallest number.
                if v <= 9223372036854775808u64 {
                    let r: i64 = if v == 9223372036854775808u64 {
                        i64::MIN
                    } else {
                        -(v as i64)
                    };
                    Some(r)
                } else {
                    None
                }
            },
            None => {
                proof {
                    let digits = s@.subrange(1, d as int);
                    if all_digits(digits) && -digits_value(digits) >= i64::MIN {
                        lemma_digits_value_nonneg(digits);
                    }
                }
                None
            },
        }
    } else {
        match parse_digits(s, 0, d) {
            Some(v) => {
                if v <= i64::MAX as u64 {
                    Some(v as i64)
                } else {
                    None
                }
            },
            None => None,
        }
    }
}

/// Strict lexicographic order on character sequences, by code point.
pub open spec fn lex_lt(a: Seq<char>, b: Seq<char>) -> bool
    decreases a.len(),
{
    if b.len() == 0 {
        false
    } else if a.len() == 0 {
        true
    } else if a[0] != b[0] {
        (a[0] as int) < (b[0] as int)
    } else {
        lex_lt(a.subrange(1, a.len() as int), b.subrange(1, b.len() as int))
    }
}

/// Lexicographic comparison of two strings, by code point, as the host
/// language orders its strings.
pub fn str_lex_lt(a: &str, b: &str) -> (r: bool)
    ensures
        r == lex_lt(a@, b@),
{
    let an: usize = a.unicode_len();
    let bn: usize = b.unicode_len();
    let mut i: usize = 0;
    proof {
        assert(a@.subrange(0, an as int) =~= a@);
        assert(b@.subrange(0, bn as int) =~= b@);
    }
    loop
        invariant
            i <= an,
            i <= bn,
            an == a@.len(),
            bn == b@.len(),
            lex_lt(a@, b@) == lex_lt(
                a@.subrange(i as int, an as int),
                b@.subrange(i as int, bn as int),
            ),
        decreases an - i,
    {
        if i == bn {
            return false;
        }
        if i == an {
            return true;
        }
        let ca = a.get_char(i);
        let cb = b.get_char(i);
        if ca != cb {
            return (ca as u32) < (cb as u32);
        }
        proof {
            let sa = a@.subrange(i as int, an as int);
            let sb = b@.subrange(i as int, bn as int);
            assert(sa.subrange(1, sa.len() as int) =~= a@.subrange(i + 1, an as int));
            assert(sb.subrange(1, sb.len() as int) =~= b@.subrange(i + 1, bn as int));
        }
        i = i + 1;
    }
}

} // verus!
