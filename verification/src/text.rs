//! Numerals and the few text operations that keys, labels and links are made of.

use vstd::arithmetic::power::{lemma_pow1, lemma_pow_adds, pow};
use vstd::prelude::*;

verus! {

/// The character for the digit `d`, lower case above nine.
pub open spec fn digit_char(d: int) -> char {
    if d < 10 {
        (48 + d) as char
    } else {
        (87 + d) as char
    }
}

/// The digits of `n` to base `radix`, most significant first, without leading zeros.
pub open spec fn numeral(n: nat, radix: nat) -> Seq<char>
    decreases n,
{
    if radix < 2 || n < radix {
        seq![digit_char(n as int)]
    } else {
        proof {
            assert(n / radix < n) by (nonlinear_arith)
                requires
                    2 <= radix <= n,
            ;
        }
        numeral(n / radix, radix).push(digit_char((n % radix) as int))
    }
}

proof fn lemma_div_shrinks(n: nat, radix: nat)
    requires
        2 <= radix <= n,
    ensures
        n / radix < n,
{
    assert(n / radix < n) by (nonlinear_arith)
        requires
            2 <= radix <= n,
    ;
}

pub open spec fn decimal(n: nat) -> Seq<char> {
    numeral(n, 10)
}

/// `s` with zeros in front up to `width` characters.
pub open spec fn zero_padded(s: Seq<char>, width: nat) -> Seq<char> {
    if s.len() < width {
        Seq::new((width - s.len()) as nat, |i: int| '0') + s
    } else {
        s
    }
}

/// How a session key is shown and passed in links: 32 hexadecimal digits.
pub open spec fn key_text(key: u128) -> Seq<char> {
    zero_padded(numeral(key as nat, 16), 32)
}

/// What the character `c` is worth as a digit to base `radix`, in either case.
pub open spec fn digit_value(c: char, radix: nat) -> Option<nat> {
    let code = c as int;
    let v = if 48 <= code <= 57 {
        code - 48
    } else if 97 <= code <= 122 {
        code - 87
    } else if 65 <= code <= 90 {
        code - 55
    } else {
        radix as int
    };
    if v < radix {
        Some(v as nat)
    } else {
        None
    }
}

/// The value of a run of digits; `None` where a character is no digit.
pub open spec fn digits_value(s: Seq<char>, radix: nat) -> Option<nat>
    decreases s.len(),
{
    if s.len() == 0 {
        Some(0)
    } else {
        match (digits_value(s.drop_last(), radix), digit_value(s.last(), radix)) {
            (Some(v), Some(d)) => Some(v * radix + d),
            _ => None,
        }
    }
}

/// `s` without one leading plus sign.
pub open spec fn unsigned_part(s: Seq<char>) -> Seq<char> {
    if s.len() > 0 && s[0] == '+' {
        s.skip(1)
    } else {
        s
    }
}

/// The number written in `s`: an optional plus sign, then at least one digit, no
/// more than `max` in value.
pub open spec fn parsed(s: Seq<char>, radix: nat, max: nat) -> Option<nat> {
    let digits = unsigned_part(s);
    if digits.len() == 0 {
        None
    } else {
        match digits_value(digits, radix) {
            Some(v) => if v <= max {
                Some(v)
            } else {
                None
            },
            None => None,
        }
    }
}

fn digit_str(d: u8) -> (r: &'static str)
    requires
        d < 16,
    ensures
        r@ == seq![digit_char(d as int)],
{
    proof {
        reveal_strlit("0");
        reveal_strlit("1");
        reveal_strlit("2");
        reveal_strlit("3");
        reveal_strlit("4");
        reveal_strlit("5");
        reveal_strlit("6");
        reveal_strlit("7");
        reveal_strlit("8");
        reveal_strlit("9");
        reveal_strlit("a");
        reveal_strlit("b");
        reveal_strlit("c");
        reveal_strlit("d");
        reveal_strlit("e");
        reveal_strlit("f");
    }
    match d {
        0 => "0",
        1 => "1",
        2 => "2",
        3 => "3",
        4 => "4",
        5 => "5",
        6 => "6",
        7 => "7",
        8 => "8",
        9 => "9",
        10 => "a",
        11 => "b",
        12 => "c",
        13 => "d",
        14 => "e",
        _ => "f",
    }
}

/// Appends the numeral of `n` to base `radix`.
pub fn push_numeral(out: &mut String, n: u128, radix: u128)
    requires
        2 <= radix <= 16,
    ensures
        final(out)@ == old(out)@ + numeral(n as nat, radix as nat),
    decreases n,
{
    if n >= radix {
        proof {
            lemma_div_shrinks(n as nat, radix as nat);
        }
        push_numeral(out, n / radix, radix);
    }
    out.append(digit_str((n % radix) as u8));
    proof {
        if n < radix {
            assert(n % radix == n) by (nonlinear_arith)
                requires
                    n < radix,
            ;
        }
        assert(out@ =~= old(out)@ + numeral(n as nat, radix as nat));
    }
}

/// Appends the decimal numeral of `n`.
pub fn push_decimal(out: &mut String, n: u128)
    ensures
        final(out)@ == old(out)@ + decimal(n as nat),
{
    push_numeral(out, n, 10);
}

/// The 32 hexadecimal digits of a session key.
pub fn session_key_text(key: u128) -> (r: String)
    ensures
        r@ == key_text(key),
{
    let mut digits = String::new();
    push_numeral(&mut digits, key, 16);
    let len = digits.as_str().unicode_len();
    let mut out = String::new();
    let mut i: usize = len;
    proof {
        reveal_strlit("0");
    }
    while i < 32
        invariant
            len <= i,
            len < 32 ==> i <= 32,
            len >= 32 ==> i == len,
            out@ == Seq::new((i - len) as nat, |k: int| '0'),
        decreases 32 - i,
    {
        proof {
            reveal_strlit("0");
        }
        out.append("0");
        i = i + 1;
        assert(out@ =~= Seq::new((i - len) as nat, |k: int| '0'));
    }
    out.append(digits.as_str());
    assert(out@ =~= key_text(key));
    out
}

fn digit_of(c: char, radix: u128) -> (r: Option<u128>)
    requires
        2 <= radix <= 36,
    ensures
        match r {
            Some(v) => digit_value(c, radix as nat) == Some(v as nat) && v < radix,
            None => digit_value(c, radix as nat) is None,
        },
{
    let code = c as u32;
    let v: u32 = if 48 <= code && code <= 57 {
        code - 48
    } else if 97 <= code && code <= 122 {
        code - 87
    } else if 65 <= code && code <= 90 {
        code - 55
    } else {
        radix as u32
    };
    if (v as u128) < radix {
        Some(v as u128)
    } else {
        None
    }
}

/// Reads a number as `str::parse` and `from_str_radix` do for unsigned types.
pub fn parse_number(s: &str, radix: u128, max: u128) -> (r: Option<u128>)
    requires
        2 <= radix <= 36,
    ensures
        match r {
            Some(v) => parsed(s@, radix as nat, max as nat) == Some(v as nat),
            None => parsed(s@, radix as nat, max as nat) is None,
        },
{
    let len = s.unicode_len();
    let mut start: usize = 0;
    if len > 0 && s.get_char(0) == '+' {
        start = 1;
    }
    let ghost digits = unsigned_part(s@);
    assert(digits =~= s@.skip(start as int));
    if start == len {
        return None;
    }
    let mut value: u128 = 0;
    let mut i: usize = start;
    while i < len
        invariant
            2 <= radix <= 36,
            start <= i <= len,
            len == s@.len(),
            digits == s@.skip(start as int),
            digits == unsigned_part(s@),
            value <= max,
            digits_value(digits.take(i - start), radix as nat) == Some(value as nat),
        decreases len - i,
    {
        let ghost k = i - start;
        assert(digits.take(k + 1).drop_last() =~= digits.take(k));
        assert(digits.take(k + 1).last() == s@[i as int]);
        let d = digit_of(s.get_char(i), radix);
        match d {
            None => {
                proof {
                    lemma_prefix_of_digits(digits, k + 1, radix as nat);
                }
                return None;
            },
            Some(d) => {
                let scaled = value.checked_mul(radix);
                let next = match scaled {
                    Some(m) => m.checked_add(d),
                    None => None,
                };
                match next {
                    Some(n) if n <= max => {
                        value = n;
                    },
                    _ => {
                        proof {
                            lemma_prefix_of_digits(digits, k + 1, radix as nat);
                        }
                        return None;
                    },
                }
            },
        }
        i = i + 1;
    }
    assert(digits.take(len - start) =~= digits);
    Some(value)
}

/// A prefix that is no number, or a larger one, settles the whole run of digits.
proof fn lemma_prefix_of_digits(s: Seq<char>, k: int, radix: nat)
    requires
        0 <= k <= s.len(),
        radix >= 1,
    ensures
        digits_value(s.take(k), radix) is None ==> digits_value(s, radix) is None,
        digits_value(s.take(k), radix) is Some && digits_value(s, radix) is Some ==> digits_value(
            s.take(k),
            radix,
        )->0 <= digits_value(s, radix)->0,
    decreases s.len(),
{
    if k == s.len() {
        assert(s.take(k) =~= s);
    } else {
        lemma_prefix_of_digits(s.drop_last(), k, radix);
        assert(s.drop_last().take(k) =~= s.take(k));
        if digits_value(s, radix) is Some {
            let v = digits_value(s.drop_last(), radix)->0;
            assert(v <= v * radix) by (nonlinear_arith)
                requires
                    radix >= 1,
            ;
        }
    }
}

/// Reading a numeral gives back the number that it was written from.
pub proof fn law_parsed_numeral(n: nat, radix: nat, max: nat)
    requires
        2 <= radix <= 16,
        n <= max,
    ensures
        parsed(numeral(n, radix), radix, max) == Some(n),
{
    lemma_numeral_value(n, radix);
}

proof fn lemma_numeral_value(n: nat, radix: nat)
    requires
        2 <= radix <= 16,
    ensures
        numeral(n, radix).len() >= 1,
        numeral(n, radix)[0] != '+',
        digits_value(numeral(n, radix), radix) == Some(n),
        forall|i: int|
            0 <= i < numeral(n, radix).len() ==> #[trigger] numeral(n, radix)[i] != '-'
                && numeral(n, radix)[i] != '+',
    decreases n,
{
    let s = numeral(n, radix);
    if n < radix {
        assert(s.drop_last() =~= Seq::<char>::empty());
        assert(digits_value(s.drop_last(), radix) == Some(0nat));
        assert(digit_value(s.last(), radix) == Some(n));
        assert(0 * radix == 0) by (nonlinear_arith);
    } else {
        lemma_div_shrinks(n, radix);
        lemma_numeral_value(n / radix, radix);
        assert(s.drop_last() =~= numeral(n / radix, radix));
        assert(digit_value(s.last(), radix) == Some(n % radix));
        assert((n / radix) * radix + n % radix == n) by (nonlinear_arith)
            requires
                radix >= 1,
        ;
    }
}

proof fn lemma_leading_zeros(m: nat, s: Seq<char>, radix: nat)
    requires
        2 <= radix <= 16,
    ensures
        digits_value(Seq::new(m, |i: int| '0') + s, radix) == digits_value(s, radix),
    decreases m + s.len(),
{
    let zeros = Seq::new(m, |i: int| '0');
    let t = zeros + s;
    if s.len() > 0 {
        assert(t.drop_last() =~= zeros + s.drop_last());
        lemma_leading_zeros(m, s.drop_last(), radix);
    } else if m > 0 {
        let fewer = (m - 1) as nat;
        assert(t.drop_last() =~= Seq::new(fewer, |i: int| '0') + s);
        lemma_leading_zeros(fewer, s, radix);
        assert(digit_value(t.last(), radix) == Some(0nat));
        assert(0 * radix == 0) by (nonlinear_arith);
    } else {
        assert(t =~= s);
    }
}

/// A session key that is shown to the user and typed in elsewhere is the same key.
pub proof fn law_key_text_parses_back(key: u128)
    ensures
        parsed(key_text(key), 16, u128::MAX as nat) == Some(key as nat),
{
    let s = numeral(key as nat, 16);
    lemma_numeral_value(key as nat, 16);
    if s.len() < 32 {
        lemma_leading_zeros((32 - s.len()) as nat, s, 16);
    }
}

/// Whether `c` is the digit with the value `d`: a decimal digit, or a letter in either
/// case.
pub open spec fn is_digit(c: char, d: int) -> bool {
    if d < 10 {
        c as int == '0' as int + d
    } else {
        c as int == 'a' as int + d - 10 || c as int == 'A' as int + d - 10
    }
}

/// A text is read digit by digit: one digit more multiplies what was read so far by the
/// base and adds the digit. Once the limit is passed, or something was no number, it
/// stays so.
pub proof fn law_one_more_digit(s: Seq<char>, c: char, d: nat, radix: nat, max: nat)
    requires
        2 <= radix <= 36,
        s.len() > 0,
        s != seq!['+'],
        d < radix,
        is_digit(c, d as int),
    ensures
        parsed(s.push(c), radix, max) == match parsed(s, radix, max) {
            Some(v) => if v * radix + d <= max {
                Some(v * radix + d)
            } else {
                None
            },
            None => None,
        },
{
    let digits = unsigned_part(s);
    assert(digits.len() > 0) by {
        if s[0] == '+' && s.len() == 1 {
            assert(s =~= seq!['+']);
        }
    }
    assert(unsigned_part(s.push(c)) =~= digits.push(c));
    assert(digits.push(c).drop_last() =~= digits);
    assert(digit_value(c, radix) == Some(d));
    if let Some(v) = digits_value(digits, radix) {
        assert(v <= v * radix) by (nonlinear_arith)
            requires
                radix >= 1,
        ;
    }
}

/// One digit alone, with or without a plus sign, is its value.
pub proof fn law_single_digit(c: char, d: nat, radix: nat, max: nat)
    requires
        2 <= radix <= 36,
        d < radix,
        d <= max,
        is_digit(c, d as int),
    ensures
        parsed(seq![c], radix, max) == Some(d),
        parsed(seq!['+', c], radix, max) == Some(d),
{
    assert(unsigned_part(seq![c]) =~= seq![c]);
    assert(unsigned_part(seq!['+', c]) =~= seq![c]);
    assert(seq![c].drop_last() =~= Seq::<char>::empty());
    assert(digits_value(Seq::<char>::empty(), radix) == Some(0nat));
    assert(digit_value(c, radix) == Some(d));
    assert(0 * radix == 0) by (nonlinear_arith);
}

/// A text without digits is no number, nor is one with anything but digits in it, apart
/// from a plus sign in front.
pub proof fn law_anything_else_is_no_number(s: Seq<char>, radix: nat, max: nat, i: int)
    requires
        2 <= radix <= 36,
        s.len() == 0 || s == seq!['+'] || (0 <= i < s.len() && (i > 0 || s[0] != '+')
            && forall|d: int| 0 <= d < radix ==> !(#[trigger] is_digit(s[i], d))),
    ensures
        parsed(s, radix, max) is None,
{
    let digits = unsigned_part(s);
    if digits.len() > 0 {
        let k = if s[0] == '+' {
            i - 1
        } else {
            i
        };
        assert(digits[k] == s[i]);
        assert(digit_value(s[i], radix) is None) by {
            if let Some(v) = digit_value(s[i], radix) {
                assert(is_digit(s[i], v as int));
            }
        }
        assert(digits.take(k + 1).last() == s[i]);
        lemma_prefix_of_digits(digits, k + 1, radix);
    }
}

/// A session key is shown as 32 digits, decimal digits and letters from `a` to `f`.
pub proof fn law_key_text_is_hexadecimal(key: u128, i: int)
    requires
        0 <= i < 32,
    ensures
        key_text(key).len() == 32,
        '0' <= key_text(key)[i] <= '9' || 'a' <= key_text(key)[i] <= 'f',
{
    let s = numeral(key as nat, 16);
    lemma_pow1(16);
    lemma_pow_adds(16, 1, 1);
    lemma_pow_adds(16, 2, 2);
    lemma_pow_adds(16, 4, 4);
    lemma_pow_adds(16, 8, 8);
    lemma_pow_adds(16, 16, 16);
    assert(pow(16, 32) > u128::MAX) by (nonlinear_arith)
        requires
            pow(16, 1) == 16,
            pow(16, 2) == pow(16, 1) * pow(16, 1),
            pow(16, 4) == pow(16, 2) * pow(16, 2),
            pow(16, 8) == pow(16, 4) * pow(16, 4),
            pow(16, 16) == pow(16, 8) * pow(16, 8),
            pow(16, 32) == pow(16, 16) * pow(16, 16),
    ;
    lemma_numeral_digits(key as nat, 16, 32);
    if i >= 32 - s.len() {
        assert(key_text(key)[i] == s[i - (32 - s.len())]);
    }
}

proof fn lemma_numeral_digits(n: nat, radix: nat, k: nat)
    requires
        2 <= radix <= 16,
        k >= 1,
        n < pow(radix as int, k),
    ensures
        1 <= numeral(n, radix).len() <= k,
        forall|i: int|
            0 <= i < numeral(n, radix).len() ==> '0' <= #[trigger] numeral(n, radix)[i] <= '9' || 'a'
                <= numeral(n, radix)[i] <= 'f',
    decreases k,
{
    if n >= radix {
        lemma_pow1(radix as int);
        if k == 1 {
            assert(false);
        }
        let fewer = (k - 1) as nat;
        lemma_pow_adds(radix as int, 1, fewer);
        assert(n / radix < pow(radix as int, fewer)) by (nonlinear_arith)
            requires
                n < radix * pow(radix as int, fewer),
                radix >= 2,
        ;
        lemma_numeral_digits(n / radix, radix, fewer);
        assert(0 <= n % radix < radix) by (nonlinear_arith)
            requires
                radix >= 2,
        ;
    }
}

/// A numeral consists of decimal digits and, above nine, of small letters, and has no
/// zero in front unless it is zero.
pub proof fn law_numeral_is_plain(n: nat, radix: nat, i: int)
    requires
        2 <= radix <= 16,
        0 <= i < numeral(n, radix).len(),
    ensures
        '0' <= numeral(n, radix)[i] <= '9' || (radix > 10 && 'a' <= numeral(n, radix)[i] <= 'f'),
        n > 0 ==> numeral(n, radix)[0] != '0',
        n == 0 ==> numeral(n, radix) == seq!['0'],
    decreases n,
{
    if n >= radix {
        lemma_div_shrinks(n, radix);
        assert(n / radix > 0) by (nonlinear_arith)
            requires
                2 <= radix <= n,
        ;
        assert(0 <= n % radix < radix) by (nonlinear_arith)
            requires
                radix >= 2,
        ;
        lemma_numeral_value(n / radix, radix);
        law_numeral_is_plain(
            n / radix,
            radix,
            if i < numeral(n / radix, radix).len() {
                i
            } else {
                0
            },
        );
    } else {
        assert(numeral(n, radix) =~= seq![digit_char(n as int)]);
    }
}

/// Different numbers have different numerals.
pub proof fn law_numeral_injective(a: nat, b: nat, radix: nat)
    requires
        2 <= radix <= 16,
        numeral(a, radix) == numeral(b, radix),
    ensures
        a == b,
{
    lemma_numeral_value(a, radix);
    lemma_numeral_value(b, radix);
}

/// A numeral followed by a dash reads in one way only.
pub proof fn lemma_numeral_then_dash(a: nat, x: Seq<char>, b: nat, y: Seq<char>)
    requires
        decimal(a) + seq!['-'] + x == decimal(b) + seq!['-'] + y,
    ensures
        a == b,
        x == y,
{
    lemma_numeral_value(a, 10);
    lemma_numeral_value(b, 10);
    let p = decimal(a);
    let q = decimal(b);
    let s = p + seq!['-'] + x;
    let t = q + seq!['-'] + y;
    assert(s[p.len() as int] == '-');
    assert(t[q.len() as int] == '-');
    if p.len() < q.len() {
        assert(t[p.len() as int] == q[p.len() as int]);
    } else if q.len() < p.len() {
        assert(s[q.len() as int] == p[q.len() as int]);
    }
    assert(p =~= s.take(p.len() as int));
    assert(q =~= t.take(q.len() as int));
    assert(x =~= s.skip(p.len() as int + 1));
    assert(y =~= t.skip(q.len() as int + 1));
}

/// The characters with the Unicode property White_Space.
pub open spec fn is_space(c: char) -> bool {
    let n = c as int;
    ||| 0x9 <= n <= 0xd
    ||| n == 0x20
    ||| n == 0x85
    ||| n == 0xa0
    ||| n == 0x1680
    ||| 0x2000 <= n <= 0x200a
    ||| n == 0x2028
    ||| n == 0x2029
    ||| n == 0x202f
    ||| n == 0x205f
    ||| n == 0x3000
}

/// White space are the blank, the tabulators and line ends, and the spaces and separators
/// of other scripts and of typesetting.
pub proof fn law_white_space(c: char)
    ensures
        is_space(c) <==> {
            ||| c == ' ' || c == '\t' || c == '\n' || c == '\r' || c == '\u{b}' || c == '\u{c}'
            ||| c == '\u{85}' || c == '\u{a0}' || c == '\u{1680}' || c == '\u{202f}'
            ||| c == '\u{205f}' || c == '\u{3000}' || c == '\u{2028}' || c == '\u{2029}'
            ||| '\u{2000}' <= c <= '\u{200a}'
        },
{
}

/// The text without white space at its beginning and at its end.
pub open spec fn trimmed(s: Seq<char>) -> Seq<char>
    decreases s.len(),
{
    if s.len() == 0 {
        s
    } else if is_space(s[0]) {
        trimmed(s.skip(1))
    } else if is_space(s.last()) {
        trimmed(s.drop_last())
    } else {
        s
    }
}

fn is_space_char(c: char) -> (r: bool)
    ensures
        r == is_space(c),
{
    let n = c as u32;
    (0x9 <= n && n <= 0xd) || n == 0x20 || n == 0x85 || n == 0xa0 || n == 0x1680 || (0x2000 <= n
        && n <= 0x200a) || n == 0x2028 || n == 0x2029 || n == 0x202f || n == 0x205f || n == 0x3000
}

/// Removes white space from the beginning and the end of a text.
pub fn trim(s: &str) -> (r: String)
    ensures
        r@ == trimmed(s@),
{
    let mut from: usize = 0;
    let mut to: usize = s.unicode_len();
    assert(s@.subrange(0, s@.len() as int) =~= s@);
    while from < to && is_space_char(s.get_char(from))
        invariant
            from <= to == s@.len(),
            trimmed(s@.subrange(from as int, to as int)) == trimmed(s@),
        decreases to - from,
    {
        assert(s@.subrange(from as int, to as int).skip(1) =~= s@.subrange(
            from + 1,
            to as int,
        ));
        from = from + 1;
    }
    while from < to && is_space_char(s.get_char(to - 1))
        invariant
            from <= to <= s@.len(),
            from < to ==> !is_space(s@[from as int]),
            trimmed(s@.subrange(from as int, to as int)) == trimmed(s@),
        decreases to - from,
    {
        assert(s@.subrange(from as int, to as int).drop_last() =~= s@.subrange(
            from as int,
            to - 1,
        ));
        to = to - 1;
    }
    s.substring_char(from, to).to_owned()
}

/// A trimmed text is a part of the text that neither begins nor ends with white space,
/// and nothing but white space was taken off.
#[verifier::spinoff_prover]
pub proof fn law_trimmed(s: Seq<char>) -> (r: (int, int))
    ensures
        0 <= r.0 <= r.1 <= s.len(),
        trimmed(s) == s.subrange(r.0, r.1),
        forall|i: int| 0 <= i < r.0 ==> is_space(#[trigger] s[i]),
        forall|i: int| r.1 <= i < s.len() ==> is_space(#[trigger] s[i]),
        r.0 < r.1 ==> !is_space(s[r.0]) && !is_space(s[r.1 - 1]),
    decreases s.len(),
{
    if s.len() == 0 {
        assert(s.subrange(0, 0) =~= s);
        (0, 0)
    } else if is_space(s[0]) {
        let t = s.skip(1);
        let (a, b) = law_trimmed(t);
        assert(t.subrange(a, b) =~= s.subrange(a + 1, b + 1));
        assert forall|i: int| 0 <= i < a + 1 implies is_space(#[trigger] s[i]) by {
            if i > 0 {
                assert(s[i] == t[i - 1]);
            }
        }
        assert forall|i: int| b + 1 <= i < s.len() implies is_space(#[trigger] s[i]) by {
            assert(s[i] == t[i - 1]);
        }
        (a + 1, b + 1)
    } else if is_space(s.last()) {
        let t = s.drop_last();
        let (a, b) = law_trimmed(t);
        assert(t.subrange(a, b) =~= s.subrange(a, b));
        assert forall|i: int| 0 <= i < a implies is_space(#[trigger] s[i]) by {
            assert(s[i] == t[i]);
        }
        assert forall|i: int| b <= i < s.len() implies is_space(#[trigger] s[i]) by {
            if i < t.len() {
                assert(s[i] == t[i]);
            }
        }
        (a, b)
    } else {
        assert(s.subrange(0, s.len() as int) =~= s);
        (0, s.len() as int)
    }
}

} // verus!
