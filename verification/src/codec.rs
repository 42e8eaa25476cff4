//! Conversions between characters and their hexadecimal code points: `lookup`
//! turns a hexadecimal string into the character it names, `encode` turns a
//! character into its uppercase hexadecimal code, zero-padded to four digits.

use vstd::prelude::*;
use vstd::string::StrSliceExecFns;
use vstd::string::StringExecFns;

verus! {

/// True when `n` is a Unicode scalar value: a code point that is not a
/// surrogate and does not exceed the highest code point.
pub open spec fn is_scalar_value(n: u32) -> bool {
    n < 0xD800 || (0xE000 <= n && n <= 0x10FFFF)
}

/// Checks whether a code point is a Unicode scalar value.
pub fn scalar_value(n: u32) -> (r: bool)
    ensures
        r == is_scalar_value(n),
{
    n < 0xD800 || (0xE000 <= n && n <= 0x10FFFF)
}

/// Relies on char::from_u32 of std: it returns the character of a code point
/// exactly when the code point is a Unicode scalar value.
pub assume_specification[ char::from_u32 ](n: u32) -> (r: Option<char>)
    ensures
        r is Some <==> is_scalar_value(n),
        r is Some ==> r.unwrap() as u32 == n,
;

/// Why a numeric value could not be turned into a character.
#[derive(PartialEq, Eq, Structural, Clone, Copy, Debug)]
pub enum DecodeError {
    /// The input held no digits at all.
    EmptyInput,
    /// The input held a character that is no hexadecimal digit.
    BadDigit { digit: char },
    /// The value does not fit in 32 bits.
    TooLarge,
    /// The value is no Unicode scalar value: a surrogate, or past the last
    /// code point.
    NotScalar { code: u32 },
}

/// True for the sixteen hexadecimal digits, in either case.
pub open spec fn is_hex_digit(c: char) -> bool {
    ('0' <= c && c <= '9') || ('a' <= c && c <= 'f') || ('A' <= c && c <= 'F')
}

/// The numeric value of a hexadecimal digit.
pub open spec fn hex_digit_value(c: char) -> int
    recommends
        is_hex_digit(c),
{
    if '0' <= c && c <= '9' {
        c as int - '0' as int
    } else if 'a' <= c && c <= 'f' {
        c as int - 'a' as int + 10
    } else {
        c as int - 'A' as int + 10
    }
}

/// The value of a string of hexadecimal digits, most significant first.
pub open spec fn hex_value(s: Seq<char>) -> int
    decreases s.len(),
{
    if s.len() == 0 {
        0
    } else {
        16 * hex_value(s.drop_last()) + hex_digit_value(s.last())
    }
}

/// The position of the first character that is no hexadecimal digit, looking
/// from `i` on; the length when all are digits.
pub open spec fn first_bad_from(s: Seq<char>, i: int) -> int
    decreases s.len() - i,
{
    if i < 0 || i >= s.len() {
        i
    } else if !is_hex_digit(s[i]) {
        i
    } else {
        first_bad_from(s, i + 1)
    }
}

proof fn lemma_first_bad_from(s: Seq<char>, i: int)
    requires
        0 <= i <= s.len(),
    ensures
        i <= first_bad_from(s, i) <= s.len(),
        forall|j: int| i <= j < first_bad_from(s, i) ==> is_hex_digit(#[trigger] s[j]),
        first_bad_from(s, i) < s.len() ==> !is_hex_digit(s[first_bad_from(s, i)]),
    decreases s.len() - i,
{
    if i < s.len() && is_hex_digit(s[i]) {
        lemma_first_bad_from(s, i + 1);
    }
}

/// What parsing a hexadecimal string yields: the empty input is refused, then
/// the first non-digit, then a value past 32 bits; otherwise the value.
pub open spec fn parse_hex_spec(s: Seq<char>) -> Result<u32, DecodeError> {
    if s.len() == 0 {
        Err(DecodeError::EmptyInput)
    } else if first_bad_from(s, 0) < s.len() {
        Err(DecodeError::BadDigit { digit: s[first_bad_from(s, 0)] })
    } else if hex_value(s) > u32::MAX {
        Err(DecodeError::TooLarge)
    } else {
        Ok(hex_value(s) as u32)
    }
}

/// The value of a digit string never sinks when digits are appended.
proof fn lemma_hex_value_grows(s: Seq<char>, i: int)
    requires
        0 <= i <= s.len(),
        forall|j: int| 0 <= j < s.len() ==> is_hex_digit(#[trigger] s[j]),
    ensures
        hex_value(s) >= hex_value(s.take(i)),
        hex_value(s) >= 0,
    decreases s.len() - i,
{
    if i == s.len() {
        assert(s.take(i) =~= s);
        lemma_hex_value_nonneg(s);
    } else {
        lemma_hex_value_grows(s, i + 1);
        assert(s.take(i + 1).drop_last() =~= s.take(i));
        assert(s.take(i + 1).last() == s[i]);
        lemma_hex_value_nonneg(s.take(i));
    }
}

proof fn lemma_hex_value_nonneg(s: Seq<char>)
    requires
        forall|j: int| 0 <= j < s.len() ==> is_hex_digit(#[trigger] s[j]),
    ensures
        hex_value(s) >= 0,
    decreases s.len(),
{
    if s.len() > 0 {
        assert(forall|j: int| 0 <= j < s.drop_last().len() ==> is_hex_digit(
            #[trigger] s.drop_last()[j],
        ));
        lemma_hex_value_nonneg(s.drop_last());
    }
}

/// The numeric value of one hexadecimal digit, or nothing.
fn hex_digit_of(c: char) -> (r: Option<u32>)
    ensures
        r is Some <==> is_hex_digit(c),
        r is Some ==> r.unwrap() == hex_digit_value(c) && r.unwrap() < 16,
{
    let n = c as u32;
    if 48 <= n && n <= 57 {
        Some(n - 48)
    } else if 97 <= n && n <= 102 {
        Some(n - 87)
    } else if 65 <= n && n <= 70 {
        Some(n - 55)
    } else {
        None
    }
}

/// Parses a string of hexadecimal digits into a 32-bit code point.
pub fn parse_hex(s: &str) -> (r: Result<u32, DecodeError>)
    ensures
        r == parse_hex_spec(s@),
{
    let n = s.unicode_len();
    if n == 0 {
        return Err(DecodeError::EmptyInput);
    }
    // first pass: refuse the first character that is no digit
    let mut i: usize = 0;
    while i < n
        invariant
            0 <= i <= n,
            n == s@.len(),
            first_bad_from(s@, 0) == first_bad_from(s@, i as int),
            forall|j: int| 0 <= j < i ==> is_hex_digit(#[trigger] s@[j]),
        decreases n - i,
    {
        let c = s.get_char(i);
        if hex_digit_of(c).is_none() {
            return Err(DecodeError::BadDigit { digit: c });
        }
        i = i + 1;
    }
    proof {
        lemma_first_bad_from(s@, 0);
    }
    // second pass: accumulate, refusing a value past 32 bits
    let mut acc: u32 = 0;
    let mut i: usize = 0;
    proof {
        assert(s@.take(0) =~= Seq::<char>::empty());
    }
    while i < n
        invariant
            0 <= i <= n,
            n == s@.len(),
            forall|j: int| 0 <= j < n ==> is_hex_digit(#[trigger] s@[j]),
            first_bad_from(s@, 0) == n,
            acc == hex_value(s@.take(i as int)),
        decreases n - i,
    {
        let c = s.get_char(i);
        let d = match hex_digit_of(c) {
            Some(d) => d,
            None => {
                return Err(DecodeError::TooLarge);  // cannot happen: every character is a digit
            },
        };
        proof {
            assert(s@.take(i as int + 1).drop_last() =~= s@.take(i as int));
            assert(s@.take(i as int + 1).last() == s@[i as int]);
        }
        if acc >= 0x1000_0000 {
            proof {
                lemma_hex_value_grows(s@, i as int + 1);
                lemma_hex_value_nonneg(s@.take(i as int));
            }
            return Err(DecodeError::TooLarge);
        }
        proof {
            lemma_hex_value_nonneg(s@.take(i as int));
        }
        acc = acc * 16 + d;
        i = i + 1;
    }
    proof {
        assert(s@.take(n as int) =~= s@);
    }
    Ok(acc)
}

/// What looking a code up yields: the character of the parsed code point, or
/// why there is none.
pub open spec fn lookup_spec(s: Seq<char>) -> Result<char, DecodeError> {
    match parse_hex_spec(s) {
        Err(e) => Err(e),
        Ok(n) => if is_scalar_value(n) {
            Ok(n as char)
        } else {
            Err(DecodeError::NotScalar { code: n })
        },
    }
}

/// Turns a hexadecimal code point string into the character it names.
/// Surrogates and values past the last code point are refused, never decoded.
pub fn lookup(s: &str) -> (r: Result<char, DecodeError>)
    ensures
        r == lookup_spec(s@),
{
    match parse_hex(s) {
        Err(e) => Err(e),
        Ok(n) => {
            if scalar_value(n) {
                match char::from_u32(n) {
                    Some(c) => {
                        proof {
                            vstd::utf8::char_u32_cast(c, n);
                        }
                        Ok(c)
                    },
                    None => vstd::pervasive::unreached(),
                }
            } else {
                Err(DecodeError::NotScalar { code: n })
            }
        },
    }
}

/// The uppercase hexadecimal digit of a value below sixteen.
pub open spec fn hex_digit_char(d: int) -> char
    recommends
        0 <= d < 16,
{
    if d < 10 {
        (d + ('0' as int)) as char
    } else {
        (d - 10 + ('A' as int)) as char
    }
}

/// The uppercase hexadecimal digits of `n`, most significant first, without
/// leading zeros.
pub open spec fn hex_chars(n: int) -> Seq<char>
    decreases n,
{
    if n < 16 {
        seq![hex_digit_char(n)]
    } else {
        hex_chars(n / 16).push(hex_digit_char(n % 16))
    }
}

/// The hexadecimal code of a code point: uppercase digits, zero-padded on the
/// left to at least four.
pub open spec fn encoded_hex(n: u32) -> Seq<char> {
    let ds = hex_chars(n as int);
    if ds.len() >= 4 {
        ds
    } else {
        Seq::new((4 - ds.len()) as nat, |i: int| '0') + ds
    }
}

/// One uppercase hexadecimal digit as a string.
fn hex_digit_str(d: u32) -> (r: &'static str)
    requires
        d < 16,
    ensures
        r@ =~= seq![hex_digit_char(d as int)],
{
    let r = match d {
        0 => "0",
        1 => "1",
        2 => "2",
        3 => "3",
        4 => "4",
        5 => "5",
        6 => "6",
        7 => "7",
        8 => "8",
        9 => "9",
        10 => "A",
        11 => "B",
        12 => "C",
        13 => "D",
        14 => "E",
        _ => "F",
    };
    proof {
        reveal_strlit("0");
        reveal_strlit("1");
        reveal_strlit("2");
        reveal_strlit("3");
        reveal_strlit("4");
        reveal_strlit("5");
        reveal_strlit("6");
        reveal_strlit("7");
        reveal_strlit("8");
        reveal_strlit("9");
        reveal_strlit("A");
        reveal_strlit("B");
        reveal_strlit("C");
        reveal_strlit("D");
        reveal_strlit("E");
        reveal_strlit("F");
    }
    r
}

/// The digits of `v`, least significant first, read back as the characters of
/// `hex_chars` in reverse.
spec fn digits_reversed(v: Seq<u32>) -> Seq<char> {
    Seq::new(v.len(), |i: int| hex_digit_char(v[v.len() - 1 - i] as int))
}

/// Formats a code point as uppercase hexadecimal, zero-padded on the left to
/// at least four digits.
pub fn encode_code(n: u32) -> (s: String)
    ensures
        s@ == encoded_hex(n),
{
    // collect the digits, least significant first
    let mut v: Vec<u32> = Vec::new();
    let mut m: u32 = n;
    proof {
        assert(hex_chars(n as int) =~= hex_chars(m as int) + digits_reversed(v@));
    }
    loop
        invariant_except_break
            forall|k: int| 0 <= k < v@.len() ==> #[trigger] v@[k] < 16,
            hex_chars(n as int) =~= hex_chars(m as int) + digits_reversed(v@),
        ensures
            forall|k: int| 0 <= k < v@.len() ==> #[trigger] v@[k] < 16,
            v@.len() >= 1,
            hex_chars(n as int) =~= digits_reversed(v@),
        decreases m,
    {
        let ghost pre = v@;
        let d = m % 16;
        v.push(d);
        proof {
            assert(digits_reversed(v@) =~= seq![hex_digit_char(d as int)] + digits_reversed(pre));
        }
        if m < 16 {
            proof {
                assert(hex_chars(m as int) =~= seq![hex_digit_char(m as int)]);
                assert(hex_chars(n as int) =~= digits_reversed(v@));
            }
            break;
        }
        proof {
            assert(hex_chars(m as int) == hex_chars(m as int / 16).push(
                hex_digit_char(m as int % 16),
            ));
            assert(hex_chars(m as int) + digits_reversed(pre) =~= hex_chars((m / 16) as int)
                + digits_reversed(v@));
        }
        m = m / 16;
    }
    // zero-pad to four digits
    while v.len() < 4
        invariant
            forall|k: int| 0 <= k < v@.len() ==> #[trigger] v@[k] < 16,
            v@.len() >= 1,
            encoded_hex(n) =~= if v@.len() >= 4 {
                digits_reversed(v@)
            } else {
                Seq::new((4 - digits_reversed(v@).len()) as nat, |i: int| '0') + digits_reversed(
                    v@,
                )
            },
            digits_reversed(v@).len() >= hex_chars(n as int).len(),
        decreases 4int - v@.len(),
    {
        let ghost pre = v@;
        v.push(0);
        proof {
            assert(hex_digit_char(0) == '0');
            assert(digits_reversed(v@) =~= seq!['0'] + digits_reversed(pre));
            assert(encoded_hex(n) =~= if v@.len() >= 4 {
                digits_reversed(v@)
            } else {
                Seq::new((4 - digits_reversed(v@).len()) as nat, |i: int| '0') + digits_reversed(
                    v@,
                )
            });
        }
    }
    // write the digits out, most significant first
    let mut s = String::new();
    let mut k: usize = v.len();
    while k > 0
        invariant
            0 <= k <= v@.len(),
            forall|j: int| 0 <= j < v@.len() ==> #[trigger] v@[j] < 16,
            s@ =~= digits_reversed(v@).take(v@.len() - k),
        decreases k,
    {
        k = k - 1;
        let ghost pre = s@;
        s.append(hex_digit_str(v[k]));
        proof {
            assert(digits_reversed(v@)[v@.len() - k - 1] == hex_digit_char(v@[k as int] as int));
            assert(s@ =~= digits_reversed(v@).take(v@.len() - k));
        }
    }
    proof {
        assert(digits_reversed(v@).take(v@.len() as int) =~= digits_reversed(v@));
    }
    s
}

/// Formats a character's code point as uppercase hexadecimal, zero-padded on
/// the left to at least four digits.
pub fn encode(c: char) -> (s: String)
    ensures
        s@ == encoded_hex(c as u32),
{
    encode_code(c as u32)
}

/// The digits of a nonnegative value are hexadecimal digits and carry the
/// value back.
proof fn lemma_hex_chars_value(n: int)
    requires
        n >= 0,
    ensures
        hex_chars(n).len() >= 1,
        forall|j: int| 0 <= j < hex_chars(n).len() ==> is_hex_digit(#[trigger] hex_chars(n)[j]),
        hex_value(hex_chars(n)) == n,
    decreases n,
{
    if n < 16 {
        assert(is_hex_digit(hex_digit_char(n)));
        assert(hex_chars(n).drop_last() =~= Seq::<char>::empty());
        assert(hex_chars(n).last() == hex_digit_char(n));
        assert(hex_value(Seq::<char>::empty()) == 0);
        assert(hex_value(hex_chars(n)) == 16 * 0 + hex_digit_value(hex_digit_char(n)));
        assert(hex_digit_value(hex_digit_char(n)) == n);
    } else {
        lemma_hex_chars_value(n / 16);
        let ds = hex_chars(n);
        assert(ds.drop_last() =~= hex_chars(n / 16));
        assert(ds.last() == hex_digit_char(n % 16));
        assert(is_hex_digit(hex_digit_char(n % 16)));
        assert(hex_value(ds) == 16 * (n / 16) + (n % 16));
    }
}

/// A run of zero digits is worth nothing.
proof fn lemma_hex_value_zeros(k: nat)
    ensures
        hex_value(Seq::new(k, |i: int| '0')) == 0,
    decreases k,
{
    if k > 0 {
        let z = Seq::new(k, |i: int| '0');
        assert(z.drop_last() =~= Seq::new((k - 1) as nat, |i: int| '0'));
        lemma_hex_value_zeros((k - 1) as nat);
        assert(hex_digit_value('0') == 0);
    }
}

/// Zero digits on the left leave the value alone.
proof fn lemma_hex_value_pad(k: nat, s: Seq<char>)
    ensures
        hex_value(Seq::new(k, |i: int| '0') + s) == hex_value(s),
    decreases s.len(),
{
    let z = Seq::new(k, |i: int| '0');
    if s.len() == 0 {
        assert(z + s =~= z);
        lemma_hex_value_zeros(k);
    } else {
        assert((z + s).drop_last() =~= z + s.drop_last());
        assert((z + s).last() == s.last());
        lemma_hex_value_pad(k, s.drop_last());
    }
}

/// The hexadecimal code of a code point parses back to the code point.
pub proof fn lemma_encoded_hex_parses(n: u32)
    ensures
        parse_hex_spec(encoded_hex(n)) == Ok::<u32, DecodeError>(n),
{
    let ds = hex_chars(n as int);
    let s = encoded_hex(n);
    lemma_hex_chars_value(n as int);
    if ds.len() >= 4 {
        assert(s == ds);
    } else {
        let k = (4 - ds.len()) as nat;
        assert(s == Seq::new(k, |i: int| '0') + ds);
        lemma_hex_value_pad(k, ds);
        assert(forall|j: int| 0 <= j < s.len() ==> is_hex_digit(#[trigger] s[j])) by {
            assert(forall|j: int| 0 <= j < k ==> s[j] == '0');
            assert(forall|j: int| k <= j < s.len() ==> s[j] == ds[j - k]);
            assert(is_hex_digit('0'));
        };
    }
    lemma_first_bad_from(s, 0);
    assert(first_bad_from(s, 0) == s.len());
    assert(hex_value(s) == n);
}

/// Law: looking up the hexadecimal encoding of any character yields that
/// character back.
pub proof fn lemma_encode_lookup_round_trip(c: char)
    ensures
        lookup_spec(encoded_hex(c as u32)) == Ok::<char, DecodeError>(c),
{
    let n = c as u32;
    lemma_encoded_hex_parses(n);
    vstd::utf8::char_is_scalar(c);
    assert(is_scalar_value(n));
    vstd::utf8::char_u32_cast(c, n);
}

} // verus!
