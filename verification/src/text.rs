//! Plain text: comparison, trimming, and numbers and bytes read from text.

use vstd::arithmetic::power::*;
use vstd::prelude::*;

verus! {

/// The bytes of a text.
pub open spec fn utf8(s: Seq<char>) -> Seq<u8> {
    vstd::utf8::encode_utf8(s)
}

/// Whether two texts are the same.
pub fn same_text(a: &str, b: &str) -> (r: bool)
    ensures
        r == (a@ == b@),
{
    let x = a.as_bytes();
    let y = b.as_bytes();
    proof {
        vstd::utf8::encode_utf8_decode_utf8(a@);
        vstd::utf8::encode_utf8_decode_utf8(b@);
    }
    if x.len() != y.len() {
        return false;
    }
    for i in 0..x.len()
        invariant
            x@.len() == y@.len(),
            x@ == utf8(a@),
            y@ == utf8(b@),
            forall|j: int| 0 <= j < i ==> x@[j] == y@[j],
    {
        if x[i] != y[i] {
            return false;
        }
    }
    assert(x@ =~= y@);
    true
}

/// Whether an optional text is there and is the given one.
pub fn is_text(a: Option<&str>, b: &str) -> (r: bool)
    ensures
        r == (a matches Some(s) && s@ == b@),
{
    match a {
        Some(s) => same_text(s, b),
        None => false,
    }
}

/// The characters that have the Unicode property `White_Space`.
pub open spec fn is_space(c: char) -> bool {
    let u = c as u32;
    ||| 0x9 <= u <= 0xd
    ||| u == 0x20
    ||| u == 0x85
    ||| u == 0xa0
    ||| u == 0x1680
    ||| 0x2000 <= u <= 0x200a
    ||| 0x2028 <= u <= 0x2029
    ||| u == 0x202f
    ||| u == 0x205f
    ||| u == 0x3000
}

/// The text without the white space it begins with.
pub open spec fn trimmed_start(s: Seq<char>) -> Seq<char>
    decreases s.len(),
{
    if s.len() > 0 && is_space(s[0]) {
        trimmed_start(s.drop_first())
    } else {
        s
    }
}

/// The text without the white space it ends with.
pub open spec fn trimmed_end(s: Seq<char>) -> Seq<char>
    decreases s.len(),
{
    if s.len() > 0 && is_space(s.last()) {
        trimmed_end(s.drop_last())
    } else {
        s
    }
}

/// `str::trim`. Claims that white space, which is what has the Unicode property
/// of that name, is taken away at both ends and nothing else.
#[verifier::external_body]
pub(crate) fn trim(s: &str) -> (r: &str)
    ensures
        r@ == trimmed_end(trimmed_start(s@)),
{
    s.trim()
}

/// The number that a hexadecimal digit of either case stands for.
pub open spec fn hex_digit(b: u8) -> Option<int> {
    if 0x30 <= b <= 0x39 {
        Some(b - 0x30)
    } else if 0x41 <= b <= 0x46 {
        Some(b - 0x41 + 10)
    } else if 0x61 <= b <= 0x66 {
        Some(b - 0x61 + 10)
    } else {
        None
    }
}

/// The bytes are hexadecimal digits up to `n`.
pub open spec fn hex_digits(s: Seq<u8>, n: int) -> bool {
    forall|i: int| 0 <= i < n ==> hex_digit(#[trigger] s[i]) is Some
}

/// The bytes that pairs of hexadecimal digits stand for.
pub open spec fn hex_bytes(s: Seq<u8>) -> Seq<u8> {
    Seq::new(
        s.len() / 2,
        |i: int| (16 * hex_digit(s[2 * i])->0 + hex_digit(s[2 * i + 1])->0) as u8,
    )
}

/// Why a text is not the hexadecimal form of bytes.
#[derive(Clone, Copy, Debug, PartialEq, Eq, Structural)]
pub enum HexError {
    /// A byte that is no digit, as a character, and where it stands.
    InvalidHexCharacter { c: char, index: usize },
    /// The number of digits is odd.
    OddLength,
    /// The number of digits does not fit a container of fixed size.
    InvalidStringLength,
}

/// `hex::decode` of a text. Claims that it fails on an odd number of bytes, then
/// on the first byte that is no digit, and otherwise gives the bytes that the
/// pairs of digits stand for.
#[verifier::external_body]
pub(crate) fn hex_decode(s: &str) -> (r: Result<Vec<u8>, HexError>)
    ensures
        match r {
            Ok(v) => utf8(s@).len() % 2 == 0 && hex_digits(
                utf8(s@),
                utf8(s@).len() as int,
            ) && v@ == hex_bytes(utf8(s@)),
            Err(HexError::OddLength) => utf8(s@).len() % 2 == 1,
            Err(HexError::InvalidHexCharacter { c, index }) => utf8(s@).len() % 2 == 0
                && index < utf8(s@).len() && hex_digits(utf8(s@), index as int)
                && hex_digit(utf8(s@)[index as int]) is None && c as u32
                == utf8(s@)[index as int] as u32,
            Err(HexError::InvalidStringLength) => false,
        },
{
    match hex::decode(s) {
        Ok(v) => Ok(v),
        Err(hex::FromHexError::OddLength) => Err(HexError::OddLength),
        Err(hex::FromHexError::InvalidStringLength) => Err(HexError::InvalidStringLength),
        Err(hex::FromHexError::InvalidHexCharacter { c, index }) => {
            Err(HexError::InvalidHexCharacter { c, index })
        },
    }
}

/// The number that decimal digits stand for.
pub open spec fn decimal_value(s: Seq<u8>) -> int
    decreases s.len(),
{
    if s.len() == 0 {
        0
    } else {
        decimal_value(s.drop_last()) * 10 + (s.last() - 0x30)
    }
}

/// All bytes are decimal digits.
pub open spec fn decimal_digits(s: Seq<u8>) -> bool {
    forall|i: int| 0 <= i < s.len() ==> 0x30 <= #[trigger] s[i] <= 0x39
}

/// The text without a plus sign in front.
pub open spec fn unsigned_part(s: Seq<u8>) -> Seq<u8> {
    if s.len() > 0 && s[0] == 0x2b {
        s.drop_first()
    } else {
        s
    }
}

/// The number that a text stands for: at least one decimal digit, perhaps behind
/// a plus sign, and no more than a `usize` holds.
pub open spec fn parsed_usize(s: Seq<u8>) -> Option<usize> {
    let d = unsigned_part(s);
    if d.len() > 0 && decimal_digits(d) && decimal_value(d) <= usize::MAX {
        Some(decimal_value(d) as usize)
    } else {
        None
    }
}

proof fn lemma_decimal_monotonic(s: Seq<u8>, n: int)
    requires
        decimal_digits(s),
        0 <= n <= s.len(),
    ensures
        0 <= decimal_value(s.take(n)) <= decimal_value(s),
    decreases s.len(),
{
    if n == s.len() {
        assert(s.take(n) =~= s);
        if n > 0 {
            assert forall|i: int| 0 <= i < s.drop_last().len() implies 0x30
                <= #[trigger] s.drop_last()[i] <= 0x39 by {
                assert(0x30 <= s[i] <= 0x39);
            }
            lemma_decimal_monotonic(s.drop_last(), n - 1);
            assert(0x30 <= s[n - 1] <= 0x39);
        }
    } else {
        let t = s.drop_last();
        assert forall|i: int| 0 <= i < t.len() implies 0x30 <= #[trigger] t[i] <= 0x39 by {
            assert(0x30 <= s[i] <= 0x39);
        }
        lemma_decimal_monotonic(t, n);
        assert(t.take(n) =~= s.take(n));
        assert(0x30 <= s[s.len() - 1] <= 0x39);
    }
}

/// Read a number.
pub fn parse_usize(text: &str) -> (r: Option<usize>)
    ensures
        r == parsed_usize(utf8(text@)),
        r matches Some(v) ==> {
            let b = utf8(text@);
            let d = if b[0] == 0x2b {
                b.skip(1)
            } else {
                b
            };
            &&& d.len() > 0
            &&& forall|i: int| 0 <= i < d.len() ==> 0x30 <= #[trigger] d[i] <= 0x39
            &&& v == decimal_value(d)
        },
{
    let b = text.as_bytes();
    let start: usize = if b.len() > 0 && b[0] == 0x2b {
        1
    } else {
        0
    };
    let ghost d = unsigned_part(b@);
    assert(d =~= b@.skip(start as int));
    let n = b.len();
    if start == n {
        return None;
    }
    let mut value: usize = 0;
    for i in start..n
        invariant
            start <= n,
            n == b@.len(),
            d == b@.skip(start as int),
            d == unsigned_part(b@),
            b@ == utf8(text@),
            decimal_digits(d.take(i - start)),
            value == decimal_value(d.take(i - start)),
    {
        let c = b[i];
        assert(d[i - start] == c);
        if c < 0x30 || c > 0x39 {
            return None;
        }
        let ghost next = d.take(i - start + 1);
        proof {
            assert(next.drop_last() =~= d.take(i - start));
            assert forall|j: int| 0 <= j < next.len() implies 0x30 <= #[trigger] next[j] <= 0x39 by {
                if j < i - start {
                    assert(0x30 <= d.take(i - start)[j] <= 0x39);
                }
            }
            if decimal_digits(d) {
                lemma_decimal_monotonic(d, i - start + 1);
            }
        }
        let shifted = match value.checked_mul(10) {
            Some(x) => x,
            None => {
                return None;
            },
        };
        value = match shifted.checked_add((c - 0x30) as usize) {
            Some(x) => x,
            None => {
                return None;
            },
        };
    }
    assert(d.take(n - start) =~= d);
    assert(d =~= if b@[0] == 0x2b {
        b@.skip(1)
    } else {
        b@
    });
    assert forall|i: int| 0 <= i < d.len() implies 0x30 <= #[trigger] d[i] <= 0x39 by {
        assert(0x30 <= d.take(n - start)[i] <= 0x39);
    }
    Some(value)
}

/// A digit stands for its distance from zero, and digits in front of others for as many
/// times the power of ten that these take.
pub proof fn law_decimal_value(a: Seq<u8>, b: Seq<u8>, d: u8)
    ensures
        decimal_value(seq![]) == 0,
        decimal_value(seq![d]) == d - 0x30,
        decimal_value(a + b) == decimal_value(a) * pow(10, b.len()) + decimal_value(b),
    decreases b.len(),
{
    reveal(pow);
    reveal_with_fuel(decimal_value, 2);
    assert(seq![d].drop_last() =~= seq![]);
    if b.len() == 0 {
        assert(a + b =~= a);
    } else {
        let c = b.drop_last();
        law_decimal_value(a, c, d);
        assert((a + b).drop_last() =~= a + c);
        let x = decimal_value(a);
        let q = pow(10, c.len());
        let y = decimal_value(c);
        let z = b.last() - 0x30;
        assert((x * q + y) * 10 + z == x * (10 * q) + (y * 10 + z)) by (nonlinear_arith);
    }
}

/// Digits that fit into a `usize` are read as their value, with or without a plus sign in
/// front; an empty text, a lone plus sign, any other byte and a value that is too large are
/// refused.
pub proof fn law_parsed_usize(s: Seq<u8>, i: int)
    ensures
        parsed_usize(seq![]) is None,
        parsed_usize(seq![0x2bu8]) is None,
        s.len() > 0 && s[0] != 0x2b ==> parsed_usize(seq![0x2bu8] + s) == parsed_usize(s),
        s.len() > 0 && decimal_digits(s) ==> match parsed_usize(s) {
            Some(v) => v == decimal_value(s),
            None => decimal_value(s) > usize::MAX,
        },
        0 < i < s.len() && !(0x30 <= s[i] <= 0x39) ==> parsed_usize(s) is None,
        s.len() > 0 && s[0] != 0x2b && !(0x30 <= s[0] <= 0x39) ==> parsed_usize(s) is None,
{
    if s.len() > 0 && s[0] != 0x2b {
        let t = seq![0x2bu8] + s;
        assert(t.drop_first() =~= s);
    }
    if s.len() > 0 && decimal_digits(s) {
        assert(0x30 <= s[0] <= 0x39);
        lemma_decimal_monotonic(s, 0);
    }
    if 0 < i < s.len() && !(0x30 <= s[i] <= 0x39) {
        let d = unsigned_part(s);
        if s[0] == 0x2b {
            assert(d[i - 1] == s[i]);
        } else {
            assert(d[i] == s[i]);
        }
    }
}

/// Trimming takes white space from both ends, all of it, and nothing else.
pub proof fn law_trimmed(s: Seq<char>) -> (k: (int, int))
    ensures
        0 <= k.0 <= k.1 <= s.len(),
        trimmed_end(trimmed_start(s)) == s.subrange(k.0, k.1),
        forall|i: int| 0 <= i < k.0 ==> is_space(#[trigger] s[i]),
        forall|i: int| k.1 <= i < s.len() ==> is_space(#[trigger] s[i]),
        k.0 < k.1 ==> !is_space(s[k.0]) && !is_space(s[k.1 - 1]),
{
    let a = lemma_trimmed_start(s);
    let t = trimmed_start(s);
    let n = lemma_trimmed_end(t);
    assert(t.take(n) =~= s.subrange(a, a + n));
    assert forall|i: int| a + n <= i < s.len() implies is_space(#[trigger] s[i]) by {
        assert(t[i - a] == s[i]);
    }
    if n > 0 {
        assert(t[0] == s[a]);
        assert(t[n - 1] == s[a + n - 1]);
    }
    (a, a + n)
}

proof fn lemma_trimmed_start(s: Seq<char>) -> (k: int)
    ensures
        0 <= k <= s.len(),
        trimmed_start(s) == s.skip(k),
        forall|i: int| 0 <= i < k ==> is_space(#[trigger] s[i]),
        k < s.len() ==> !is_space(s[k]),
    decreases s.len(),
{
    if s.len() > 0 && is_space(s[0]) {
        let t = s.drop_first();
        let k = lemma_trimmed_start(t);
        assert(t.skip(k) =~= s.skip(k + 1));
        assert forall|i: int| 0 <= i < k + 1 implies is_space(#[trigger] s[i]) by {
            if i > 0 {
                assert(t[i - 1] == s[i]);
            }
        }
        if k < t.len() {
            assert(t[k] == s[k + 1]);
        }
        k + 1
    } else {
        assert(s.skip(0) =~= s);
        0
    }
}

proof fn lemma_trimmed_end(s: Seq<char>) -> (n: int)
    ensures
        0 <= n <= s.len(),
        trimmed_end(s) == s.take(n),
        forall|i: int| n <= i < s.len() ==> is_space(#[trigger] s[i]),
        n > 0 ==> !is_space(s[n - 1]),
    decreases s.len(),
{
    if s.len() > 0 && is_space(s.last()) {
        let t = s.drop_last();
        let n = lemma_trimmed_end(t);
        assert(t.take(n) =~= s.take(n));
        assert forall|i: int| n <= i < s.len() implies is_space(#[trigger] s[i]) by {
            if i < t.len() {
                assert(t[i] == s[i]);
            }
        }
        if n > 0 {
            assert(t[n - 1] == s[n - 1]);
        }
        n
    } else {
        assert(s.take(s.len() as int) =~= s);
        s.len() as int
    }
}

} // verus!
