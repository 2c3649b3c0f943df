//! Reading a numeric setting from the parsed configuration.
use vstd::prelude::*;
use vstd::string::StrSliceExecFns;

verus! {

/// Why a setting could not be read.
#[derive(Debug, Clone, Copy, PartialEq, Eq, Structural)]
pub enum ParseError {
    /// The value is not a number of the expected kind.
    ErrorCantParseValue,
    /// No setting has the name.
    ErrorReadableError,
}

/// All characters are decimal digits, and there is at least one.
pub open spec fn is_decimal(s: Seq<char>) -> bool {
    s.len() > 0 && forall|i: int| 0 <= i < s.len() ==> '0' <= #[trigger] s[i] <= '9'
}

/// The number that the decimal digits `s` write.
pub open spec fn decimal_value(s: Seq<char>) -> nat
    decreases s.len(),
{
    if s.len() == 0 {
        0
    } else {
        decimal_value(s.drop_last()) * 10 + (s.last() as nat - '0' as nat) as nat
    }
}

/// The position of the first setting named `name`, if there is one.
pub open spec fn first_named(settings: Seq<(String, String)>, name: Seq<char>) -> Option<int> {
    if exists|i: int| 0 <= i < settings.len() && (#[trigger] settings[i]).0@ == name {
        Some(
            choose|i: int|
                0 <= i < settings.len() && (#[trigger] settings[i]).0@ == name && forall|j: int|
                    0 <= j < i ==> (#[trigger] settings[j]).0@ != name,
        )
    } else {
        None
    }
}

fn same_text(a: &str, b: &str) -> (r: bool)
    ensures
        r == (a@ == b@),
{
    let n = a.unicode_len();
    if n != b.unicode_len() {
        return false;
    }
    let mut i: usize = 0;
    while i < n
        invariant
            n == a@.len() == b@.len(),
            i <= n,
            forall|j: int| 0 <= j < i ==> a@[j] == b@[j],
        decreases n - i,
    {
        if a.get_char(i) != b.get_char(i) {
            return false;
        }
        i = i + 1;
    }
    assert(a@ =~= b@);
    true
}

/// The digits of an unsigned number as text: an optional leading `+`
/// comes off.
pub open spec fn unsigned_digits(s: Seq<char>) -> Seq<char> {
    if s.len() > 0 && s[0] == '+' {
        s.drop_first()
    } else {
        s
    }
}

/// The unsigned decimal number that `s` writes, with an optional leading
/// `+`, if it fits a `u64`.
pub fn parse_decimal(s: &str) -> (r: Option<u64>)
    ensures
        r is Some <==> is_decimal(unsigned_digits(s@)) && decimal_value(unsigned_digits(s@))
            <= u64::MAX,
        r matches Some(v) ==> v == decimal_value(unsigned_digits(s@)),
{
    let n = s.unicode_len();
    let start: usize = if n > 0 && s.get_char(0) == '+' {
        1
    } else {
        0
    };
    let ghost digits = s@.subrange(start as int, n as int);
    assert(digits =~= unsigned_digits(s@));
    if n == start {
        return None;
    }
    let mut acc: u64 = 0;
    let mut i: usize = start;
    while i < n
        invariant
            n == s@.len(),
            start <= i <= n,
            digits == s@.subrange(start as int, n as int),
            digits == unsigned_digits(s@),
            acc == decimal_value(s@.subrange(start as int, i as int)),
            is_decimal(s@.subrange(start as int, i as int)) || i == start,
        decreases n - i,
    {
        let c = s.get_char(i);
        assert(s@.subrange(start as int, i + 1).drop_last() =~= s@.subrange(start as int, i as int));
        if c < '0' || c > '9' {
            assert(digits[i - start] == c);
            assert(!is_decimal(digits)) by {
                assert(!('0' <= digits[i - start] <= '9'));
            }
            return None;
        }
        let d = (c as u32 - '0' as u32) as u64;
        if acc > (u64::MAX - d) / 10 {
            proof {
                assert(acc * 10 + d > u64::MAX) by (nonlinear_arith)
                    requires
                        acc > (u64::MAX - d) / 10,
                        d <= 9,
                ;
                let pre = s@.subrange(start as int, i + 1);
                assert(pre.last() == c);
                assert(decimal_value(pre) == acc * 10 + d);
                if is_decimal(digits) {
                    lemma_decimal_prefix_bound(digits, i - start + 1);
                    assert(digits.subrange(0, i - start + 1) =~= s@.subrange(start as int, i + 1));
                }
            }
            return None;
        }
        acc = acc * 10 + d;
        i = i + 1;
    }
    assert(s@.subrange(start as int, n as int) =~= digits);
    Some(acc)
}

/// A decimal number is at least the number that its first `k` digits write.
proof fn lemma_decimal_prefix_bound(s: Seq<char>, k: int)
    requires
        0 <= k <= s.len(),
        forall|i: int| 0 <= i < s.len() ==> '0' <= #[trigger] s[i] <= '9',
    ensures
        decimal_value(s) >= decimal_value(s.subrange(0, k)),
    decreases s.len(),
{
    if s.len() > k {
        assert(s.drop_last().subrange(0, k) =~= s.subrange(0, k));
        lemma_decimal_prefix_bound(s.drop_last(), k);
    } else {
        assert(s.subrange(0, k) =~= s);
    }
}

/// The value of the first setting named `name`, read as an unsigned decimal
/// number with an optional leading `+`.
pub fn deserialize(name: &str, settings: &Vec<(String, String)>) -> (r: Result<u64, ParseError>)
    ensures
        first_named(settings@, name@) is None <==> r == Err::<u64, ParseError>(
            ParseError::ErrorReadableError,
        ),
        first_named(settings@, name@) matches Some(i) ==> ({
            let v = unsigned_digits(settings@[i].1@);
            if is_decimal(v) && decimal_value(v) <= u64::MAX {
                r == Ok::<u64, ParseError>(decimal_value(v) as u64)
            } else {
                r == Err::<u64, ParseError>(ParseError::ErrorCantParseValue)
            }
        }),
{
    let mut i: usize = 0;
    while i < settings.len()
        invariant
            i <= settings@.len(),
            forall|j: int| 0 <= j < i ==> (#[trigger] settings@[j]).0@ != name@,
        decreases settings@.len() - i,
    {
        if same_text(settings[i].0.as_str(), name) {
            let ghost f = first_named(settings@, name@);
            assert(f == Some(i as int)) by {
                let c = choose|c: int|
                    0 <= c < settings@.len() && (#[trigger] settings@[c]).0@ == name@ && forall|j: int|
                        0 <= j < c ==> (#[trigger] settings@[j]).0@ != name@;
                assert(0 <= i < settings@.len() && settings@[i as int].0@ == name@);
                if c < i {
                } else if c > i {
                    assert(settings@[i as int].0@ != name@);
                }
            }
            return match parse_decimal(settings[i].1.as_str()) {
                Some(v) => Ok(v),
                None => Err(ParseError::ErrorCantParseValue),
            };
        }
        i = i + 1;
    }
    Err(ParseError::ErrorReadableError)
}

} // verus!
