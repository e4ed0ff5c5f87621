//! Address codec: a bidirectional mapping between the window manager's
//! textual addresses (`"0x"` followed by hex digits) and `u64` ids.

use vstd::prelude::*;
use vstd::string::StrSliceExecFns;

verus! {

/// Why a textual address could not be read as a 64-bit id.
#[derive(Clone, Copy, Debug, PartialEq, Eq, Structural)]
pub enum AddressError {
    /// The text does not begin with `0x`.
    MissingPrefix,
    /// The text is exactly `0x`, with no digits after the prefix.
    NoDigits,
    /// A character after the prefix is not a hexadecimal digit.
    InvalidDigit,
    /// The numeral is valid hex but its value does not fit in 64 bits.
    Overflow,
}

pub open spec fn is_hex_digit(c: char) -> bool {
    (48 <= c as int && c as int <= 57)  // '0' ..= '9'
    || (97 <= c as int && c as int <= 102)  // 'a' ..= 'f'
    || (65 <= c as int && c as int <= 70)  // 'A' ..= 'F'
}

pub open spec fn is_lower_hex_digit(c: char) -> bool {
    (48 <= c as int && c as int <= 57) || (97 <= c as int && c as int <= 102)
}

pub open spec fn hex_digit_value(c: char) -> nat {
    if 48 <= c as int && c as int <= 57 {
        (c as int - 48) as nat
    } else if 97 <= c as int && c as int <= 102 {
        (c as int - 87) as nat
    } else if 65 <= c as int && c as int <= 70 {
        (c as int - 55) as nat
    } else {
        0
    }
}

/// The numeric value of a big-endian sequence of hex digits.
pub open spec fn hex_value(s: Seq<char>) -> nat
    decreases s.len(),
{
    if s.len() == 0 {
        0
    } else {
        hex_value(s.drop_last()) * 16 + hex_digit_value(s.last())
    }
}

pub open spec fn all_hex_digits(s: Seq<char>) -> bool {
    forall|i: int| 0 <= i < s.len() ==> is_hex_digit(#[trigger] s[i])
}

pub open spec fn all_lower_hex_digits(s: Seq<char>) -> bool {
    forall|i: int| 0 <= i < s.len() ==> is_lower_hex_digit(#[trigger] s[i])
}

/// The canonical numeral of a value: at least one digit, lowercase, and no
/// leading zero unless the numeral is exactly `0`.
pub open spec fn is_canonical_hex(s: Seq<char>) -> bool {
    &&& s.len() >= 1
    &&& all_lower_hex_digits(s)
    &&& s.len() > 1 ==> s[0] != '0'
}

pub open spec fn has_hex_prefix(s: Seq<char>) -> bool {
    s.len() >= 2 && s[0] == '0' && s[1] == 'x'
}

/// The digits of an address: everything after the two prefix characters.
pub open spec fn address_digits(s: Seq<char>) -> Seq<char> {
    s.subrange(2, s.len() as int)
}

/// An address the codec accepts: `0x`, at least one digit, all hex, and a
/// value within 64 bits.
pub open spec fn valid_address(s: Seq<char>) -> bool {
    &&& has_hex_prefix(s)
    &&& s.len() > 2
    &&& all_hex_digits(address_digits(s))
    &&& hex_value(address_digits(s)) < 0x1_0000_0000_0000_0000
}

pub open spec fn address_value(s: Seq<char>) -> nat {
    hex_value(address_digits(s))
}

/// The canonical lowercase digit for a value below 16.
pub open spec fn hex_char(d: nat) -> char {
    if d == 0 { '0' } else if d == 1 { '1' } else if d == 2 { '2' }
    else if d == 3 { '3' } else if d == 4 { '4' } else if d == 5 { '5' }
    else if d == 6 { '6' } else if d == 7 { '7' } else if d == 8 { '8' }
    else if d == 9 { '9' } else if d == 10 { 'a' } else if d == 11 { 'b' }
    else if d == 12 { 'c' } else if d == 13 { 'd' } else if d == 14 { 'e' }
    else { 'f' }
}

/// The canonical hex numeral of a value: lowercase, with no superfluous
/// leading zeros (`0` itself is the single digit `0`).
pub open spec fn hex_repr(n: nat) -> Seq<char>
    decreases n,
{
    if n < 16 {
        seq![hex_char(n)]
    } else {
        hex_repr(n / 16).push(hex_char(n % 16))
    }
}

/// The canonical textual address of an id: `0x` followed by its numeral.
pub open spec fn address_repr(n: nat) -> Seq<char> {
    seq!['0', 'x'] + hex_repr(n)
}

pub open spec fn pow16(e: nat) -> nat
    decreases e,
{
    if e == 0 {
        1
    } else {
        16 * pow16((e - 1) as nat)
    }
}

proof fn lemma_pow16_increases(e1: nat, e2: nat)
    requires
        e1 <= e2,
    ensures
        1 <= pow16(e1) <= pow16(e2),
    decreases e2,
{
    if e2 > 0 {
        if e1 == e2 {
            lemma_pow16_increases((e1 - 1) as nat, (e2 - 1) as nat);
        } else {
            lemma_pow16_increases(e1, (e2 - 1) as nat);
        }
    }
}

proof fn lemma_pow16_u64_bound()
    ensures
        pow16(16) == 0x1_0000_0000_0000_0000,
{
    reveal_with_fuel(pow16, 17);
}

/// A sequence of hex digits denotes a value below 16^len.
proof fn lemma_hex_value_bound(s: Seq<char>)
    ensures
        hex_value(s) < pow16(s.len()),
    decreases s.len(),
{
    if s.len() > 0 {
        lemma_hex_value_bound(s.drop_last());
        assert(hex_digit_value(s.last()) <= 15);
    }
}

/// A hex numeral whose first digit is not zero denotes at least 16^(len-1).
proof fn lemma_hex_value_lower(s: Seq<char>)
    requires
        s.len() >= 1,
        s[0] != '0',
        is_hex_digit(s[0]),
    ensures
        hex_value(s) >= pow16((s.len() - 1) as nat),
    decreases s.len(),
{
    if s.len() == 1 {
        assert(hex_digit_value(s[0]) >= 1);
    } else {
        lemma_hex_value_lower(s.drop_last());
    }
}

/// A leading zero does not change the denoted value.
proof fn lemma_hex_value_leading_zero(s: Seq<char>)
    requires
        s.len() >= 1,
        s[0] == '0',
    ensures
        hex_value(s) == hex_value(s.subrange(1, s.len() as int)),
    decreases s.len(),
{
    let t = s.subrange(1, s.len() as int);
    if s.len() == 1 {
        assert(s.last() == '0');
        assert(hex_value(s) == hex_value(s.drop_last()) * 16 + hex_digit_value(s.last()));
        assert(hex_digit_value('0') == 0);
    } else {
        lemma_hex_value_leading_zero(s.drop_last());
        assert(s.drop_last().subrange(1, s.drop_last().len() as int) =~= t.drop_last());
        assert(s.last() == t.last());
    }
}

/// The canonical numeral denotes the value it was built from and is
/// canonical in shape.
pub proof fn lemma_hex_repr_value(n: nat)
    ensures
        hex_value(hex_repr(n)) == n,
        is_canonical_hex(hex_repr(n)),
        n >= 1 ==> hex_repr(n)[0] != '0',
    decreases n,
{
    if n < 16 {
        assert(hex_value(Seq::<char>::empty()) == 0);
        assert(seq![hex_char(n)].drop_last() =~= Seq::<char>::empty());
        assert(seq![hex_char(n)].last() == hex_char(n));
        assert(hex_value(seq![hex_char(n)]) == hex_digit_value(hex_char(n)));
        assert(hex_digit_value(hex_char(n)) == n);
        assert(is_lower_hex_digit(hex_char(n)));
    } else {
        lemma_hex_repr_value(n / 16);
        let r = hex_repr(n);
        assert(r == hex_repr(n / 16).push(hex_char(n % 16)));
        assert(r.drop_last() =~= hex_repr(n / 16));
        assert(r.last() == hex_char(n % 16));
        assert(hex_digit_value(hex_char(n % 16)) == n % 16);
        assert(is_lower_hex_digit(hex_char(n % 16)));
        assert(hex_value(r) == (n / 16) * 16 + n % 16);
        assert((n / 16) * 16 + n % 16 == n);
        assert(r[0] == hex_repr(n / 16)[0]);
        assert(forall|i: int| 0 <= i < r.len() ==> is_lower_hex_digit(#[trigger] r[i]));
    }
}

/// Building the numeral of a canonical numeral's value gives it back
/// unchanged.
pub proof fn lemma_canonical_hex_round_trip(s: Seq<char>)
    requires
        is_canonical_hex(s),
    ensures
        hex_repr(hex_value(s)) == s,
    decreases s.len(),
{
    let v = hex_value(s);
    if s.len() == 1 {
        assert(hex_value(Seq::<char>::empty()) == 0);
        assert(s.drop_last() =~= Seq::<char>::empty());
        assert(s.last() == s[0]);
        assert(hex_value(s) == hex_value(s.drop_last()) * 16 + hex_digit_value(s.last()));
        assert(v == hex_digit_value(s[0]));
        assert(v < 16);
        assert(hex_char(hex_digit_value(s[0])) == s[0]);
        assert(hex_repr(v) =~= s);
    } else {
        let t = s.drop_last();
        assert(t[0] == s[0]);
        assert(is_canonical_hex(t));
        lemma_canonical_hex_round_trip(t);
        lemma_hex_value_lower(t);
        lemma_pow16_increases(0, (t.len() - 1) as nat);
        assert(hex_value(t) >= 1);
        let d = hex_digit_value(s.last());
        assert(d < 16);
        assert(v == hex_value(t) * 16 + d);
        assert(v >= 16);
        assert(v / 16 == hex_value(t) && v % 16 == d) by (nonlinear_arith)
            requires
                v == hex_value(t) * 16 + d,
                d < 16,
        ;
        assert(hex_char(hex_digit_value(s.last())) == s.last());
        assert(hex_repr(v) == hex_repr(hex_value(t)).push(hex_char(d)));
        assert(hex_repr(v) =~= s);
    }
}

/// Round trip of the codec: any textual address with a `0x` prefix and one
/// to sixteen hex digits is within 64 bits; decoding its encoded value
/// yields the canonical address of the same value; and an address that was
/// canonical to begin with (lowercase, no superfluous leading zero) comes
/// back unchanged.
pub proof fn lemma_address_round_trip(s: Seq<char>)
    requires
        has_hex_prefix(s),
        2 < s.len() <= 18,
        all_hex_digits(address_digits(s)),
    ensures
        valid_address(s),
        address_value(address_repr(address_value(s))) == address_value(s),
        has_hex_prefix(address_repr(address_value(s))),
        is_canonical_hex(address_digits(address_repr(address_value(s)))),
        is_canonical_hex(address_digits(s)) ==> address_repr(address_value(s)) == s,
{
    let digits = address_digits(s);
    lemma_hex_value_bound(digits);
    lemma_pow16_increases(digits.len(), 16);
    lemma_pow16_u64_bound();
    let v = address_value(s);
    let r = address_repr(v);
    lemma_hex_repr_value(v);
    assert(address_digits(r) =~= hex_repr(v));
    if is_canonical_hex(digits) {
        lemma_canonical_hex_round_trip(digits);
        assert(r =~= s);
    }
}

fn hex_char_exec(d: u64) -> (c: char)
    requires
        d < 16,
    ensures
        c == hex_char(d as nat),
{
    if d == 0 { '0' } else if d == 1 { '1' } else if d == 2 { '2' }
    else if d == 3 { '3' } else if d == 4 { '4' } else if d == 5 { '5' }
    else if d == 6 { '6' } else if d == 7 { '7' } else if d == 8 { '8' }
    else if d == 9 { '9' } else if d == 10 { 'a' } else if d == 11 { 'b' }
    else if d == 12 { 'c' } else if d == 13 { 'd' } else if d == 14 { 'e' }
    else { 'f' }
}

fn hex_digit_value_exec(c: char) -> (r: Option<u64>)
    ensures
        r is Some <==> is_hex_digit(c),
        r is Some ==> r->0 as nat == hex_digit_value(c),
{
    let u: u32 = c as u32;
    if 48 <= u && u <= 57 {
        Some((u - 48) as u64)
    } else if 97 <= u && u <= 102 {
        Some((u - 87) as u64)
    } else if 65 <= u && u <= 70 {
        Some((u - 55) as u64)
    } else {
        None
    }
}

/// Relies on `String`'s `FromIterator<char>`: collecting a vector of chars
/// yields the string of exactly those chars, in order.
#[verifier::external_body]
fn chars_to_string(chars: Vec<char>) -> (r: String)
    ensures
        r@ == chars@,
{
    chars.into_iter().collect()
}

fn push_hex_digits(n: u64, out: &mut Vec<char>)
    ensures
        final(out)@ == old(out)@ + hex_repr(n as nat),
    decreases n,
{
    if n < 16 {
        out.push(hex_char_exec(n));
        assert(out@ =~= old(out)@ + hex_repr(n as nat));
    } else {
        push_hex_digits(n / 16, out);
        out.push(hex_char_exec(n % 16));
        assert(out@ =~= old(out)@ + hex_repr(n as nat));
    }
}

/// Decode an id into its canonical textual address: `0x` followed by the
/// lowercase hex numeral of the value, with no superfluous leading zeros.
pub fn address_from_u64(id: u64) -> (r: String)
    ensures
        r@ == address_repr(id as nat),
        valid_address(r@),
        address_value(r@) == id,
{
    let mut chars: Vec<char> = Vec::new();
    chars.push('0');
    chars.push('x');
    push_hex_digits(id, &mut chars);
    proof {
        assert(chars@ =~= address_repr(id as nat));
        lemma_hex_repr_value(id as nat);
        let r = address_repr(id as nat);
        assert(address_digits(r) =~= hex_repr(id as nat));
        assert forall|i: int| 0 <= i < address_digits(r).len() implies is_hex_digit(
            #[trigger] address_digits(r)[i],
        ) by {
            assert(is_lower_hex_digit(hex_repr(id as nat)[i]));
        }
    }
    chars_to_string(chars)
}

/// Encode a textual address as a `u64`: require the `0x` prefix, then read
/// the remainder as a hexadecimal numeral. Each failure is reported as a
/// typed error: a missing prefix, no digits at all, a non-hex digit, or a
/// value beyond 64 bits.
pub fn address_to_u64(address: &str) -> (r: Result<u64, AddressError>)
    ensures
        r is Ok <==> valid_address(address@),
        r is Ok ==> r->Ok_0 as nat == address_value(address@),
        !has_hex_prefix(address@) ==> r == Err::<u64, AddressError>(AddressError::MissingPrefix),
        has_hex_prefix(address@) && address@.len() == 2 ==> r == Err::<u64, AddressError>(
            AddressError::NoDigits,
        ),
        has_hex_prefix(address@) && address@.len() > 2 && !all_hex_digits(
            address_digits(address@),
        ) ==> r == Err::<u64, AddressError>(AddressError::InvalidDigit),
        has_hex_prefix(address@) && address@.len() > 2 && all_hex_digits(address_digits(address@))
            && hex_value(address_digits(address@)) >= 0x1_0000_0000_0000_0000 ==> r
            == Err::<u64, AddressError>(AddressError::Overflow),
{
    let n: usize = address.unicode_len();
    if n < 2 || address.get_char(0) != '0' || address.get_char(1) != 'x' {
        return Err(AddressError::MissingPrefix);
    }
    if n == 2 {
        return Err(AddressError::NoDigits);
    }
    let ghost digits = address_digits(address@);
    let mut i: usize = 2;
    while i < n
        invariant
            2 <= i <= n,
            n == address@.len(),
            2 < n,
            has_hex_prefix(address@),
            digits == address_digits(address@),
            forall|k: int| 0 <= k < i - 2 ==> is_hex_digit(#[trigger] digits[k]),
        decreases n - i,
    {
        let c = address.get_char(i);
        if hex_digit_value_exec(c).is_none() {
            assert(digits[i - 2] == address@[i as int]);
            return Err(AddressError::InvalidDigit);
        }
        assert(digits[i - 2] == address@[i as int]);
        i = i + 1;
    }
    assert(all_hex_digits(digits));
    proof {
        assert(digits.subrange(0, digits.len() as int) =~= digits);
    }
    // Skip leading zeros; they do not affect the value.
    let mut j: usize = 2;
    while j < n && address.get_char(j) == '0'
        invariant
            2 <= j <= n,
            n == address@.len(),
            2 < n,
            has_hex_prefix(address@),
            digits == address_digits(address@),
            all_hex_digits(digits),
            hex_value(digits.subrange((j - 2) as int, digits.len() as int)) == hex_value(digits),
        decreases n - j,
    {
        proof {
            let rest = digits.subrange((j - 2) as int, digits.len() as int);
            assert(rest[0] == digits[j - 2]);
            assert(digits[j - 2] == address@[j as int]);
            lemma_hex_value_leading_zero(rest);
            assert(rest.subrange(1, rest.len() as int) =~= digits.subrange(
                (j - 1) as int,
                digits.len() as int,
            ));
        }
        j = j + 1;
    }
    let ghost stripped = digits.subrange((j - 2) as int, digits.len() as int);
    if n - j > 16 {
        proof {
            assert(stripped[0] == digits[j - 2]);
            assert(digits[j - 2] == address@[j as int]);
            assert(stripped[0] != '0');
            lemma_hex_value_lower(stripped);
            lemma_pow16_increases(16, (stripped.len() - 1) as nat);
            lemma_pow16_u64_bound();
        }
        return Err(AddressError::Overflow);
    }
    proof {
        assert(digits.subrange((j - 2) as int, (j - 2) as int) =~= Seq::<char>::empty());
    }
    let mut acc: u64 = 0;
    let mut k: usize = j;
    while k < n
        invariant
            j <= k <= n,
            2 <= j <= n,
            n == address@.len(),
            2 < n,
            n - j <= 16,
            has_hex_prefix(address@),
            digits == address_digits(address@),
            all_hex_digits(digits),
            stripped == digits.subrange((j - 2) as int, digits.len() as int),
            hex_value(stripped) == hex_value(digits),
            acc as nat == hex_value(digits.subrange((j - 2) as int, (k - 2) as int)),
            (acc as nat) < pow16((k - j) as nat),
        decreases n - k,
    {
        let c = address.get_char(k);
        let d: u64 = match hex_digit_value_exec(c) {
            Some(d) => d,
            None => {
                proof {
                    assert(digits[k - 2] == address@[k as int]);
                    assert(is_hex_digit(digits[k - 2]));
                    assert(false);
                }
                0
            },
        };
        proof {
            assert(digits[k - 2] == address@[k as int]);
            assert(d as nat == hex_digit_value(digits[k - 2]));
            assert(d <= 15);
            lemma_pow16_increases((k - j + 1) as nat, 16);
            lemma_pow16_u64_bound();
            assert(pow16((k - j + 1) as nat) == 16 * pow16((k - j) as nat));
            assert(acc as nat * 16 + d < pow16((k - j + 1) as nat));
        }
        let new_acc: u64 = acc * 16 + d;
        proof {
            let pre = digits.subrange((j - 2) as int, (k - 2) as int);
            let cur = digits.subrange((j - 2) as int, (k - 1) as int);
            assert(cur.drop_last() =~= pre);
            assert(cur.last() == digits[k - 2]);
        }
        acc = new_acc;
        k = k + 1;
    }
    proof {
        assert(digits.subrange((j - 2) as int, (n - 2) as int) =~= stripped);
        lemma_hex_value_bound(stripped);
        lemma_pow16_increases(stripped.len(), 16);
        lemma_pow16_u64_bound();
    }
    Ok(acc)
}

} // verus!
