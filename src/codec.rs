use vstd::prelude::*;

use base64::engine::general_purpose;
use base64::Engine;

use crate::currency::{
    currency_from_value, currency_of, currency_worth, lemma_currency_of, lemma_value_bound,
    lemma_worth_is_largest, Currency, CurrencyError,
};
use crate::text::{
    decimal_digits, decimal_text, digits_end, digits_value, is_decimal_digit, is_white_space,
    lemma_decimal_digits, trim, trim_end, trimmed, lemma_digits_value_depends_on_span,
    lemma_skip_digits_to, lemma_skip_white_space_to, skip_digits, skip_white_space,
    white_space_end,
};

verus! {

/// Why a text or a byte string could not be read as a currency.
#[derive(Debug, Clone, Copy, PartialEq, Eq, Structural)]
pub enum ParseCurrencyError {
    /// Neither base64 nor a formatted amount.
    Unrecognized,
    /// Not in the form `<digits> <unit>`, with white space around and between.
    InvalidFormat,
    /// Not standard padded base64.
    InvalidBase64,
    /// The base64 payload holds neither exactly 8 nor at least 16 bytes.
    InvalidLength,
    /// The amount does not fit in 64 bits in any denomination that can hold it.
    AmountTooLarge,
}

/// The two-letter abbreviation of the denomination of a tier.
pub open spec fn unit_abbreviation(tier: nat) -> Seq<char> {
    if tier == 0 {
        seq!['c', 'p']
    } else if tier == 1 {
        seq!['s', 'p']
    } else if tier == 2 {
        seq!['g', 'p']
    } else {
        seq!['p', 'p']
    }
}

/// The tier named by a two-letter unit, case-insensitively: `cp`, `sp`, `gp` or `pp`.
pub open spec fn unit_tier(first: char, second: char) -> Option<nat> {
    if second != 'p' && second != 'P' {
        None
    } else if first == 'c' || first == 'C' {
        Some(0)
    } else if first == 's' || first == 'S' {
        Some(1)
    } else if first == 'g' || first == 'G' {
        Some(2)
    } else if first == 'p' || first == 'P' {
        Some(3)
    } else {
        None
    }
}

/// `<amount> <unit>`, as `Currency::format` writes it.
pub open spec fn formatted_text(c: Currency) -> Seq<char> {
    decimal_digits(c.units() as nat) + seq![' '] + unit_abbreviation(c.tier())
}

/// The positions in `s` of a formatted amount: optional white space, decimal
/// digits, white space, a two-letter unit and optional white space.
/// Gives the end of the digits and the unit's tier; the digits start at
/// `skip_white_space(s, 0)`.
pub open spec fn formatted_fields(s: Seq<char>) -> Option<(int, nat)> {
    let start = skip_white_space(s, 0);
    let digits_stop = skip_digits(s, start);
    let unit_start = skip_white_space(s, digits_stop);
    if digits_stop > start && unit_start > digits_stop && unit_start + 2 <= s.len()
        && unit_tier(s[unit_start], s[unit_start + 1]) is Some && skip_white_space(
        s,
        unit_start + 2,
    ) == s.len() {
        Some((digits_stop, unit_tier(s[unit_start], s[unit_start + 1])->0))
    } else {
        None
    }
}

/// What a formatted amount such as `150 gp` denotes.
pub open spec fn parse_formatted(s: Seq<char>) -> Result<Currency, ParseCurrencyError> {
    match formatted_fields(s) {
        None => Err(ParseCurrencyError::InvalidFormat),
        Some(fields) => {
            let amount = digits_value(s, skip_white_space(s, 0), fields.0);
            if amount <= u64::MAX {
                Ok(currency_of(fields.1, amount as u64))
            } else {
                Err(ParseCurrencyError::AmountTooLarge)
            }
        },
    }
}

/// The value of the digits `s[from..to]` grows with `to`.
proof fn lemma_digits_value_grows(s: Seq<char>, from: int, mid: int, to: int)
    requires
        from <= mid <= to,
    ensures
        digits_value(s, from, mid) <= digits_value(s, from, to),
    decreases to - mid,
{
    if mid < to {
        lemma_digits_value_grows(s, from, mid, to - 1);
    }
}

/// Reads the decimal digits `s[from..to]`; `None` when they do not fit in 64 bits.
fn read_decimal(s: &str, from: usize, to: usize) -> (r: Option<u64>)
    requires
        from <= to <= s@.len(),
        forall|k: int| from <= k < to ==> is_decimal_digit(#[trigger] s@[k]),
    ensures
        digits_value(s@, from as int, to as int) <= u64::MAX ==> r == Some(
            digits_value(s@, from as int, to as int) as u64,
        ),
        digits_value(s@, from as int, to as int) > u64::MAX ==> r is None,
{
    let mut acc: u64 = 0;
    let mut k = from;
    while k < to
        invariant
            from <= k <= to <= s@.len(),
            forall|k: int| from <= k < to ==> is_decimal_digit(#[trigger] s@[k]),
            acc == digits_value(s@, from as int, k as int),
        decreases to - k,
    {
        let c = s.get_char(k);
        let d: u64 = if c == '1' {
            1
        } else if c == '2' {
            2
        } else if c == '3' {
            3
        } else if c == '4' {
            4
        } else if c == '5' {
            5
        } else if c == '6' {
            6
        } else if c == '7' {
            7
        } else if c == '8' {
            8
        } else if c == '9' {
            9
        } else {
            0
        };
        let next: u128 = acc as u128 * 10 + d as u128;
        if next > u64::MAX as u128 {
            proof {
                lemma_digits_value_grows(s@, from as int, k + 1, to as int);
            }
            return None;
        }
        acc = next as u64;
        k = k + 1;
    }
    Some(acc)
}

/// Reads a formatted amount such as `150 gp` or ` 3 PP `.
pub fn decode_formatted(text: &str) -> (r: Result<Currency, ParseCurrencyError>)
    ensures
        r == parse_formatted(text@),
{
    let n = text.unicode_len();
    let start = white_space_end(text, 0);
    let digits_stop = digits_end(text, start);
    let unit_start = white_space_end(text, digits_stop);
    if !(digits_stop > start && unit_start > digits_stop && unit_start < n && n - unit_start >= 2) {
        return Err(ParseCurrencyError::InvalidFormat);
    }
    let first = text.get_char(unit_start);
    let second = text.get_char(unit_start + 1);
    if white_space_end(text, unit_start + 2) != n || (second != 'p' && second != 'P') {
        return Err(ParseCurrencyError::InvalidFormat);
    }
    proof {
        lemma_skip_digits_span(text@, start as int);
    }
    let amount = match read_decimal(text, start, digits_stop) {
        Some(a) => a,
        None => {
            return if first == 'c' || first == 'C' || first == 's' || first == 'S' || first == 'g'
                || first == 'G' || first == 'p' || first == 'P' {
                Err(ParseCurrencyError::AmountTooLarge)
            } else {
                Err(ParseCurrencyError::InvalidFormat)
            };
        },
    };
    if first == 'c' || first == 'C' {
        Ok(Currency::Copper(amount))
    } else if first == 's' || first == 'S' {
        Ok(Currency::Silver(amount))
    } else if first == 'g' || first == 'G' {
        Ok(Currency::Gold(amount))
    } else if first == 'p' || first == 'P' {
        Ok(Currency::Platinum(amount))
    } else {
        Err(ParseCurrencyError::InvalidFormat)
    }
}

/// Every character between `i` and `skip_digits(s, i)` is a decimal digit.
proof fn lemma_skip_digits_span(s: Seq<char>, i: int)
    requires
        0 <= i <= s.len(),
    ensures
        i <= skip_digits(s, i) <= s.len(),
        forall|k: int| i <= k < skip_digits(s, i) ==> is_decimal_digit(#[trigger] s[k]),
    decreases s.len() - i,
{
    if i < s.len() && is_decimal_digit(s[i]) {
        lemma_skip_digits_span(s, i + 1);
    }
}

impl Currency {
    /// Writes `<amount> <unit>`, the unit being `pp`, `gp`, `sp` or `cp`.
    pub fn format(&self) -> (r: String)
        ensures
            r@ == formatted_text(*self),
    {
        let digits = decimal_text(self.amount());
        let unit = match self {
            Currency::Platinum(_) => " pp",
            Currency::Gold(_) => " gp",
            Currency::Silver(_) => " sp",
            Currency::Copper(_) => " cp",
        };
        proof {
            reveal_strlit(" pp");
            reveal_strlit(" gp");
            reveal_strlit(" sp");
            reveal_strlit(" cp");
            assert(unit@ == seq![' '] + unit_abbreviation(self.tier()));
        }
        let r = digits.concat(unit);
        proof {
            assert(r@ =~= formatted_text(*self));
        }
        r
    }
}

/// The text that base64's standard engine makes of `bytes`: standard alphabet,
/// padded with `=` to a multiple of four characters.
pub uninterp spec fn base64_text(bytes: Seq<u8>) -> Seq<char>;

/// Relies on base64's `general_purpose::STANDARD.encode`: standard alphabet,
/// padded with one or two `=` to a multiple of four characters.
#[verifier::external_body]
fn base64_encode(bytes: &[u8]) -> (r: String)
    ensures
        r@ == base64_text(bytes@),
        bytes@.len() > 0 ==> is_base64_shaped(r@),
{
    general_purpose::STANDARD.encode(bytes)
}

/// Relies on base64's `general_purpose::STANDARD.decode`: its configuration
/// requires canonical padding and zero trailing bits, so it accepts exactly the
/// texts that `encode` produces and returns the bytes they encode.
#[verifier::external_body]
fn base64_decode(text: &str) -> (r: Option<Vec<u8>>)
    ensures
        r is Some ==> base64_text(r->Some_0@) == text@,
        forall|b: Seq<u8>| #[trigger] base64_text(b) == text@ ==> (r is Some && r->Some_0@ == b),
{
    general_purpose::STANDARD.decode(text).ok()
}

/// `256` to the power `n`.
pub open spec fn byte_power(n: nat) -> nat
    decreases n,
{
    if n == 0 {
        1
    } else {
        256 * byte_power((n - 1) as nat)
    }
}

/// The unsigned integer whose big-endian bytes are `b`.
pub open spec fn big_endian_value(b: Seq<u8>) -> nat
    decreases b.len(),
{
    if b.len() == 0 {
        0
    } else {
        big_endian_value(b.drop_last()) * 256 + (b.last() as nat)
    }
}

/// The `n` low bytes of `v`, most significant first.
pub open spec fn big_endian_bytes(v: nat, n: nat) -> Seq<u8>
    decreases n,
{
    if n == 0 {
        seq![]
    } else {
        big_endian_bytes(v / 256, (n - 1) as nat).push((v % 256) as u8)
    }
}

/// The fixed-width payload of a currency: its Copper-normalized amount as a
/// 16-byte big-endian unsigned integer.
pub open spec fn currency_bytes(c: Currency) -> Seq<u8> {
    big_endian_bytes(c.value(), 16)
}

/// What a decoded base64 payload denotes: 8 bytes hold a 64-bit Copper amount;
/// with more than 8 bytes the first 16 hold a 128-bit Copper amount.
pub open spec fn base64_payload(b: Seq<u8>) -> Result<Currency, ParseCurrencyError> {
    if b.len() != 8 && b.len() < 16 {
        Err(ParseCurrencyError::InvalidLength)
    } else {
        let value = if b.len() == 8 {
            big_endian_value(b)
        } else {
            big_endian_value(b.take(16))
        };
        match currency_worth(value) {
            Some(c) => Ok(c),
            None => Err(ParseCurrencyError::AmountTooLarge),
        }
    }
}

/// `r` is what reading the base64 text `s` gives.
pub open spec fn base64_reading(s: Seq<char>, r: Result<Currency, ParseCurrencyError>) -> bool {
    &&& forall|b: Seq<u8>| #[trigger] base64_text(b) == s ==> r == base64_payload(b)
    &&& (forall|b: Seq<u8>| #[trigger] base64_text(b) != s) ==> r == Err::<
        Currency,
        ParseCurrencyError,
    >(ParseCurrencyError::InvalidBase64)
}

/// A big-endian value of `n` bytes is below `256^n`.
proof fn lemma_big_endian_bound(b: Seq<u8>)
    ensures
        big_endian_value(b) < byte_power(b.len()),
    decreases b.len(),
{
    if b.len() > 0 {
        lemma_big_endian_bound(b.drop_last());
    }
}

/// Reading back the big-endian bytes of a value that fits gives the value.
proof fn lemma_big_endian_round_trip(v: nat, n: nat)
    requires
        v < byte_power(n),
    ensures
        big_endian_bytes(v, n).len() == n,
        big_endian_value(big_endian_bytes(v, n)) == v,
    decreases n,
{
    if n > 0 {
        assert(v / 256 < byte_power((n - 1) as nat)) by (nonlinear_arith)
            requires
                v < 256 * byte_power((n - 1) as nat),
        ;
        lemma_big_endian_round_trip(v / 256, (n - 1) as nat);
        let bytes = big_endian_bytes(v, n);
        assert(bytes.drop_last() =~= big_endian_bytes(v / 256, (n - 1) as nat));
        assert((v / 256) * 256 + v % 256 == v) by (nonlinear_arith);
    }
}

/// `2^128`, the first value that does not fit in 128 bits.
proof fn lemma_byte_power_16()
    ensures
        byte_power(16) == u128::MAX + 1,
{
    reveal_with_fuel(byte_power, 17);
}

/// The `n` low bytes of `v`, most significant first.
fn big_endian(v: u128, n: usize) -> (r: Vec<u8>)
    ensures
        r@ == big_endian_bytes(v as nat, n as nat),
    decreases n,
{
    if n == 0 {
        Vec::new()
    } else {
        let mut r = big_endian(v / 256, n - 1);
        r.push((v % 256) as u8);
        r
    }
}

/// The big-endian value of the first `n` bytes of `b`.
fn read_big_endian(b: &[u8], n: usize) -> (r: u128)
    requires
        n <= 16,
        n <= b@.len(),
    ensures
        r == big_endian_value(b@.take(n as int)),
{
    let mut acc: u128 = 0;
    let mut k: usize = 0;
    proof {
        lemma_byte_power_16();
    }
    while k < n
        invariant
            k <= n <= 16,
            n <= b@.len(),
            byte_power(16) == u128::MAX + 1,
            acc == big_endian_value(b@.take(k as int)),
        decreases n - k,
    {
        proof {
            lemma_big_endian_bound(b@.take(k as int));
            lemma_byte_power_grows(k as nat, 15);
            assert(b@.take(k + 1).drop_last() =~= b@.take(k as int));
        }
        acc = acc * 256 + b[k] as u128;
        k = k + 1;
    }
    acc
}

/// `256^i <= 256^j` when `i <= j`.
proof fn lemma_byte_power_grows(i: nat, j: nat)
    requires
        i <= j,
    ensures
        byte_power(i) <= byte_power(j),
        byte_power(i) >= 1,
    decreases j,
{
    if j > i {
        lemma_byte_power_grows(i, (j - 1) as nat);
    } else if i > 0 {
        lemma_byte_power_grows((i - 1) as nat, (i - 1) as nat);
    }
}

/// The currency denoted by a decoded base64 payload.
pub fn decode_payload(b: &[u8]) -> (r: Result<Currency, ParseCurrencyError>)
    ensures
        r == base64_payload(b@),
{
    let n = b.len();
    if n != 8 && n < 16 {
        return Err(ParseCurrencyError::InvalidLength);
    }
    let width: usize = if n == 8 {
        8
    } else {
        16
    };
    let value = read_big_endian(b, width);
    proof {
        if n == 8 {
            assert(b@.take(8) =~= b@);
        }
    }
    match currency_from_value(value) {
        Some(c) => Ok(c),
        None => Err(ParseCurrencyError::AmountTooLarge),
    }
}

/// Reads a base64 text of an 8-byte or 16-byte big-endian Copper amount.
pub fn decode_base64(text: &str) -> (r: Result<Currency, ParseCurrencyError>)
    ensures
        base64_reading(text@, r),
{
    match base64_decode(text) {
        Some(bytes) => decode_payload(bytes.as_slice()),
        None => Err(ParseCurrencyError::InvalidBase64),
    }
}

impl Currency {
    /// The fixed-width encoding: base64 of the 16-byte big-endian Copper amount.
    pub fn encode_base64(&self) -> (r: String)
        ensures
            r@ == base64_text(currency_bytes(*self)),
            is_base64_shaped(r@),
    {
        let bytes = big_endian(self.copper_value(), 16);
        proof {
            lemma_value_bound(*self);
            lemma_byte_power_16();
            lemma_big_endian_round_trip(self.value(), 16);
        }
        base64_encode(bytes.as_slice())
    }

    /// The plain-integer encoding: the Copper-normalized amount, or `Overflow`
    /// when it does not fit in 64 bits.
    pub fn raw_amount(&self) -> (r: Result<u64, CurrencyError>)
        ensures
            self.value() <= u64::MAX ==> r == Ok::<u64, CurrencyError>(self.value() as u64),
            self.value() > u64::MAX ==> r == Err::<u64, CurrencyError>(CurrencyError::Overflow),
    {
        let v = self.copper_value();
        if v > u64::MAX as u128 {
            Err(CurrencyError::Overflow)
        } else {
            Ok(v as u64)
        }
    }
}

/// How a currency arrived when it was read from a data format: as a base64
/// text, as a formatted amount (white space trimmed) or as a raw Copper amount.
pub enum CurrencyVisitorResult {
    Base64(String),
    Formatted(String),
    Integer(u64),
}

pub open spec fn is_base64_symbol(c: char) -> bool {
    ||| ('A' <= c && c <= 'Z')
    ||| ('a' <= c && c <= 'z')
    ||| ('0' <= c && c <= '9')
    ||| c == '+'
    ||| c == '/'
}

/// The first `n` characters of `s` are base64 symbols.
pub open spec fn base64_symbols(s: Seq<char>, n: int) -> bool {
    forall|i: int| 0 <= i < n ==> is_base64_symbol(#[trigger] s[i])
}

/// `s` looks like padded base64: a positive multiple of four characters, all
/// base64 symbols but for one or two `=` at the end.
pub open spec fn is_base64_shaped(s: Seq<char>) -> bool {
    let n = s.len() as int;
    &&& n >= 4
    &&& n % 4 == 0
    &&& {
        ||| base64_symbols(s, n)
        ||| (s[n - 1] == '=' && base64_symbols(s, n - 1))
        ||| (s[n - 1] == '=' && s[n - 2] == '=' && base64_symbols(s, n - 2))
    }
}

/// How a text is classified: base64 when it is base64-shaped, else a formatted
/// amount when it has that form (whatever the size of its number), else neither.
pub open spec fn text_kind_matches(text: Seq<char>, r: Option<CurrencyVisitorResult>) -> bool {
    if is_base64_shaped(text) {
        r matches Some(CurrencyVisitorResult::Base64(t)) && t@ == text
    } else if formatted_fields(text) is Some {
        r matches Some(CurrencyVisitorResult::Formatted(t)) && t@ == trimmed(text)
    } else {
        r is None
    }
}

fn is_base64_symbol_char(c: char) -> (r: bool)
    ensures
        r == is_base64_symbol(c),
{
    ('A' <= c && c <= 'Z') || ('a' <= c && c <= 'z') || ('0' <= c && c <= '9') || c == '+' || c
        == '/'
}

/// Whether the first `n` characters of `s` are base64 symbols.
fn all_base64_symbols(s: &str, n: usize) -> (r: bool)
    requires
        n <= s@.len(),
    ensures
        r == base64_symbols(s@, n as int),
{
    let mut i: usize = 0;
    while i < n
        invariant
            i <= n <= s@.len(),
            base64_symbols(s@, i as int),
        decreases n - i,
    {
        if !is_base64_symbol_char(s.get_char(i)) {
            return false;
        }
        i = i + 1;
    }
    true
}

fn base64_shaped(s: &str) -> (r: bool)
    ensures
        r == is_base64_shaped(s@),
{
    let n = s.unicode_len();
    if n < 4 || n % 4 != 0 {
        return false;
    }
    if all_base64_symbols(s, n) {
        return true;
    }
    if s.get_char(n - 1) != '=' {
        return false;
    }
    if all_base64_symbols(s, n - 1) {
        return true;
    }
    s.get_char(n - 2) == '=' && all_base64_symbols(s, n - 2)
}

/// Classifies a text read from a data format as base64 or as a formatted amount.
pub fn get_result_from_str(text: &str) -> (r: Option<CurrencyVisitorResult>)
    ensures
        text_kind_matches(text@, r),
{
    if base64_shaped(text) {
        return Some(CurrencyVisitorResult::Base64(String::from_str(text)));
    }
    let n = text.unicode_len();
    let start = white_space_end(text, 0);
    let digits_stop = digits_end(text, start);
    let unit_start = white_space_end(text, digits_stop);
    if !(digits_stop > start && unit_start > digits_stop && unit_start < n && n - unit_start >= 2) {
        return None;
    }
    let first = text.get_char(unit_start);
    let second = text.get_char(unit_start + 1);
    let known_unit = (second == 'p' || second == 'P') && (first == 'c' || first == 'C' || first
        == 's' || first == 'S' || first == 'g' || first == 'G' || first == 'p' || first == 'P');
    if !known_unit || white_space_end(text, unit_start + 2) != n {
        return None;
    }
    Some(CurrencyVisitorResult::Formatted(trim(text)))
}

/// What reading a classified value gives, as `decode_visited` computes it.
pub open spec fn visited_reading(v: CurrencyVisitorResult, r: Result<Currency, ParseCurrencyError>) -> bool {
    match v {
        CurrencyVisitorResult::Base64(t) => base64_reading(t@, r),
        CurrencyVisitorResult::Formatted(t) => r == parse_formatted(t@),
        CurrencyVisitorResult::Integer(n) => r == Ok::<Currency, ParseCurrencyError>(
            Currency::Copper(n).largest_denomination(),
        ),
    }
}

/// Reads a classified value: base64 and formatted texts are decoded, a raw
/// Copper amount is taken in its largest denomination.
pub fn decode_visited(v: &CurrencyVisitorResult) -> (r: Result<Currency, ParseCurrencyError>)
    ensures
        visited_reading(*v, r),
{
    match v {
        CurrencyVisitorResult::Base64(t) => decode_base64(t.as_str()),
        CurrencyVisitorResult::Formatted(t) => decode_formatted(t.as_str()),
        CurrencyVisitorResult::Integer(n) => Ok(Currency::from(*n)),
    }
}

/// What reading a text gives, as `decode_text` computes it.
pub open spec fn text_reading(text: Seq<char>, r: Result<Currency, ParseCurrencyError>) -> bool {
    if is_base64_shaped(text) {
        base64_reading(text, r)
    } else if formatted_fields(text) is Some {
        r == parse_formatted(trimmed(text))
    } else {
        r == Err::<Currency, ParseCurrencyError>(ParseCurrencyError::Unrecognized)
    }
}

/// Reads a currency from a text: base64 of a big-endian Copper amount, or a
/// formatted amount such as `150 gp`.
pub fn decode_text(text: &str) -> (r: Result<Currency, ParseCurrencyError>)
    ensures
        text_reading(text@, r),
{
    match get_result_from_str(text) {
        Some(v) => decode_visited(&v),
        None => Err(ParseCurrencyError::Unrecognized),
    }
}

/// What a decoder hands back for an encoded currency: the currency in its
/// largest denomination, or Copper zero for an empty amount.
pub open spec fn decoded_form(c: Currency) -> Currency {
    if c.units() > 0 {
        c.largest_denomination()
    } else {
        Currency::Copper(0)
    }
}

/// The plain-integer encoding reads back as the same worth: whenever
/// `raw_amount` succeeds, reading its integer gives `c` in its largest
/// denomination.
pub proof fn lemma_integer_round_trip(c: Currency, r: Result<Currency, ParseCurrencyError>)
    requires
        c.value() <= u64::MAX,
        visited_reading(CurrencyVisitorResult::Integer(c.value() as u64), r),
    ensures
        r == Ok::<Currency, ParseCurrencyError>(decoded_form(c)),
        decoded_form(c).value() == c.value(),
{
    lemma_worth_is_largest(c);
    crate::currency::lemma_raw_amount_value(c.value() as u64);
}

/// The fixed-width base64 encoding reads back as the same worth, for every
/// currency.
pub proof fn lemma_base64_round_trip(c: Currency, r: Result<Currency, ParseCurrencyError>)
    requires
        base64_reading(base64_text(currency_bytes(c)), r),
    ensures
        r == Ok::<Currency, ParseCurrencyError>(decoded_form(c)),
        decoded_form(c).value() == c.value(),
{
    let b = currency_bytes(c);
    assert(base64_text(b) == base64_text(currency_bytes(c)));
    lemma_value_bound(c);
    lemma_byte_power_16();
    lemma_big_endian_round_trip(c.value(), 16);
    assert(b.take(16) =~= b);
    lemma_worth_is_largest(c);
    if c.units() > 0 {
        crate::currency::lemma_largest_keeps_value(c);
    }
}

/// The unit abbreviation written for a tier reads back as that tier.
proof fn lemma_unit_round_trip(tier: nat)
    requires
        tier <= 3,
    ensures
        unit_abbreviation(tier).len() == 2,
        unit_tier(unit_abbreviation(tier)[0], unit_abbreviation(tier)[1]) == Some(tier),
        !is_white_space(unit_abbreviation(tier)[0]),
{
}

/// The formatted text of a currency reads back as exactly that currency.
pub proof fn lemma_formatted_round_trip(c: Currency)
    ensures
        parse_formatted(formatted_text(c)) == Ok::<Currency, ParseCurrencyError>(c),
        !is_base64_shaped(formatted_text(c)),
        trimmed(formatted_text(c)) == formatted_text(c),
{
    let digits = decimal_digits(c.units() as nat);
    let unit = unit_abbreviation(c.tier());
    let s = formatted_text(c);
    let d = digits.len() as int;
    lemma_decimal_digits(c.units() as nat);
    lemma_unit_round_trip(c.tier());
    assert(s.len() == d + 3);
    assert(forall|k: int| 0 <= k < d ==> s[k] == digits[k]);
    assert(s[d] == ' ');
    assert(s[d + 1] == unit[0]);
    assert(s[d + 2] == unit[1]);
    assert(!is_white_space(s[0]));
    lemma_skip_white_space_to(s, 0, 0);
    lemma_skip_digits_to(s, 0, d);
    lemma_skip_white_space_to(s, d, d + 1);
    lemma_skip_white_space_to(s, d + 3, d + 3);
    lemma_digits_value_depends_on_span(s, digits, 0, d);
    lemma_currency_of(c.tier(), c.units());
    assert(currency_of(c.tier(), c.units()) == c);
    assert(!is_base64_symbol(s[d]));
    assert(trim_end(s, s.len() as int) == s.len());
    assert(s.subrange(0, s.len() as int) =~= s);
}

/// Reading the formatted text of a currency as a data-format text gives back
/// exactly that currency.
pub proof fn lemma_formatted_text_round_trip(c: Currency, r: Result<Currency, ParseCurrencyError>)
    requires
        text_reading(formatted_text(c), r),
    ensures
        r == Ok::<Currency, ParseCurrencyError>(c),
{
    lemma_formatted_round_trip(c);
}

impl std::str::FromStr for Currency {
    type Err = ParseCurrencyError;

    /// Reads a formatted amount such as `150 gp`.
    fn from_str(s: &str) -> (r: Result<Self, Self::Err>)
        ensures
            r == parse_formatted(s@),
    {
        decode_formatted(s)
    }
}

/// The text that `encode_base64` gives for `c` also reads back through the
/// text reader, which recognizes it as base64.
pub proof fn lemma_base64_text_round_trip(c: Currency, s: Seq<char>, r: Result<Currency, ParseCurrencyError>)
    requires
        s == base64_text(currency_bytes(c)),
        is_base64_shaped(s),
        text_reading(s, r),
    ensures
        r == Ok::<Currency, ParseCurrencyError>(decoded_form(c)),
{
    lemma_base64_round_trip(c, r);
}

} // verus!
