//! The 32-symbol alphabet and the conversion between codes and integers.
//!
//! A code is read as a number in base 32, most significant symbol first, so a
//! code of `n` symbols carries `5 * n` bits.
use vstd::arithmetic::div_mod::*;
use vstd::arithmetic::power2::*;
use vstd::bits::*;
use vstd::prelude::*;
use vstd::string::*;
use crate::error::GeohashError;

verus! {

/// The longest code whose value fits in 64 bits.
pub const MAX_PRECISION: u32 = 12;

/// The symbols in the order of their values: the digits, then the lower-case
/// letters without `a`, `i`, `l` and `o`.
pub open spec fn alphabet() -> Seq<char> {
    seq![
        '0', '1', '2', '3', '4', '5', '6', '7', '8', '9', 'b', 'c', 'd', 'e', 'f', 'g',
        'h', 'j', 'k', 'm', 'n', 'p', 'q', 'r', 's', 't', 'u', 'v', 'w', 'x', 'y', 'z',
    ]
}

/// Whether `c` is one of the 32 symbols.
pub open spec fn is_symbol(c: char) -> bool {
    alphabet().contains(c)
}

/// The value of the symbol `c`: its position in the alphabet.
pub open spec fn symbol_value(c: char) -> nat {
    alphabet().index_of(c) as nat
}

/// Whether every character of `code` is a symbol.
pub open spec fn valid_code(code: Seq<char>) -> bool {
    forall|i: int| 0 <= i < code.len() ==> is_symbol(#[trigger] code[i])
}

/// Why `code` is refused, if it is: a character that is no symbol comes
/// before a length that does not fit.
pub open spec fn code_error(code: Seq<char>) -> Option<GeohashError> {
    if !valid_code(code) {
        Some(GeohashError::InvalidSymbol)
    } else if code.len() > MAX_PRECISION {
        Some(GeohashError::InvalidPrecision)
    } else {
        None
    }
}

/// The number that `code` writes in base 32, most significant symbol first.
pub open spec fn code_value(code: Seq<char>) -> nat
    decreases code.len(),
{
    if code.len() == 0 {
        0
    } else {
        32 * code_value(code.drop_last()) + symbol_value(code.last())
    }
}

/// The code of `len` symbols that writes the low `5 * len` bits of `value`.
pub open spec fn code_of(value: nat, len: nat) -> Seq<char>
    decreases len,
{
    if len == 0 {
        Seq::empty()
    } else {
        code_of(value / 32, (len - 1) as nat).push(alphabet()[(value % 32) as int])
    }
}

/// The alphabet has 32 symbols, all different, all ASCII.
pub proof fn lemma_alphabet()
    ensures
        alphabet().len() == 32,
        alphabet().no_duplicates(),
        forall|i: int| 0 <= i < 32 ==> is_symbol(#[trigger] alphabet()[i]),
        forall|i: int| 0 <= i < 32 ==> symbol_value(#[trigger] alphabet()[i]) == i,
        forall|c: char| #[trigger]
            is_symbol(c) ==> symbol_value(c) < 32 && alphabet()[symbol_value(c) as int] == c && c
                <= '\u{7f}',
{
    assert(alphabet().no_duplicates());
    assert forall|i: int| 0 <= i < 32 implies symbol_value(#[trigger] alphabet()[i]) == i by {
        let c = alphabet()[i];
        let j = alphabet().index_of(c);
        assert(0 <= j < 32 && alphabet()[j] == c);
    }
    assert forall|c: char| #[trigger] is_symbol(c) implies symbol_value(c) < 32
        && alphabet()[symbol_value(c) as int] == c && c <= '\u{7f}' by {
        let j = alphabet().index_of(c);
        assert(0 <= j < 32 && alphabet()[j] == c);
    }
}

/// A valid code holds ASCII characters only.
pub proof fn lemma_valid_code_is_ascii(code: Seq<char>)
    requires
        valid_code(code),
    ensures
        vstd::utf8::is_ascii_chars(code),
{
    lemma_alphabet();
    assert forall|i: int| 0 <= i < code.len() implies '\0' <= #[trigger] code[i] <= '\u{7f}' by {
        assert(is_symbol(code[i]));
    }
}

/// The value of a valid code of `n` symbols is below `2^(5n)`.
pub proof fn lemma_code_value_bound(code: Seq<char>)
    requires
        valid_code(code),
    ensures
        code_value(code) < pow2(5 * code.len()),
    decreases code.len(),
{
    lemma_alphabet();
    if code.len() == 0 {
        lemma2_to64();
    } else {
        let init = code.drop_last();
        assert(valid_code(init)) by {
            assert forall|i: int| 0 <= i < init.len() implies is_symbol(#[trigger] init[i]) by {
                assert(init[i] == code[i]);
            }
        }
        lemma_code_value_bound(init);
        assert(is_symbol(code.last()));
        lemma_pow2_adds(5 * init.len(), 5);
        lemma2_to64();
        assert(5 * init.len() + 5 == 5 * code.len());
    }
}

/// `code_of` gives a valid code of the length asked for.
pub proof fn lemma_code_of_valid(value: nat, len: nat)
    ensures
        code_of(value, len).len() == len,
        valid_code(code_of(value, len)),
    decreases len,
{
    lemma_alphabet();
    if len > 0 {
        lemma_code_of_valid(value / 32, (len - 1) as nat);
        let init = code_of(value / 32, (len - 1) as nat);
        let code = code_of(value, len);
        assert forall|i: int| 0 <= i < code.len() implies is_symbol(#[trigger] code[i]) by {
            if i < len - 1 {
                assert(code[i] == init[i]);
            }
        }
    }
}

/// Writing the value of a valid code with as many symbols gives the code back.
pub proof fn lemma_code_of_code_value(code: Seq<char>)
    requires
        valid_code(code),
    ensures
        code_of(code_value(code), code.len()) == code,
    decreases code.len(),
{
    lemma_alphabet();
    if code.len() > 0 {
        let init = code.drop_last();
        assert(valid_code(init)) by {
            assert forall|i: int| 0 <= i < init.len() implies is_symbol(#[trigger] init[i]) by {
                assert(init[i] == code[i]);
            }
        }
        lemma_code_of_code_value(init);
        assert(is_symbol(code.last()));
        let d = symbol_value(code.last());
        let v = code_value(init);
        assert((32 * v + d) / 32 == v && (32 * v + d) % 32 == d);
        assert(code_of(code_value(code), code.len()) =~= code);
    }
}

/// Reading a written code gives the low `5 * len` bits of the value back.
pub proof fn lemma_code_value_code_of(value: nat, len: nat)
    ensures
        code_value(code_of(value, len)) == value % pow2(5 * len),
    decreases len,
{
    lemma_alphabet();
    lemma2_to64();
    if len > 0 {
        let rest = (len - 1) as nat;
        lemma_code_value_code_of(value / 32, rest);
        let init = code_of(value / 32, rest);
        let code = code_of(value, len);
        assert(code.drop_last() =~= init);
        assert(code.last() == alphabet()[(value % 32) as int]);
        lemma_pow2_pos(5 * rest);
        lemma_pow2_adds(5, 5 * rest);
        assert(5 + 5 * rest == 5 * len);
        lemma_mod_breakdown(value as int, 32, pow2(5 * rest) as int);
    }
}

/// The alphabet as a string slice.
pub fn base() -> (s: &'static str)
    ensures
        s@ == alphabet(),
        s.is_ascii(),
{
    let s = "0123456789bcdefghjkmnpqrstuvwxyz";
    proof {
        reveal_strlit("0123456789bcdefghjkmnpqrstuvwxyz");
        assert(s@ =~= alphabet());
    }
    s
}

/// The value of the symbol `c`, or `InvalidSymbol` if `c` is no symbol.
pub fn symbol_to_index(c: char) -> (r: Result<u8, GeohashError>)
    ensures
        match r {
            Ok(i) => is_symbol(c) && i == symbol_value(c),
            Err(e) => e == GeohashError::InvalidSymbol && !is_symbol(c),
        },
{
    proof {
        lemma_alphabet();
    }
    let s = base();
    let mut i: usize = 0;
    while i < 32
        invariant
            i <= 32,
            s@ == alphabet(),
            s.is_ascii(),
            forall|j: int| 0 <= j < i ==> alphabet()[j] != c,
        decreases 32 - i,
    {
        if s.get_ascii(i) as char == c {
            return Ok(i as u8);
        }
        i += 1;
    }
    Err(GeohashError::InvalidSymbol)
}

/// The symbol whose value is `index`.
pub fn index_to_symbol(index: u8) -> (c: char)
    requires
        index < 32,
    ensures
        c == alphabet()[index as int],
{
    base().get_ascii(index as usize) as char
}

/// Whether `code` holds symbols only.
pub fn is_valid_code(code: &str) -> (r: bool)
    ensures
        r == valid_code(code@),
{
    broadcast use is_ascii_spec_bytes;

    if !code.is_ascii() {
        proof {
            if valid_code(code@) {
                lemma_valid_code_is_ascii(code@);
            }
        }
        return false;
    }
    let bytes = code.as_bytes();
    let n = bytes.len();
    let mut i: usize = 0;
    while i < n
        invariant
            i <= n,
            n == code@.len(),
            code.is_ascii(),
            bytes@ == code.spec_bytes(),
            forall|j: int| 0 <= j < i ==> is_symbol(#[trigger] code@[j]),
        decreases n - i,
    {
        if symbol_to_index(bytes[i] as char).is_err() {
            return false;
        }
        i += 1;
    }
    true
}

/// The number that `code` writes in base 32.
///
/// A character outside the alphabet is refused before the length is looked
/// at; a valid code of more than `MAX_PRECISION` symbols does not fit.
pub fn to_value(code: &str) -> (r: Result<u64, GeohashError>)
    ensures
        match r {
            Ok(v) => code_error(code@) is None && v == code_value(code@),
            Err(e) => code_error(code@) == Some(e),
        },
{
    broadcast use is_ascii_spec_bytes;

    if !code.is_ascii() {
        proof {
            if valid_code(code@) {
                lemma_valid_code_is_ascii(code@);
            }
        }
        return Err(GeohashError::InvalidSymbol);
    }
    let bytes = code.as_bytes();
    let n = bytes.len();
    if n > MAX_PRECISION as usize {
        return if is_valid_code(code) {
            Err(GeohashError::InvalidPrecision)
        } else {
            Err(GeohashError::InvalidSymbol)
        };
    }
    let mut value: u64 = 0;
    let mut i: usize = 0;
    proof {
        lemma2_to64();
    }
    while i < n
        invariant
            i <= n <= 12,
            n == code@.len(),
            code.is_ascii(),
            bytes@ == code.spec_bytes(),
            valid_code(code@.take(i as int)),
            value == code_value(code@.take(i as int)),
            value < pow2(5 * i as nat),
        decreases n - i,
    {
        let digit = match symbol_to_index(bytes[i] as char) {
            Ok(digit) => digit,
            Err(e) => {
                proof {
                    assert(!is_symbol(code@[i as int]));
                }
                return Err(e);
            },
        };
        proof {
            let next = code@.take(i + 1);
            assert(next.drop_last() =~= code@.take(i as int));
            assert(next.last() == code@[i as int]);
            assert forall|j: int| 0 <= j < next.len() implies is_symbol(#[trigger] next[j]) by {
                if j < i {
                    assert(next[j] == code@.take(i as int)[j]);
                }
            }
            lemma_alphabet();
            lemma_pow2_adds(5 * i as nat, 5);
            lemma_pow2_strictly_increases(5 * i as nat + 5, 64);
            lemma2_to64();
        }
        value = value * 32 + digit as u64;
        i += 1;
    }
    proof {
        assert(code@.take(n as int) =~= code@);
    }
    Ok(value)
}

/// The code of `precision` symbols that writes the low `5 * precision` bits
/// of `value`, most significant group first.
pub fn from_value(value: u64, precision: u32) -> (r: Result<String, GeohashError>)
    ensures
        match r {
            Ok(code) => {
                &&& precision <= MAX_PRECISION
                &&& code@ == code_of(value as nat, precision as nat)
                &&& code@.len() == precision
                &&& valid_code(code@)
            },
            Err(e) => e == GeohashError::InvalidPrecision && precision > MAX_PRECISION,
        },
{
    if precision > MAX_PRECISION {
        return Err(GeohashError::InvalidPrecision);
    }
    let symbols = base();
    let mut code = String::new();
    let mut i: u32 = precision;
    proof {
        lemma2_to64();
        lemma_u64_shr_is_div(value, (5 * i) as u64);
        assert(value as nat / pow2((5 * i) as nat) == (value >> ((5 * i) as u64)) as nat);
    }
    while i > 0
        invariant
            i <= precision <= 12,
            symbols@ == alphabet(),
            symbols.is_ascii(),
            code@ == code_of(value as nat / pow2((5 * i) as nat), (precision - i) as nat),
        decreases i,
    {
        i -= 1;
        let shifted: u64 = value >> (5 * i);
        let group: u64 = shifted & 0x1F;
        proof {
            assert(shifted & 0x1F == shifted % 32) by (bit_vector);
            lemma_u64_shr_is_div(value, (5 * i) as u64);
            lemma_pow2_adds((5 * i) as nat, 5);
            lemma_pow2_pos((5 * i) as nat);
            lemma2_to64();
            lemma_div_denominator(value as int, pow2((5 * i) as nat) as int, 32);
            assert(shifted as nat / 32 == value as nat / pow2((5 * (i + 1)) as nat));
        }
        let index = group as usize;
        code.append(symbols.substring_ascii(index, index + 1));
        proof {
            let emitted = (precision - i) as nat;
            assert(code@ =~= code_of(shifted as nat, emitted));
        }
    }
    proof {
        lemma2_to64();
        assert(value as nat / pow2(0) == value as nat);
        lemma_code_of_valid(value as nat, precision as nat);
    }
    Ok(code)
}

} // verus!
