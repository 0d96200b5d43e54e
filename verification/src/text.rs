//! Verified operations on text: comparison, case, prefixes and the
//! formatting of numbers.

use vstd::prelude::*;

verus! {

/// Compares two strings by their characters.
pub fn same_text(a: &str, b: &str) -> (r: bool)
    ensures
        r == (a@ == b@),
{
    let x = String::from_str(a);
    let y = String::from_str(b);
    x == y
}

/// Calls `String::push`: appends one character.
#[verifier::external_body]
fn push_char(s: &mut String, c: char)
    ensures
        final(s)@ == old(s)@.push(c),
{
    s.push(c);
}

/// The upper-case form of an ASCII character; other characters are kept.
pub open spec fn ascii_upper(c: char) -> char {
    if 'a' <= c && c <= 'z' {
        ((c as u32) - 32) as char
    } else {
        c
    }
}

/// The lower-case form of an ASCII character; other characters are kept.
pub open spec fn ascii_lower(c: char) -> char {
    if 'A' <= c && c <= 'Z' {
        ((c as u32) + 32) as char
    } else {
        c
    }
}

/// Every character is ASCII.
pub open spec fn all_ascii(s: Seq<char>) -> bool {
    forall|i: int| 0 <= i < s.len() ==> (#[trigger] s[i] as u32) < 128
}

/// What `str::to_uppercase` gives for `s`: its Unicode upper-case form.
pub uninterp spec fn spec_to_uppercase(s: Seq<char>) -> Seq<char>;

/// What `str::to_lowercase` gives for `s`: its Unicode lower-case form.
pub uninterp spec fn spec_to_lowercase(s: Seq<char>) -> Seq<char>;

/// The upper-case form of a text: on ASCII text each letter `a`..`z`
/// becomes `A`..`Z` and every other character stays; of other text, what
/// `str::to_uppercase` gives.
#[verifier::opaque]
pub open spec fn upper_text(s: Seq<char>) -> Seq<char> {
    if all_ascii(s) {
        s.map_values(|c: char| ascii_upper(c))
    } else {
        spec_to_uppercase(s)
    }
}

/// The lower-case form of a text: on ASCII text each letter `A`..`Z`
/// becomes `a`..`z` and every other character stays; of other text, what
/// `str::to_lowercase` gives.
#[verifier::opaque]
pub open spec fn lower_text(s: Seq<char>) -> Seq<char> {
    if all_ascii(s) {
        s.map_values(|c: char| ascii_lower(c))
    } else {
        spec_to_lowercase(s)
    }
}

/// Calls `str::to_uppercase`. The contract claims that the result is
/// [`spec_to_uppercase`] of the text, and that on ASCII text each letter
/// `a`..`z` becomes `A`..`Z` and every other character stays
/// ([`upper_text`]); of other text it states no more than the name.
#[verifier::external_body]
pub(crate) fn to_uppercase(s: &str) -> (r: String)
    ensures
        r@ == spec_to_uppercase(s@),
        r@ == upper_text(s@),
{
    s.to_uppercase()
}

/// Calls `str::to_lowercase`. The contract claims that the result is
/// [`spec_to_lowercase`] of the text, and that on ASCII text each letter
/// `A`..`Z` becomes `a`..`z` and every other character stays
/// ([`lower_text`]); of other text it states no more than the name.
#[verifier::external_body]
pub(crate) fn to_lowercase(s: &str) -> (r: String)
    ensures
        r@ == spec_to_lowercase(s@),
        r@ == lower_text(s@),
{
    s.to_lowercase()
}

/// `s` without a leading `RISCV_`, or `s` itself where it has none.
pub open spec fn strip_riscv(s: Seq<char>) -> Seq<char> {
    if s.len() >= 6 && s.take(6) == "RISCV_"@ {
        s.skip(6)
    } else {
        s
    }
}

/// `name.strip_prefix("RISCV_").unwrap_or(name)`.
pub fn strip_riscv_prefix(name: &str) -> (r: String)
    ensures
        r@ == strip_riscv(name@),
{
    let prefix = "RISCV_";
    proof {
        reveal_strlit("RISCV_");
    }
    let n = name.unicode_len();
    if n < 6 {
        return String::from_str(name);
    }
    let mut i: usize = 0;
    while i < 6
        invariant
            i <= 6,
            n == name@.len(),
            n >= 6,
            prefix@ == "RISCV_"@,
            prefix@.len() == 6,
            forall|j: int| 0 <= j < i ==> name@[j] == prefix@[j],
        decreases 6 - i,
    {
        if name.get_char(i) != prefix.get_char(i) {
            assert(name@.take(6)[i as int] != "RISCV_"@[i as int]);
            return String::from_str(name);
        }
        i = i + 1;
    }
    assert(name@.take(6) =~= "RISCV_"@);
    let rest = name.substring_char(6, n);
    assert(rest@ =~= name@.skip(6));
    String::from_str(rest)
}

/// The digit of value `d` in bases up to 16, in lower case.
pub open spec fn digit_char(d: nat) -> char {
    if d < 10 {
        (d + 48) as char
    } else {
        (d + 87) as char
    }
}

/// The digits of `n` in base `base`, most significant first, without
/// leading zeros (`0` is the single digit `0`).
pub open spec fn spec_digits(n: nat, base: nat) -> Seq<char>
    decreases n,
{
    if base < 2 || n < base {
        seq![digit_char(n)]
    } else {
        proof {
            assert(n / base < n) by (nonlinear_arith)
                requires
                    base >= 2,
                    n >= base,
            ;
        }
        spec_digits(n / base, base).push(digit_char(n % base))
    }
}

/// The character of a digit value.
fn digit(d: u64) -> (r: char)
    requires
        d < 16,
    ensures
        r == digit_char(d as nat),
{
    if d < 10 {
        (d as u8 + 48) as char
    } else {
        (d as u8 + 87) as char
    }
}

/// Appends the digits of `n` in base `base`.
pub fn push_digits(s: &mut String, n: u64, base: u64)
    requires
        2 <= base <= 16,
    ensures
        final(s)@ == old(s)@ + spec_digits(n as nat, base as nat),
    decreases n,
{
    let ghost before = s@;
    if n >= base {
        assert(n / base < n) by (nonlinear_arith)
            requires
                base >= 2,
                n >= base,
        ;
        push_digits(s, n / base, base);
        assert(spec_digits(n as nat, base as nat) == spec_digits((n / base) as nat, base as nat).push(
            digit_char((n % base) as nat),
        ));
    } else {
        assert(n % base == n) by (nonlinear_arith)
            requires
                n < base,
        ;
        assert(spec_digits(n as nat, base as nat) == seq![digit_char(n as nat)]);
    }
    push_char(s, digit(n % base));
    assert(s@ =~= before + spec_digits(n as nat, base as nat));
}

/// `n` in decimal, as `{}` writes it.
pub fn fmt_decimal(n: u64) -> (r: String)
    ensures
        r@ == spec_digits(n as nat, 10),
{
    let mut s = String::new();
    push_digits(&mut s, n, 10);
    s
}

/// `n` in hexadecimal with a `0x` prefix, as `{:#x}` writes it.
pub open spec fn spec_hex_alt(n: nat) -> Seq<char> {
    "0x"@ + spec_digits(n, 16)
}

/// `n` in hexadecimal with a `0x` prefix, as `{:#x}` writes it.
pub fn fmt_hex_alt(n: u64) -> (r: String)
    ensures
        r@ == spec_hex_alt(n as nat),
{
    let mut s = String::from_str("0x");
    push_digits(&mut s, n, 16);
    s
}

/// `n` in binary with a `0b` prefix, padded with zeros after the prefix to
/// `width` characters in all, as `{:#0width$b}` writes it.
pub open spec fn spec_binary_alt(n: nat, width: nat) -> Seq<char> {
    let digits = spec_digits(n, 2);
    let pad = if width > digits.len() + 2 {
        width - digits.len() - 2
    } else {
        0
    };
    "0b"@ + Seq::new(pad as nat, |i: int| '0') + digits
}

/// `n` in binary with a `0b` prefix, padded with zeros after the prefix to
/// `width` characters in all, as `{:#0width$b}` writes it.
pub fn fmt_binary_alt(n: u64, width: usize) -> (r: String)
    ensures
        r@ == spec_binary_alt(n as nat, width as nat),
{
    let mut digits = String::new();
    push_digits(&mut digits, n, 2);
    let len = digits.as_str().unicode_len();
    let pad: usize = if width >= 2 && width - 2 > len {
        width - 2 - len
    } else {
        0
    };
    let mut s = String::from_str("0b");
    let ghost start = s@;
    let mut i: usize = 0;
    while i < pad
        invariant
            i <= pad,
            s@ == start + Seq::new(i as nat, |j: int| '0'),
        decreases pad - i,
    {
        push_char(&mut s, '0');
        i = i + 1;
        assert(s@ =~= start + Seq::new(i as nat, |j: int| '0'));
    }
    s.append(digits.as_str());
    assert(s@ =~= spec_binary_alt(n as nat, width as nat));
    s
}

/// A signed number in decimal, as `{}` writes it.
pub open spec fn spec_signed(n: int) -> Seq<char> {
    if n < 0 {
        "-"@ + spec_digits((-n) as nat, 10)
    } else {
        spec_digits(n as nat, 10)
    }
}

/// `Some(x)` or `None`, as `{:?}` writes an optional number.
pub open spec fn spec_option_debug(x: Option<int>) -> Seq<char> {
    match x {
        Some(v) => "Some("@ + spec_signed(v) + ")"@,
        None => "None"@,
    }
}

/// An optional number as `{:?}` writes it.
pub fn fmt_option_debug(x: Option<i64>) -> (r: String)
    ensures
        r@ == spec_option_debug(
            match x {
                Some(v) => Some(v as int),
                None => None,
            },
        ),
{
    match x {
        Some(v) => {
            let mut s = String::from_str("Some(");
            if v < 0 {
                s.append("-");
                let m: u64 = if v == i64::MIN {
                    0x8000_0000_0000_0000
                } else {
                    (-v) as u64
                };
                push_digits(&mut s, m, 10);
            } else {
                push_digits(&mut s, v as u64, 10);
            }
            s.append(")");
            s
        },
        None => String::from_str("None"),
    }
}

/// `true` or `false`, as `{}` writes a boolean.
pub open spec fn spec_bool(b: bool) -> Seq<char> {
    if b {
        "true"@
    } else {
        "false"@
    }
}

/// A boolean as `{}` writes it.
pub fn fmt_bool(b: bool) -> (r: String)
    ensures
        r@ == spec_bool(b),
{
    if b {
        String::from_str("true")
    } else {
        String::from_str("false")
    }
}

/// The texts that `f` gives for the elements of `s`, one after another.
pub open spec fn concat_all<A>(s: Seq<A>, f: spec_fn(A) -> Seq<char>) -> Seq<char>
    decreases s.len(),
{
    if s.len() == 0 {
        Seq::empty()
    } else {
        concat_all(s.drop_last(), f) + f(s.last())
    }
}

/// The text for the first `i + 1` elements is that for the first `i`,
/// followed by the text for element `i`.
pub proof fn lemma_concat_all_step<A>(s: Seq<A>, f: spec_fn(A) -> Seq<char>, i: int)
    requires
        0 <= i < s.len(),
    ensures
        concat_all(s.take(i + 1), f) == concat_all(s.take(i), f) + f(s[i]),
{
    assert(s.take(i + 1).drop_last() =~= s.take(i));
}

/// The text for all elements is that for the first `s.len()` elements.
pub proof fn lemma_concat_all_full<A>(s: Seq<A>, f: spec_fn(A) -> Seq<char>)
    ensures
        concat_all(s.take(s.len() as int), f) == concat_all(s, f),
        concat_all(s.take(0), f) == Seq::<char>::empty(),
{
    assert(s.take(s.len() as int) =~= s);
    assert(s.take(0) =~= Seq::<A>::empty());
}

/// `line` occurs in `t`: some stretch of `t` is `line`.
pub open spec fn contains_text(t: Seq<char>, line: Seq<char>) -> bool {
    exists|p: int| 0 <= p && p + line.len() <= t.len() && #[trigger] t.subrange(p, p + line.len()) == line
}

/// What occurs in `t` occurs in any text that has `t` in its middle.
pub proof fn lemma_contains_in_middle(a: Seq<char>, t: Seq<char>, b: Seq<char>, line: Seq<char>)
    requires
        contains_text(t, line),
    ensures
        contains_text(a + t + b, line),
{
    let p = choose|p: int| 0 <= p && p + line.len() <= t.len() && #[trigger] t.subrange(p, p + line.len()) == line;
    let q = a.len() + p;
    assert((a + t + b).subrange(q, q + line.len()) =~= t.subrange(p, p + line.len()));
}

/// A text occurs in itself.
pub proof fn lemma_contains_self(t: Seq<char>)
    ensures
        contains_text(t, t),
{
    assert(t.subrange(0, 0 + t.len() as int) =~= t);
}

/// The text that `f` gives for each element of `s` occurs in the texts of
/// all elements one after another.
pub proof fn lemma_concat_all_contains<A>(s: Seq<A>, f: spec_fn(A) -> Seq<char>, k: int)
    requires
        0 <= k < s.len(),
    ensures
        contains_text(concat_all(s, f), f(s[k])),
    decreases s.len(),
{
    let rest = concat_all(s.drop_last(), f);
    if k == s.len() - 1 {
        lemma_contains_self(f(s[k]));
        lemma_contains_in_middle(rest, f(s[k]), Seq::empty(), f(s[k]));
        assert(rest + f(s[k]) + Seq::<char>::empty() =~= concat_all(s, f));
    } else {
        assert(s.drop_last()[k] == s[k]);
        lemma_concat_all_contains(s.drop_last(), f, k);
        lemma_contains_in_middle(Seq::empty(), rest, f(s.last()), f(s[k]));
        assert(Seq::<char>::empty() + rest + f(s.last()) =~= concat_all(s, f));
    }
}

} // verus!
