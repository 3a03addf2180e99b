use vstd::prelude::*;

verus! {

/// Largest code that fits the six-character output: 40^6 - 1.
pub const BASE40_MAX: u32 = 0xF423_FFFF;

/// The character that a base-40 digit decodes to. Digits 11 to 13 are reserved
/// and decode to the same separator as digit 0.
pub open spec fn digit_char(d: u8) -> char {
    if d == 0 {
        '-'
    } else if d < 11 {
        ((48 + d - 1) as u8) as char
    } else if d < 14 {
        '-'
    } else {
        ((65 + d - 14) as u8) as char
    }
}

/// The decoded string of `code`: its base-40 digits, least significant first.
pub open spec fn base40_chars(code: nat) -> Seq<char>
    decreases code,
{
    if code == 0 {
        Seq::empty()
    } else {
        seq![digit_char((code % 40) as u8)] + base40_chars(code / 40)
    }
}

/// The digit that a character encodes to, if it is in the alphabet. The
/// separator `-` always encodes to digit 0: digits 11 to 13 cannot come back.
pub open spec fn char_digit(c: char) -> Option<u8> {
    if c == '-' {
        Some(0u8)
    } else if '0' <= c && c <= '9' {
        Some((c as u8 - 48 + 1) as u8)
    } else if 'A' <= c && c <= 'Z' {
        Some((c as u8 - 65 + 14) as u8)
    } else {
        None
    }
}

/// Whether every character of `s` is in the alphabet.
pub open spec fn base40_alphabet(s: Seq<char>) -> bool {
    forall|i: int| 0 <= i < s.len() ==> (#[trigger] char_digit(s[i])) is Some
}

/// The number whose base-40 digits, least significant first, are those of `s`.
pub open spec fn base40_value(s: Seq<char>) -> nat
    decreases s.len(),
{
    if s.len() == 0 {
        0
    } else {
        char_digit(s[0]).unwrap() as nat + 40 * base40_value(s.drop_first())
    }
}

/// 40 to the power `n`.
pub open spec fn pow40(n: nat) -> nat
    decreases n,
{
    if n == 0 {
        1
    } else {
        40 * pow40((n - 1) as nat)
    }
}

/// Relies on String::push: the character is appended at the end.
#[verifier::external_body]
fn push_char(s: &mut String, c: char)
    ensures
        final(s)@ == old(s)@.push(c),
{
    s.push(c)
}

fn digit_to_char(d: u8) -> (c: char)
    requires
        d < 40,
    ensures
        c == digit_char(d),
{
    if d == 0 {
        '-'
    } else if d < 11 {
        (48u8 + d - 1) as char
    } else if d < 14 {
        '-'
    } else {
        (65u8 + d - 14) as char
    }
}

/// Decodes a compact string: `None` exactly when `code` exceeds `BASE40_MAX`.
pub fn base40_decode(code: u32) -> (r: Option<String>)
    ensures
        code > BASE40_MAX <==> r is None,
        r matches Some(s) ==> s@ == base40_chars(code as nat),
{
    if code > BASE40_MAX {
        return None;
    }
    let mut decoded = String::new();
    let mut mcode: u32 = code;
    while mcode > 0
        invariant
            decoded@ + base40_chars(mcode as nat) == base40_chars(code as nat),
        decreases mcode,
    {
        let s: u8 = (mcode % 40) as u8;
        let c = digit_to_char(s);
        assert(decoded@.push(c) + base40_chars((mcode / 40) as nat) =~= decoded@ + base40_chars(
            mcode as nat,
        ));
        push_char(&mut decoded, c);
        mcode = mcode / 40;
    }
    assert(decoded@ =~= decoded@ + base40_chars(0));
    Some(decoded)
}

fn char_to_digit(c: char) -> (r: Option<u8>)
    ensures
        r == char_digit(c),
{
    if c == '-' {
        Some(0)
    } else if '0' <= c && c <= '9' {
        Some(c as u8 - 48u8 + 1)
    } else if 'A' <= c && c <= 'Z' {
        Some(c as u8 - 65u8 + 14)
    } else {
        None
    }
}

proof fn lemma_pow40_five()
    ensures
        pow40(5) == 102400000,
{
    assert(pow40(0) == 1);
    assert(pow40(1) == 40);
    assert(pow40(2) == 1600);
    assert(pow40(3) == 64000);
    assert(pow40(4) == 2560000);
}

/// Encodes a compact string: `Some` exactly when every character is `-`, a
/// digit or an upper-case letter and there are at most six of them. The code
/// is lossy where decoding is: `-` always becomes digit 0.
pub fn base40_encode(s: &str) -> (r: Option<u32>)
    ensures
        r is Some <==> (s@.len() <= 6 && base40_alphabet(s@)),
        r matches Some(v) ==> v as nat == base40_value(s@),
{
    let n = s.unicode_len();
    if n > 6 {
        return None;
    }
    let mut i: usize = n;
    let mut v: u32 = 0;
    while i > 0
        invariant
            n == s@.len(),
            n <= 6,
            i <= n,
            base40_alphabet(s@.subrange(i as int, n as int)),
            v as nat == base40_value(s@.subrange(i as int, n as int)),
            v < pow40((n - i) as nat),
        decreases i,
    {
        let c = s.get_char(i - 1);
        let ghost tail = s@.subrange(i as int, n as int);
        let ghost next = s@.subrange(i - 1, n as int);
        assert(next.drop_first() =~= tail);
        assert(next[0] == c);
        match char_to_digit(c) {
            None => {
                return None;
            },
            Some(d) => {
                proof {
                    lemma_pow40_five();
                }
                assert(n - i < 6);
                proof {
                    lemma_pow40_mono((n - i) as nat, 5);
                }
                assert(v * 40 + d < 40 * pow40((n - i) as nat)) by (nonlinear_arith)
                    requires
                        d < 40,
                        v < pow40((n - i) as nat),
                ;
                v = v * 40 + d as u32;
                assert forall|k: int| 0 <= k < next.len() implies (#[trigger] char_digit(
                    next[k],
                )) is Some by {
                    if k > 0 {
                        assert(next[k] == tail[k - 1]);
                    }
                }
                i -= 1;
            },
        }
    }
    assert(s@.subrange(0, n as int) =~= s@);
    Some(v)
}

proof fn lemma_pow40_mono(a: nat, b: nat)
    requires
        a <= b,
    ensures
        pow40(a) <= pow40(b),
    decreases b,
{
    if a < b {
        lemma_pow40_mono(a, (b - 1) as nat);
    }
}

/// A string of at most six characters of the alphabet encodes within range.
pub proof fn lemma_value_in_range(s: Seq<char>)
    requires
        base40_alphabet(s),
        s.len() <= 6,
    ensures
        base40_value(s) <= BASE40_MAX,
{
    lemma_value_bound(s);
    lemma_pow40_mono(s.len(), 6);
    lemma_pow40_five();
    assert(pow40(6) == 40 * pow40(5));
}

proof fn lemma_value_bound(s: Seq<char>)
    requires
        base40_alphabet(s),
    ensures
        base40_value(s) < pow40(s.len()),
    decreases s.len(),
{
    if s.len() > 0 {
        let rest = s.drop_first();
        lemma_alphabet_rest(s);
        lemma_value_bound(rest);
        let d = char_digit(s[0]).unwrap() as nat;
        let v = base40_value(rest);
        let p = pow40(rest.len());
        assert(d + 40 * v < 40 * p) by (nonlinear_arith)
            requires
                d < 40,
                v < p,
        ;
    }
}

proof fn lemma_digit_char_inverse(c: char)
    requires
        char_digit(c) is Some,
    ensures
        char_digit(c).unwrap() < 40,
        digit_char(char_digit(c).unwrap()) == c,
        c != '-' ==> char_digit(c).unwrap() > 0,
{
    if '0' <= c && c <= '9' {
        assert(((c as u8) as char) == c);
    } else if 'A' <= c && c <= 'Z' {
        assert(((c as u8) as char) == c);
    }
}

proof fn lemma_alphabet_rest(s: Seq<char>)
    requires
        s.len() > 0,
        base40_alphabet(s),
    ensures
        base40_alphabet(s.drop_first()),
        char_digit(s[0]) is Some,
{
    let rest = s.drop_first();
    assert forall|i: int| 0 <= i < rest.len() implies (#[trigger] char_digit(rest[i])) is Some by {
        assert(rest[i] == s[i + 1]);
    }
    assert(char_digit(s[0]) is Some);
}

proof fn lemma_value_positive(s: Seq<char>)
    requires
        s.len() > 0,
        base40_alphabet(s),
        s.last() != '-',
    ensures
        base40_value(s) > 0,
    decreases s.len(),
{
    lemma_alphabet_rest(s);
    lemma_digit_char_inverse(s[0]);
    if s.len() > 1 {
        assert(s.drop_first().last() == s.last());
        lemma_value_positive(s.drop_first());
    }
}

/// Encoding then decoding gives the string back, for a string of the
/// alphabet that does not end in the separator (a trailing `-` is digit 0,
/// which decoding never produces at the most significant end).
pub proof fn lemma_base40_round_trip(s: Seq<char>)
    requires
        base40_alphabet(s),
        s.len() == 0 || s.last() != '-',
    ensures
        base40_chars(base40_value(s)) == s,
    decreases s.len(),
{
    if s.len() > 0 {
        let rest = s.drop_first();
        lemma_alphabet_rest(s);
        lemma_digit_char_inverse(s[0]);
        lemma_value_positive(s);
        if rest.len() > 0 {
            assert(rest.last() == s.last());
        }
        lemma_base40_round_trip(rest);
        let d = char_digit(s[0]).unwrap() as nat;
        let v = base40_value(s);
        assert(v % 40 == d && v / 40 == base40_value(rest));
        assert(base40_chars(v) =~= seq![s[0]] + rest);
        assert(seq![s[0]] + rest =~= s);
    }
}

/// A code in range whose base-40 digits are all decimal digits (1 to 10).
pub open spec fn numeric_code(code: nat) -> bool
    decreases code,
{
    code == 0 || (1 <= code % 40 <= 10 && numeric_code(code / 40))
}

/// A code whose base-40 digits all lie in 1 to 10 decodes to decimal digits only.
pub proof fn lemma_numeric_code(code: nat)
    requires
        numeric_code(code),
    ensures
        forall|i: int|
            0 <= i < base40_chars(code).len() ==> '0' <= #[trigger] base40_chars(code)[i] <= '9',
    decreases code,
{
    if code > 0 {
        lemma_numeric_code(code / 40);
        let rest = base40_chars(code / 40);
        let c = digit_char((code % 40) as u8);
        assert(base40_chars(code) == seq![c] + rest);
        assert forall|i: int| 0 <= i < base40_chars(code).len() implies '0'
            <= #[trigger] base40_chars(code)[i] <= '9' by {
            if i > 0 {
                assert(base40_chars(code)[i] == rest[i - 1]);
            }
        }
    }
}

} // verus!
