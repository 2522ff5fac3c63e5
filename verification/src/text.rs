//! Text building blocks: decimal and hexadecimal rendering of integers,
//! substring search and character substitution.

use vstd::prelude::*;
use vstd::string::{StrSliceExecFns, StringExecFns};

verus! {

/// The ASCII digit for a value below sixteen (lower-case for ten and above).
pub open spec fn digit_char(d: nat) -> char {
    if d < 10 {
        (48 + d) as char
    } else {
        (87 + d) as char
    }
}

/// Decimal rendering of a natural number, without leading zeros.
pub open spec fn dec(n: nat) -> Seq<char>
    decreases n,
{
    if n < 10 {
        seq![digit_char(n)]
    } else {
        dec(n / 10).push(digit_char(n % 10))
    }
}

/// Lower-case hexadecimal rendering of a natural number, without prefix or leading zeros.
pub open spec fn hex(n: nat) -> Seq<char>
    decreases n,
{
    if n < 16 {
        seq![digit_char(n)]
    } else {
        hex(n / 16).push(digit_char(n % 16))
    }
}

proof fn lemma_dec_len(n: nat)
    ensures
        dec(n).len() >= 1,
        n >= 10 ==> dec(n).len() >= 2,
    decreases n,
{
    if n >= 10 {
        lemma_dec_len(n / 10);
    }
}

proof fn lemma_digit_injective(a: nat, b: nat)
    requires
        a < 10,
        b < 10,
        digit_char(a) == digit_char(b),
    ensures
        a == b,
{
    assert(digit_char(a) as int == 48 + a);
    assert(digit_char(b) as int == 48 + b);
}

/// Distinct numbers have distinct decimal renderings.
pub proof fn dec_injective(n: nat, m: nat)
    requires
        dec(n) == dec(m),
    ensures
        n == m,
    decreases n,
{
    lemma_dec_len(n);
    lemma_dec_len(m);
    if n < 10 && m < 10 {
        assert(dec(n) == seq![digit_char(n)]);
        assert(dec(m) == seq![digit_char(m)]);
        assert(dec(n)[0] == digit_char(n));
        assert(dec(m)[0] == digit_char(m));
        lemma_digit_injective(n, m);
    } else if n >= 10 && m >= 10 {
        assert(dec(n).drop_last() == dec(n / 10));
        assert(dec(m).drop_last() == dec(m / 10));
        dec_injective(n / 10, m / 10);
        assert(dec(n) == dec(n / 10).push(digit_char(n % 10)));
        assert(dec(m) == dec(m / 10).push(digit_char(m % 10)));
        assert(dec(n).last() == digit_char(n % 10));
        assert(dec(m).last() == digit_char(m % 10));
        lemma_digit_injective(n % 10, m % 10);
    } else {
        assert(dec(n).len() != dec(m).len());
    }
}

/// Whether `c` is a lower-case hexadecimal digit.
pub open spec fn is_hex_digit(c: char) -> bool {
    ('0' <= c && c <= '9') || ('a' <= c && c <= 'f')
}

/// The value of a lower-case hexadecimal digit.
pub open spec fn hex_digit_value(c: char) -> int {
    if c <= '9' {
        c as int - 48
    } else {
        c as int - 87
    }
}

/// The value of a string of hexadecimal digits, most significant first.
pub open spec fn hex_value(s: Seq<char>) -> int
    decreases s.len(),
{
    if s.len() == 0 {
        0
    } else {
        hex_value(s.drop_last()) * 16 + hex_digit_value(s.last())
    }
}

/// `h` is a lower-case hexadecimal numeral without leading zeros.
pub open spec fn is_hex_numeral(h: Seq<char>) -> bool {
    &&& h.len() >= 1
    &&& forall|j: int| 0 <= j < h.len() ==> is_hex_digit(#[trigger] h[j])
    &&& h.len() > 1 ==> h[0] != '0'
}

/// The hexadecimal rendering of `n` is a lower-case numeral without leading
/// zeros whose value is `n`.
pub proof fn hex_renders_value(n: nat)
    ensures
        is_hex_numeral(hex(n)),
        hex_value(hex(n)) == n,
    decreases n,
{
    if n < 16 {
        let c = digit_char(n);
        assert(c as int == if n < 10 { 48 + n } else { 87 + n });
        assert(hex(n) == seq![c]);
        assert(seq![c].drop_last() =~= Seq::<char>::empty());
        assert(seq![c].last() == c);
        assert(hex_value(Seq::<char>::empty()) == 0);
        assert(hex_value(seq![c]) == hex_digit_value(c));
    } else {
        hex_renders_value(n / 16);
        let d = n % 16;
        let c = digit_char(d);
        assert(c as int == if d < 10 { 48 + d } else { 87 + d });
        let h = hex(n / 16);
        assert(hex(n) == h.push(c));
        assert(h.push(c).drop_last() =~= h);
        assert(hex_value(h.push(c)) == hex_value(h) * 16 + hex_digit_value(c));
        assert((n / 16) * 16 + n % 16 == n) by (nonlinear_arith);
        assert forall|j: int| 0 <= j < hex(n).len() implies is_hex_digit(#[trigger] hex(n)[j]) by {
            if j < h.len() {
                assert(hex(n)[j] == h[j]);
            }
        }
        assert(hex(n)[0] == h[0]);
        if h.len() == 1 {
            assert(n / 16 >= 1);
            assert(h[0] != '0') by {
                if h[0] == '0' {
                    assert(hex_value(h) == hex_value(h.drop_last()) * 16 + hex_digit_value(h[0]));
                    assert(h.drop_last() =~= Seq::<char>::empty());
                    assert(hex_value(Seq::<char>::empty()) == 0);
                    assert(h.last() == h[0]);
                }
            }
        }
    }
}

/// Distinct numbers have distinct hexadecimal renderings.
pub proof fn hex_injective(n: nat, m: nat)
    requires
        hex(n) == hex(m),
    ensures
        n == m,
{
    hex_renders_value(n);
    hex_renders_value(m);
}

/// Appends `c` to `s`.
#[verifier::external_body]
pub(crate) fn push_char(s: &mut String, c: char)
    ensures
        final(s)@ == old(s)@.push(c),
{
    s.push(c);
}

fn digit(d: u64) -> (c: char)
    requires
        d < 16,
    ensures
        c == digit_char(d as nat),
{
    if d < 10 {
        ((48 + d) as u8) as char
    } else {
        ((87 + d) as u8) as char
    }
}

/// Appends the decimal rendering of `n` to `s`.
pub fn push_dec(s: &mut String, n: u64)
    ensures
        final(s)@ == old(s)@ + dec(n as nat),
    decreases n,
{
    if n < 10 {
        push_char(s, digit(n));
    } else {
        push_dec(s, n / 10);
        push_char(s, digit(n % 10));
    }
}

/// Appends the lower-case hexadecimal rendering of `n` to `s`.
pub fn push_hex(s: &mut String, n: u64)
    ensures
        final(s)@ == old(s)@ + hex(n as nat),
    decreases n,
{
    if n < 16 {
        push_char(s, digit(n));
    } else {
        push_hex(s, n / 16);
        push_char(s, digit(n % 16));
    }
}

/// Appends `t` to `s`.
pub fn push_str(s: &mut String, t: &str)
    ensures
        final(s)@ == old(s)@ + t@,
{
    s.append(t);
}

/// Signed decimal rendering of an integer.
pub open spec fn sdec(v: int) -> Seq<char> {
    if v < 0 {
        "-"@ + dec((-v) as nat)
    } else {
        dec(v as nat)
    }
}

/// Appends the signed decimal rendering of `v` to `s`.
pub fn push_sdec(s: &mut String, v: i64)
    ensures
        final(s)@ == old(s)@ + sdec(v as int),
{
    if v < 0 {
        push_char(s, '-');
        let magnitude: u64 = if v == i64::MIN {
            9_223_372_036_854_775_808u64
        } else {
            (-v) as u64
        };
        push_dec(s, magnitude);
        proof {
            reveal_strlit("-");
            assert("-"@ == seq!['-']);
        }
    } else {
        push_dec(s, v as u64);
    }
}

/// The views of a sequence of strings.
pub open spec fn str_views(v: Seq<String>) -> Seq<Seq<char>> {
    v.map_values(|t: String| t@)
}

/// `s` with every `from` replaced by `to`.
pub open spec fn replace_char(s: Seq<char>, from: char, to: char) -> Seq<char> {
    s.map_values(|c: char| if c == from { to } else { c })
}

/// Returns `s` with every occurrence of `from` replaced by `to`.
pub fn replace_char_in(s: &str, from: char, to: char) -> (r: String)
    ensures
        r@ == replace_char(s@, from, to),
{
    let n = s.unicode_len();
    let mut r = String::new();
    let mut i: usize = 0;
    while i < n
        invariant
            n == s@.len(),
            i <= n,
            r@ == replace_char(s@.take(i as int), from, to),
        decreases n - i,
    {
        let c = s.get_char(i);
        push_char(&mut r, if c == from { to } else { c });
        assert(s@.take(i + 1) == s@.take(i as int).push(c));
        assert(replace_char(s@.take(i + 1), from, to) == replace_char(s@.take(i as int), from, to).push(
            if c == from { to } else { c },
        ));
        i = i + 1;
    }
    assert(s@.take(n as int) == s@);
    r
}

/// Whether `c` is alphabetic or numeric in the Unicode sense.
pub uninterp spec fn char_alphanumeric(c: char) -> bool;

/// Whether `c` is alphanumeric, as `char::is_alphanumeric` decides.
#[verifier::external_body]
pub(crate) fn is_alphanumeric(c: char) -> (b: bool)
    ensures
        b == char_alphanumeric(c),
{
    c.is_alphanumeric()
}

/// Whether `needle` occurs in `s` at position `i`.
pub open spec fn occurs_at(s: Seq<char>, needle: Seq<char>, i: int) -> bool {
    0 <= i && i + needle.len() <= s.len() && s.subrange(i, i + needle.len()) == needle
}

/// Whether `needle` occurs somewhere in `s`.
pub open spec fn contains_str(s: Seq<char>, needle: Seq<char>) -> bool {
    exists|i: int| occurs_at(s, needle, i)
}

/// Whether `needle` occurs in `s`.
pub fn str_contains(s: &str, needle: &str) -> (b: bool)
    ensures
        b == contains_str(s@, needle@),
{
    let n = s.unicode_len();
    let m = needle.unicode_len();
    if m > n {
        assert forall|i: int| !occurs_at(s@, needle@, i) by {}
        return false;
    }
    let mut i: usize = 0;
    while i <= n - m
        invariant
            n == s@.len(),
            m == needle@.len(),
            m <= n,
            i <= n - m + 1,
            forall|j: int| 0 <= j < i ==> !occurs_at(s@, needle@, j),
        decreases n - m + 1 - i,
    {
        let mut k: usize = 0;
        let mut same = true;
        while k < m && same
            invariant
                n == s@.len(),
                m == needle@.len(),
                i + m <= n,
                k <= m,
                same <==> forall|t: int| 0 <= t < k ==> s@[i + t] == needle@[t],
            decreases m - k,
        {
            if s.get_char(i + k) != needle.get_char(k) {
                same = false;
            }
            k = k + 1;
        }
        if same {
            assert(k == m);
            assert(s@.subrange(i as int, i + m) =~= needle@);
            assert(occurs_at(s@, needle@, i as int));
            return true;
        }
        proof {
            assert(!occurs_at(s@, needle@, i as int)) by {
                let t = choose|t: int| 0 <= t < k && s@[i + t] != needle@[t];
                assert(s@.subrange(i as int, i + m)[t] == s@[i + t]);
            }
        }
        i = i + 1;
    }
    assert forall|j: int| !occurs_at(s@, needle@, j) by {
        if 0 <= j < i {
        }
    }
    false
}

} // verus!
