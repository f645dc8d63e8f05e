//! Character-level helpers shared by the lexer and the code generator.

use vstd::prelude::*;
use vstd::utf8::*;

verus! {

/// Number of bytes that `c` occupies in UTF-8.
pub open spec fn utf8_width(c: char) -> nat {
    if (c as u32) < 0x80 {
        1
    } else if (c as u32) < 0x800 {
        2
    } else if (c as u32) < 0x10000 {
        3
    } else {
        4
    }
}

/// Number of UTF-8 bytes taken by the first `n` characters of `s`.
pub open spec fn byte_len(s: Seq<char>, n: nat) -> nat
    decreases n,
{
    if n == 0 || n > s.len() {
        0
    } else {
        byte_len(s, (n - 1) as nat) + utf8_width(s[n - 1])
    }
}

/// Byte lengths of prefixes grow with the prefix.
pub proof fn lemma_byte_len_monotone(s: Seq<char>, a: nat, b: nat)
    requires
        a <= b <= s.len(),
    ensures
        byte_len(s, a) <= byte_len(s, b),
    decreases b,
{
    if a < b {
        lemma_byte_len_monotone(s, a, (b - 1) as nat);
    }
}

proof fn lemma_byte_len_front(s: Seq<char>, n: nat)
    requires
        0 < n <= s.len(),
    ensures
        byte_len(s, n) == utf8_width(s[0]) + byte_len(s.drop_first(), (n - 1) as nat),
    decreases n,
{
    if n > 1 {
        lemma_byte_len_front(s, (n - 1) as nat);
        assert(s.drop_first()[n - 2] == s[n - 1]);
    } else {
        assert(byte_len(s, 0) == 0);
        assert(byte_len(s.drop_first(), 0) == 0);
    }
}

/// The byte length of a whole text is the length of its UTF-8 encoding.
pub proof fn lemma_byte_len_is_encoded_len(s: Seq<char>)
    ensures
        byte_len(s, s.len()) == encode_utf8(s).len(),
    decreases s.len(),
{
    if s.len() > 0 {
        lemma_byte_len_front(s, s.len());
        lemma_byte_len_is_encoded_len(s.drop_first());
        char_is_scalar(s[0]);
    }
}

/// Computes the UTF-8 width of a character.
pub(crate) fn char_width(c: char) -> (w: usize)
    ensures
        w == utf8_width(c),
{
    let n: u32 = c as u32;
    if n < 0x80 {
        1
    } else if n < 0x800 {
        2
    } else if n < 0x10000 {
        3
    } else {
        4
    }
}

/// `String::push` appends one character to the text.
pub assume_specification[ String::push ](s: &mut String, c: char)
    ensures
        final(s)@ == old(s)@.push(c),
;

/// Copies the characters `v[a..b]` into a fresh string.
pub(crate) fn text_of(v: &Vec<char>, a: usize, b: usize) -> (s: String)
    requires
        a <= b <= v.len(),
    ensures
        s@ == v@.subrange(a as int, b as int),
{
    let mut s = String::new();
    let mut i: usize = a;
    while i < b
        invariant
            a <= i <= b <= v.len(),
            s@ == v@.subrange(a as int, i as int),
        decreases b - i,
    {
        s.push(v[i]);
        i += 1;
        assert(v@.subrange(a as int, i as int) =~= v@.subrange(a as int, i - 1).push(v@[i - 1]));
    }
    s
}

/// The characters of a string slice, in order.
pub(crate) fn chars_of(s: &str) -> (v: Vec<char>)
    ensures
        v@ == s@,
{
    let mut v: Vec<char> = Vec::new();
    for c in it: s.chars()
        invariant
            v@ == it.seq().take(it.index() as int),
            it.seq() == s@,
    {
        v.push(c);
    }
    v
}

/// The byte offset of every character boundary of `s`: entry `i` is the
/// number of UTF-8 bytes before character `i`.
pub(crate) fn byte_offsets(s: &str, chars: &Vec<char>) -> (t: Vec<usize>)
    requires
        chars@ == s@,
    ensures
        t@.len() == chars@.len() + 1,
        forall|i: int| 0 <= i <= chars@.len() ==> t@[i] == byte_len(chars@, i as nat),
{
    let total = s.as_bytes().len();
    proof {
        lemma_byte_len_is_encoded_len(chars@);
        assert(byte_len(chars@, chars@.len()) == total);
    }
    let mut t: Vec<usize> = Vec::new();
    let mut acc: usize = 0;
    t.push(acc);
    let mut i: usize = 0;
    while i < chars.len()
        invariant
            i <= chars.len(),
            acc == byte_len(chars@, i as nat),
            t@.len() == i + 1,
            forall|k: int| 0 <= k <= i ==> t@[k] == byte_len(chars@, k as nat),
            byte_len(chars@, chars@.len()) <= usize::MAX,
        decreases chars.len() - i,
    {
        proof {
            lemma_byte_len_monotone(chars@, (i + 1) as nat, chars@.len());
        }
        acc = acc + char_width(chars[i]);
        i += 1;
        t.push(acc);
    }
    t
}


/// The character that writes the decimal digit `d`.
pub open spec fn digit_char(d: nat) -> char {
    if d == 0 {
        '0'
    } else if d == 1 {
        '1'
    } else if d == 2 {
        '2'
    } else if d == 3 {
        '3'
    } else if d == 4 {
        '4'
    } else if d == 5 {
        '5'
    } else if d == 6 {
        '6'
    } else if d == 7 {
        '7'
    } else if d == 8 {
        '8'
    } else {
        '9'
    }
}

/// The decimal digits of a natural number, without leading zeros.
pub open spec fn dec(n: nat) -> Seq<char>
    decreases n,
{
    if n < 10 {
        seq![digit_char(n)]
    } else {
        dec(n / 10).push(digit_char(n % 10))
    }
}

/// An integer in decimal, with a minus sign when it is negative.
pub open spec fn dec_int(n: int) -> Seq<char> {
    if n < 0 {
        seq!['-'] + dec((-n) as nat)
    } else {
        dec(n as nat)
    }
}

fn digit_of(d: u8) -> (c: char)
    requires
        d < 10,
    ensures
        c == digit_char(d as nat),
{
    if d == 0 {
        '0'
    } else if d == 1 {
        '1'
    } else if d == 2 {
        '2'
    } else if d == 3 {
        '3'
    } else if d == 4 {
        '4'
    } else if d == 5 {
        '5'
    } else if d == 6 {
        '6'
    } else if d == 7 {
        '7'
    } else if d == 8 {
        '8'
    } else {
        '9'
    }
}

/// Appends the decimal digits of `n` to `out`.
pub(crate) fn push_dec(out: &mut String, n: u128)
    ensures
        final(out)@ == old(out)@ + dec(n as nat),
    decreases n,
{
    if n >= 10 {
        push_dec(out, n / 10);
    }
    out.push(digit_of((n % 10) as u8));
    assert(final(out)@ =~= old(out)@ + dec(n as nat));
}

/// Appends the integer `n` in decimal to `out`.
pub(crate) fn push_int(out: &mut String, n: i64)
    ensures
        final(out)@ == old(out)@ + dec_int(n as int),
{
    if n < 0 {
        out.push('-');
        let m: u128 = (-(n as i128)) as u128;
        push_dec(out, m);
        assert(final(out)@ =~= old(out)@ + dec_int(n as int));
    } else {
        push_dec(out, n as u128);
    }
}

/// A character that a label may hold as it is.
pub open spec fn plain(c: char) -> bool {
    ('a' <= c <= 'z') || ('0' <= c <= '9')
}

/// How one character of a name is written in a label: lower-case letters
/// and digits as they are, any other character as its code point in decimal
/// between two underscores.
pub open spec fn mangle_char(c: char) -> Seq<char> {
    if plain(c) {
        seq![c]
    } else {
        seq!['_'] + dec((c as u32) as nat) + seq!['_']
    }
}

/// The characters `name[i..]`, written for a label.
pub open spec fn mangle_from(name: Seq<char>, i: int) -> Seq<char>
    decreases name.len() - i,
{
    if i < 0 || i >= name.len() {
        Seq::empty()
    } else {
        mangle_char(name[i]) + mangle_from(name, i + 1)
    }
}

/// A name, written with the characters that an assembler accepts in a
/// label.
pub open spec fn mangle(name: Seq<char>) -> Seq<char> {
    mangle_from(name, 0)
}

/// Appends the mangled form of `name` to `out`.
pub(crate) fn push_mangled(out: &mut String, name: &str)
    ensures
        final(out)@ == old(out)@ + mangle(name@),
{
    let chars = chars_of(name);
    let mut i: usize = 0;
    while i < chars.len()
        invariant
            i <= chars.len(),
            chars@ == name@,
            old(out)@ + mangle(name@) == out@ + mangle_from(name@, i as int),
        decreases chars.len() - i,
    {
        let ghost before = out@;
        let c = chars[i];
        if ('a' <= c && c <= 'z') || ('0' <= c && c <= '9') {
            out.push(c);
        } else {
            out.push('_');
            let code: u32 = c as u32;
            push_dec(out, code as u128);
            out.push('_');
        }
        proof {
            assert(out@ =~= before + mangle_char(c));
            assert(before + (mangle_char(c) + mangle_from(name@, i + 1)) =~= out@ + mangle_from(
                name@,
                i + 1,
            ));
        }
        i += 1;
    }
    assert(out@ + Seq::<char>::empty() =~= out@);
}


/// Whether `c` is one of the digits `0` to `9`.
pub open spec fn is_digit_char(c: char) -> bool {
    '0' <= c <= '9'
}

/// A number in decimal is one or more digits.
pub proof fn lemma_dec_digits(n: nat)
    ensures
        dec(n).len() >= 1,
        forall|i: int| 0 <= i < dec(n).len() ==> is_digit_char(#[trigger] dec(n)[i]),
    decreases n,
{
    if n >= 10 {
        lemma_dec_digits(n / 10);
    }
}

/// Different numbers are written differently.
pub proof fn lemma_dec_injective(n: nat, m: nat)
    requires
        dec(n) == dec(m),
    ensures
        n == m,
    decreases n,
{
    lemma_dec_digits(n / 10);
    lemma_dec_digits(m / 10);
    if n >= 10 && m >= 10 {
        let a = dec(n / 10);
        let b = dec(m / 10);
        assert(a.push(digit_char(n % 10)).drop_last() =~= a);
        assert(b.push(digit_char(m % 10)).drop_last() =~= b);
        assert(a.push(digit_char(n % 10)).last() == digit_char(n % 10));
        assert(b.push(digit_char(m % 10)).last() == digit_char(m % 10));
        lemma_dec_injective(n / 10, m / 10);
    } else if n >= 10 {
        assert(dec(n).len() == dec(n / 10).len() + 1);
        assert(dec(m).len() == 1);
    } else if m >= 10 {
        assert(dec(m).len() == dec(m / 10).len() + 1);
        assert(dec(n).len() == 1);
    } else {
        assert(dec(n)[0] == digit_char(n));
        assert(dec(m)[0] == digit_char(m));
    }
}

/// What one character is mangled to is never empty and holds no dot.
pub proof fn lemma_mangle_char_shape(c: char)
    ensures
        mangle_char(c).len() >= 1,
        forall|i: int| 0 <= i < mangle_char(c).len() ==> #[trigger] mangle_char(c)[i] != '.',
{
    lemma_dec_digits((c as u32) as nat);
}

/// The mangled form of a character can be read back from the front of a
/// text: if two texts start with a mangled character each and are equal,
/// the characters are the same and so is what follows.
pub proof fn lemma_mangle_char_prefix(c: char, r: Seq<char>, d: char, q: Seq<char>)
    requires
        mangle_char(c) + r == mangle_char(d) + q,
    ensures
        c == d,
        r == q,
{
    let lhs = mangle_char(c) + r;
    let rhs = mangle_char(d) + q;
    assert(lhs[0] == mangle_char(c)[0]);
    assert(rhs[0] == mangle_char(d)[0]);
    if plain(c) {
        assert(plain(d));
        assert(lhs.drop_first() =~= r);
        assert(rhs.drop_first() =~= q);
    } else {
        assert(!plain(d));
        let a = dec((c as u32) as nat);
        let b = dec((d as u32) as nat);
        lemma_dec_digits((c as u32) as nat);
        lemma_dec_digits((d as u32) as nat);
        let na = a.len() as int;
        let nb = b.len() as int;
        assert(lhs[na + 1] == '_');
        assert(rhs[nb + 1] == '_');
        if na < nb {
            assert(rhs[na + 1] == b[na]);
            assert(false);
        }
        if nb < na {
            assert(lhs[nb + 1] == a[nb]);
            assert(false);
        }
        assert(a =~= b) by {
            assert forall|i: int| 0 <= i < a.len() implies a[i] == b[i] by {
                assert(lhs[i + 1] == a[i]);
                assert(rhs[i + 1] == b[i]);
            }
        }
        lemma_dec_injective((c as u32) as nat, (d as u32) as nat);
        vstd::utf8::char_u32_cast(c, c as u32);
        vstd::utf8::char_u32_cast(d, d as u32);
        assert(r =~= lhs.skip(na + 2));
        assert(q =~= rhs.skip(nb + 2));
    }
}

proof fn lemma_mangle_from_injective(a: Seq<char>, i: int, b: Seq<char>, j: int)
    requires
        0 <= i <= a.len(),
        0 <= j <= b.len(),
        mangle_from(a, i) == mangle_from(b, j),
    ensures
        a.skip(i) == b.skip(j),
    decreases a.len() - i,
{
    if i >= a.len() {
        if j < b.len() {
            lemma_mangle_char_shape(b[j]);
            assert(false);
        }
        assert(a.skip(i) =~= b.skip(j));
    } else if j >= b.len() {
        lemma_mangle_char_shape(a[i]);
        assert(false);
    } else {
        lemma_mangle_char_prefix(a[i], mangle_from(a, i + 1), b[j], mangle_from(b, j + 1));
        lemma_mangle_from_injective(a, i + 1, b, j + 1);
        assert(a.skip(i) =~= seq![a[i]] + a.skip(i + 1));
        assert(b.skip(j) =~= seq![b[j]] + b.skip(j + 1));
    }
}

/// Different names are mangled differently.
pub proof fn lemma_mangle_injective(a: Seq<char>, b: Seq<char>)
    requires
        mangle(a) == mangle(b),
    ensures
        a == b,
{
    lemma_mangle_from_injective(a, 0, b, 0);
    assert(a.skip(0) =~= a);
    assert(b.skip(0) =~= b);
}

/// A mangled name holds no dot.
pub proof fn lemma_mangle_no_dot(name: Seq<char>, i: int)
    requires
        0 <= i,
    ensures
        forall|k: int| 0 <= k < mangle_from(name, i).len() ==> #[trigger] mangle_from(name, i)[k]
            != '.',
    decreases name.len() - i,
{
    if i < name.len() {
        lemma_mangle_char_shape(name[i]);
        lemma_mangle_no_dot(name, i + 1);
        let head = mangle_char(name[i]);
        let rest = mangle_from(name, i + 1);
        assert forall|k: int| 0 <= k < mangle_from(name, i).len() implies #[trigger] mangle_from(
            name,
            i,
        )[k] != '.' by {
            if k < head.len() {
                assert(mangle_from(name, i)[k] == head[k]);
            } else {
                assert(mangle_from(name, i)[k] == rest[k - head.len()]);
            }
        }
    }
}

} // verus!
