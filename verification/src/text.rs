//! Building, splitting and comparing strings: decimal and hexadecimal
//! numbers, lines and separated fields of a text table, trimming, and the one
//! trusted call that checks UTF-8.

use vstd::prelude::*;

verus! {

/// The character of decimal digit `d`.
pub open spec fn digit_char(d: nat) -> char {
    if d == 0 {
        '0'
    } else if d == 1 {
        '1'
    } else if d == 2 {
        '2'
    } else if d == 3 {
        '3'
    } else if d == 4 {
        '4'
    } else if d == 5 {
        '5'
    } else if d == 6 {
        '6'
    } else if d == 7 {
        '7'
    } else if d == 8 {
        '8'
    } else {
        '9'
    }
}

/// The character of hexadecimal digit `d`, lower case.
pub open spec fn hex_char(d: nat) -> char {
    if d < 10 {
        digit_char(d)
    } else if d == 10 {
        'a'
    } else if d == 11 {
        'b'
    } else if d == 12 {
        'c'
    } else if d == 13 {
        'd'
    } else if d == 14 {
        'e'
    } else {
        'f'
    }
}

/// `n` in decimal, without leading zeros (`Display` for an unsigned integer).
pub open spec fn decimal(n: nat) -> Seq<char>
    decreases n,
{
    if n < 10 {
        seq![digit_char(n)]
    } else {
        decimal(n / 10) + seq![digit_char(n % 10)]
    }
}

/// `n` in decimal with a leading `-` when negative (`Display` for `i64`).
pub open spec fn signed_decimal(n: int) -> Seq<char> {
    if n < 0 {
        seq!['-'] + decimal((-n) as nat)
    } else {
        decimal(n as nat)
    }
}

/// `n` in lower-case hexadecimal, at least two digits (`{:02x}`).
pub open spec fn hex2(n: nat) -> Seq<char> {
    if n < 16 {
        seq!['0', hex_char(n)]
    } else {
        hex(n)
    }
}

/// `n` in lower-case hexadecimal without leading zeros.
pub open spec fn hex(n: nat) -> Seq<char>
    decreases n,
{
    if n < 16 {
        seq![hex_char(n)]
    } else {
        hex(n / 16) + seq![hex_char(n % 16)]
    }
}

fn digit_str(d: u64) -> (s: &'static str)
    requires
        d < 16,
    ensures
        s@ == seq![hex_char(d as nat)],
{
    proof {
        reveal_strlit("0");
        reveal_strlit("1");
        reveal_strlit("2");
        reveal_strlit("3");
        reveal_strlit("4");
        reveal_strlit("5");
        reveal_strlit("6");
        reveal_strlit("7");
        reveal_strlit("8");
        reveal_strlit("9");
        reveal_strlit("a");
        reveal_strlit("b");
        reveal_strlit("c");
        reveal_strlit("d");
        reveal_strlit("e");
        reveal_strlit("f");
    }
    let s = if d == 0 {
        "0"
    } else if d == 1 {
        "1"
    } else if d == 2 {
        "2"
    } else if d == 3 {
        "3"
    } else if d == 4 {
        "4"
    } else if d == 5 {
        "5"
    } else if d == 6 {
        "6"
    } else if d == 7 {
        "7"
    } else if d == 8 {
        "8"
    } else if d == 9 {
        "9"
    } else if d == 10 {
        "a"
    } else if d == 11 {
        "b"
    } else if d == 12 {
        "c"
    } else if d == 13 {
        "d"
    } else if d == 14 {
        "e"
    } else {
        "f"
    };
    assert(s@ =~= seq![hex_char(d as nat)]);
    s
}

/// Append `n` in decimal to `out`.
pub fn push_decimal(out: &mut String, n: u64)
    ensures
        final(out)@ == old(out)@ + decimal(n as nat),
    decreases n,
{
    if n >= 10 {
        push_decimal(out, n / 10);
        out.append(digit_str(n % 10));
        assert(out@ =~= old(out)@ + decimal(n as nat));
    } else {
        out.append(digit_str(n));
        assert(out@ =~= old(out)@ + decimal(n as nat));
    }
}

/// Append `n` in decimal, with a sign when negative, to `out`.
pub fn push_signed_decimal(out: &mut String, n: i64)
    ensures
        final(out)@ == old(out)@ + signed_decimal(n as int),
{
    if n < 0 {
        proof {
            reveal_strlit("-");
        }
        out.append("-");
        let m: u64 = if n == i64::MIN {
            0x8000_0000_0000_0000
        } else {
            (-n) as u64
        };
        push_decimal(out, m);
        assert(out@ =~= old(out)@ + signed_decimal(n as int));
    } else {
        push_decimal(out, n as u64);
    }
}

/// Append `n` in lower-case hexadecimal to `out`.
pub fn push_hex(out: &mut String, n: u64)
    ensures
        final(out)@ == old(out)@ + hex(n as nat),
    decreases n,
{
    if n >= 16 {
        push_hex(out, n / 16);
        out.append(digit_str(n % 16));
        assert(out@ =~= old(out)@ + hex(n as nat));
    } else {
        out.append(digit_str(n));
        assert(out@ =~= old(out)@ + hex(n as nat));
    }
}

/// Append `n` in lower-case hexadecimal, padded to two digits, to `out`.
pub fn push_hex2(out: &mut String, n: u64)
    ensures
        final(out)@ == old(out)@ + hex2(n as nat),
{
    if n < 16 {
        out.append(digit_str(0));
        out.append(digit_str(n));
        assert(out@ =~= old(out)@ + hex2(n as nat));
    } else {
        push_hex(out, n);
    }
}

/// `n` in decimal.
pub fn decimal_string(n: u64) -> (s: String)
    ensures
        s@ == decimal(n as nat),
{
    let mut s = String::new();
    push_decimal(&mut s, n);
    assert(s@ =~= decimal(n as nat));
    s
}


// ---------------------------------------------------------------- splitting

/// The position of the first `c` in `s`.
pub open spec fn find_char(s: Seq<char>, c: char) -> Option<nat>
    decreases s.len(),
{
    if s.len() == 0 {
        None
    } else if s[0] == c {
        Some(0)
    } else {
        match find_char(s.drop_first(), c) {
            Some(k) => Some(k + 1),
            None => None,
        }
    }
}

/// `str::split` on one character: the pieces between the separators, at
/// least one.
pub open spec fn split_on(s: Seq<char>, c: char) -> Seq<Seq<char>>
    decreases s.len(),
{
    match find_char(s, c) {
        None => seq![s],
        Some(i) => if i < s.len() {
            seq![s.take(i as int)] + split_on(s.skip(i as int + 1), c)
        } else {
            seq![s]
        },
    }
}

/// A line without the `\r` of a `\r\n` ending.
pub open spec fn strip_cr(t: Seq<char>) -> Seq<char> {
    if t.len() > 0 && t.last() == '\r' {
        t.drop_last()
    } else {
        t
    }
}

/// `str::lines`: the pieces between `\n`s, each without a `\r` before its
/// `\n`, and no empty piece after a final `\n`.
pub open spec fn lines_of(s: Seq<char>) -> Seq<Seq<char>>
    decreases s.len(),
{
    if s.len() == 0 {
        seq![]
    } else {
        match find_char(s, '\n') {
            None => seq![s],
            Some(i) => if i < s.len() {
                seq![strip_cr(s.take(i as int))] + lines_of(s.skip(i + 1 as int))
            } else {
                seq![s]
            },
        }
    }
}

/// Unicode `White_Space`, which `char::is_whitespace` tests.
pub open spec fn is_space(c: char) -> bool {
    let v = c as u32;
    (0x09 <= v <= 0x0D) || v == 0x20 || v == 0x85 || v == 0xA0 || v == 0x1680 || (0x2000 <= v
        <= 0x200A) || v == 0x2028 || v == 0x2029 || v == 0x202F || v == 0x205F || v == 0x3000
}

/// How many characters at the front of `s` are white space.
pub open spec fn leading_space(s: Seq<char>) -> nat
    decreases s.len(),
{
    if s.len() > 0 && is_space(s[0]) {
        1 + leading_space(s.drop_first())
    } else {
        0
    }
}

/// How many characters at the end of `s` are white space.
pub open spec fn trailing_space(s: Seq<char>) -> nat
    decreases s.len(),
{
    if s.len() > 0 && is_space(s.last()) {
        1 + trailing_space(s.drop_last())
    } else {
        0
    }
}

/// `str::trim`: `s` without white space at either end.
pub open spec fn trimmed(s: Seq<char>) -> Seq<char> {
    let a = leading_space(s) as int;
    let t = s.skip(a);
    t.take(t.len() - trailing_space(t))
}

pub proof fn lemma_find_char_at(s: Seq<char>, c: char, j: int)
    requires
        0 <= j < s.len(),
        s[j] == c,
        forall|k: int| 0 <= k < j ==> s[k] != c,
    ensures
        find_char(s, c) == Some(j as nat),
    decreases j,
{
    if j > 0 {
        lemma_find_char_at(s.drop_first(), c, j - 1);
    }
}

pub proof fn lemma_find_char_none(s: Seq<char>, c: char)
    requires
        forall|k: int| 0 <= k < s.len() ==> s[k] != c,
    ensures
        find_char(s, c) is None,
    decreases s.len(),
{
    if s.len() > 0 {
        lemma_find_char_none(s.drop_first(), c);
    }
}

proof fn lemma_leading_space_at(s: Seq<char>, j: int)
    requires
        0 <= j <= s.len(),
        forall|k: int| 0 <= k < j ==> is_space(#[trigger] s[k]),
        j < s.len() ==> !is_space(s[j]),
    ensures
        leading_space(s) == j,
    decreases j,
{
    if j > 0 {
        lemma_leading_space_at(s.drop_first(), j - 1);
    }
}

proof fn lemma_trailing_space_at(s: Seq<char>, j: int)
    requires
        0 <= j <= s.len(),
        forall|k: int| s.len() - j <= k < s.len() ==> is_space(#[trigger] s[k]),
        j < s.len() ==> !is_space(s[s.len() - 1 - j]),
    ensures
        trailing_space(s) == j,
    decreases j,
{
    if j > 0 {
        lemma_trailing_space_at(s.drop_last(), j - 1);
    }
}

/// The characters of `s`.
pub fn chars_of(s: &str) -> (v: Vec<char>)
    ensures
        v@ == s@,
{
    let mut v: Vec<char> = Vec::new();
    let ghost cs = s@;
    for c in it: s.chars()
        invariant
            it.seq() == cs,
            v@ == cs.take(it.index() as int),
    {
        let ghost k = it.index() as int;
        v.push(c);
        assert(v@ =~= cs.take(k + 1));
    }
    assert(cs.take(cs.len() as int) =~= cs);
    v
}

/// The characters of `s` from `a` to `b` as a new string.
pub fn piece(s: &str, a: usize, b: usize) -> (r: String)
    requires
        a <= b <= s@.len(),
    ensures
        r@ == s@.subrange(a as int, b as int),
{
    String::from_str(s.substring_char(a, b))
}

/// Whether `c` is white space (`char::is_whitespace`).
pub fn char_is_space(c: char) -> (r: bool)
    ensures
        r == is_space(c),
{
    let v = c as u32;
    (0x09 <= v && v <= 0x0D) || v == 0x20 || v == 0x85 || v == 0xA0 || v == 0x1680 || (0x2000
        <= v && v <= 0x200A) || v == 0x2028 || v == 0x2029 || v == 0x202F || v == 0x205F || v
        == 0x3000
}

/// `s.split(sep)`, each piece as a new string.
pub fn split_char(s: &str, sep: char) -> (r: Vec<String>)
    ensures
        r@.len() == split_on(s@, sep).len(),
        forall|k: int| 0 <= k < r@.len() ==> #[trigger] r@[k]@ == split_on(s@, sep)[k],
{
    let cs = chars_of(s);
    let ghost full = s@;
    let mut out: Vec<String> = Vec::new();
    let ghost mut done: Seq<Seq<char>> = seq![];
    let mut start: usize = 0;
    let mut i: usize = 0;
    assert(full.skip(0) =~= full);
    while i < cs.len()
        invariant
            cs@ == full,
            full == s@,
            start <= i <= cs@.len(),
            forall|k: int| start <= k < i ==> cs@[k] != sep,
            out@.len() == done.len(),
            forall|k: int| 0 <= k < out@.len() ==> #[trigger] out@[k]@ == done[k],
            done + split_on(full.skip(start as int), sep) == split_on(full, sep),
        decreases cs@.len() - i,
    {
        if cs[i] == sep {
            let ghost rest = full.skip(start as int);
            proof {
                lemma_find_char_at(rest, sep, (i - start) as int);
                assert(rest.take((i - start) as int) =~= full.subrange(start as int, i as int));
                assert(rest.skip((i - start) as int + 1) =~= full.skip(i + 1));
            }
            let p = piece(s, start, i);
            out.push(p);
            proof {
                done = done.push(full.subrange(start as int, i as int));
                assert(done + split_on(full.skip(i + 1), sep) =~= (done.drop_last() + seq![
                    full.subrange(start as int, i as int)]) + split_on(full.skip(i + 1), sep));
            }
            start = i + 1;
        }
        i = i + 1;
    }
    let ghost rest = full.skip(start as int);
    proof {
        lemma_find_char_none(rest, sep);
        assert(rest =~= full.subrange(start as int, full.len() as int));
    }
    let p = piece(s, start, cs.len());
    out.push(p);
    proof {
        done = done.push(rest);
        assert(done =~= split_on(full, sep));
    }
    out
}

/// `s.lines()`, each line as a new string.
pub fn lines(s: &str) -> (r: Vec<String>)
    ensures
        r@.len() == lines_of(s@).len(),
        forall|k: int| 0 <= k < r@.len() ==> #[trigger] r@[k]@ == lines_of(s@)[k],
{
    let cs = chars_of(s);
    let ghost full = s@;
    let mut out: Vec<String> = Vec::new();
    let ghost mut done: Seq<Seq<char>> = seq![];
    let mut start: usize = 0;
    let mut i: usize = 0;
    assert(full.skip(0) =~= full);
    while i < cs.len()
        invariant
            cs@ == full,
            full == s@,
            start <= i <= cs@.len(),
            forall|k: int| start <= k < i ==> cs@[k] != '\n',
            out@.len() == done.len(),
            forall|k: int| 0 <= k < out@.len() ==> #[trigger] out@[k]@ == done[k],
            done + lines_of(full.skip(start as int)) == lines_of(full),
        decreases cs@.len() - i,
    {
        if cs[i] == '\n' {
            let ghost rest = full.skip(start as int);
            proof {
                lemma_find_char_at(rest, '\n', (i - start) as int);
                assert(rest.take((i - start) as int) =~= full.subrange(start as int, i as int));
                assert(rest.skip((i - start) as int + 1) =~= full.skip(i + 1));
            }
            let end = if i > start && cs[i - 1] == '\r' {
                i - 1
            } else {
                i
            };
            let ghost line = full.subrange(start as int, i as int);
            assert(strip_cr(line) =~= full.subrange(start as int, end as int));
            let p = piece(s, start, end);
            out.push(p);
            proof {
                done = done.push(strip_cr(line));
                assert(done + lines_of(full.skip(i + 1)) =~= (done.drop_last() + seq![
                    strip_cr(line)]) + lines_of(full.skip(i + 1)));
            }
            start = i + 1;
        }
        i = i + 1;
    }
    let ghost rest = full.skip(start as int);
    proof {
        lemma_find_char_none(rest, '\n');
        assert(rest =~= full.subrange(start as int, full.len() as int));
    }
    if start < cs.len() {
        let p = piece(s, start, cs.len());
        out.push(p);
        proof {
            done = done.push(rest);
        }
    } else {
        assert(rest.len() == 0);
    }
    assert(done =~= lines_of(full));
    out
}

/// `s.trim()` as a new string.
pub fn trim(s: &str) -> (r: String)
    ensures
        r@ == trimmed(s@),
{
    let cs = chars_of(s);
    let ghost full = s@;
    let mut a: usize = 0;
    while a < cs.len() && char_is_space(cs[a])
        invariant
            cs@ == full,
            a <= cs@.len(),
            forall|k: int| 0 <= k < a ==> is_space(#[trigger] full[k]),
        decreases cs@.len() - a,
    {
        a = a + 1;
    }
    proof {
        lemma_leading_space_at(full, a as int);
    }
    let mut b: usize = cs.len();
    while b > a && char_is_space(cs[b - 1])
        invariant
            cs@ == full,
            a <= b <= cs@.len(),
            forall|k: int| b <= k < full.len() ==> is_space(#[trigger] full[k]),
        decreases b,
    {
        b = b - 1;
    }
    let ghost t = full.skip(a as int);
    proof {
        assert forall|k: int| t.len() - (full.len() - b) <= k < t.len() implies is_space(
            #[trigger] t[k],
        ) by {
            assert(t[k] == full[k + a]);
        }
        if b > a {
            assert(t[t.len() - 1 - (full.len() - b)] == full[b - 1]);
        }
        lemma_trailing_space_at(t, (full.len() - b) as int);
        assert(t.take(t.len() - trailing_space(t)) =~= full.subrange(a as int, b as int));
    }
    piece(s, a, b)
}

/// `std::str::from_utf8`: the bytes as a string when they are valid UTF-8.
/// Claimed: a string comes back exactly when the bytes are valid UTF-8, and
/// it is the string those bytes encode.
#[verifier::external_body]
pub fn str_from_utf8(bytes: &[u8]) -> (r: Option<&str>)
    ensures
        r is Some <==> vstd::utf8::valid_utf8(bytes@),
        r matches Some(s) ==> vstd::utf8::encode_utf8(s@) == bytes@,
{
    std::str::from_utf8(bytes).ok()
}

/// Whether two strings are equal, compared byte by byte.
pub fn str_eq(a: &str, b: &str) -> (r: bool)
    ensures
        r == (a@ == b@),
{
    let x = a.as_bytes();
    let y = b.as_bytes();
    proof {
        vstd::utf8::encode_utf8_decode_utf8(a@);
        vstd::utf8::encode_utf8_decode_utf8(b@);
    }
    if x.len() != y.len() {
        return false;
    }
    let mut i: usize = 0;
    while i < x.len()
        invariant
            x@ == vstd::utf8::encode_utf8(a@),
            y@ == vstd::utf8::encode_utf8(b@),
            x@.len() == y@.len(),
            i <= x@.len(),
            forall|j: int| 0 <= j < i ==> x@[j] == y@[j],
        decreases x@.len() - i,
    {
        if x[i] != y[i] {
            return false;
        }
        i = i + 1;
    }
    assert(x@ =~= y@);
    true
}

} // verus!
