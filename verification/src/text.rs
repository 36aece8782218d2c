//! Character-level text helpers shared by the renderers and parsers:
//! strings as character sequences, decimal numerals, whitespace, lines.

use vstd::prelude::*;

verus! {

/// std's `String::push`, which its documentation describes as appending the
/// given `char` to the end of the string: the string afterwards holds the
/// old characters followed by `ch`.
pub assume_specification[ String::push ](s: &mut String, ch: char)
    ensures
        final(s)@ == old(s)@.push(ch),
;

/// The characters of `s`, in order.
pub fn chars_of(s: &str) -> (v: Vec<char>)
    ensures
        v@ == s@,
{
    let mut v: Vec<char> = Vec::new();
    for ch in it: s.chars()
        invariant
            v@ == it.seq().take(it.index()),
            it.seq() == s@,
    {
        v.push(ch);
    }
    v
}

/// A string holding exactly the characters of `v`.
pub fn string_of(v: &Vec<char>) -> (s: String)
    ensures
        s@ == v@,
{
    let mut s = String::new();
    let mut i: usize = 0;
    while i < v.len()
        invariant
            i <= v@.len(),
            s@ == v@.take(i as int),
        decreases v@.len() - i,
    {
        s.push(v[i]);
        assert(v@.take(i + 1) =~= v@.take(i as int).push(v@[i as int]));
        i = i + 1;
    }
    assert(v@.take(v@.len() as int) =~= v@);
    s
}


/// The ASCII digit for `d < 10`.
pub open spec fn digit_char(d: nat) -> char {
    if d == 0 {
        '0'
    } else if d == 1 {
        '1'
    } else if d == 2 {
        '2'
    } else if d == 3 {
        '3'
    } else if d == 4 {
        '4'
    } else if d == 5 {
        '5'
    } else if d == 6 {
        '6'
    } else if d == 7 {
        '7'
    } else if d == 8 {
        '8'
    } else {
        '9'
    }
}

/// The decimal numeral of `n`, without leading zeros.
pub open spec fn decimal(n: nat) -> Seq<char>
    decreases n,
{
    if n < 10 {
        seq![digit_char(n)]
    } else {
        decimal(n / 10).push(digit_char(n % 10))
    }
}

/// The decimal numeral of a signed integer: a `-` before negative values.
pub open spec fn signed_decimal(n: int) -> Seq<char> {
    if n < 0 {
        seq!['-'] + decimal((-n) as nat)
    } else {
        decimal(n as nat)
    }
}

/// `10^k`.
pub open spec fn pow10(k: nat) -> nat
    decreases k,
{
    if k == 0 {
        1
    } else {
        10 * pow10((k - 1) as nat)
    }
}

/// A decimal numeral is made of digits only (no space, no sign), has at
/// least one of them, at least two from 10 on, and at most `k` below `10^k`.
pub proof fn lemma_decimal_shape(n: nat, k: nat)
    ensures
        decimal(n).len() >= 1,
        n >= 10 ==> decimal(n).len() >= 2,
        k >= 1 && n < pow10(k) ==> decimal(n).len() <= k,
        forall|i: int| 0 <= i < decimal(n).len() ==> #[trigger] decimal(n)[i] != ' ' && decimal(n)[i]
            != '-',
    decreases n,
{
    if n >= 10 {
        let km: nat = if k >= 1 {
            (k - 1) as nat
        } else {
            0
        };
        lemma_decimal_shape(n / 10, km);
        if k >= 1 && n < pow10(k) {
            assert(n / 10 < pow10(km));
            if km == 0 {
                assert(pow10(1) == 10);
            }
        }
        assert forall|i: int| 0 <= i < decimal(n).len() implies #[trigger] decimal(n)[i] != ' '
            && decimal(n)[i] != '-' by {
            if i < decimal(n).len() - 1 {
                assert(decimal(n)[i] == decimal(n / 10)[i]);
            }
        }
    }
}

proof fn lemma_digit_char_injective(a: nat, b: nat)
    requires
        a < 10,
        b < 10,
        digit_char(a) == digit_char(b),
    ensures
        a == b,
{
}

/// Different numbers have different numerals.
pub proof fn lemma_decimal_injective(a: nat, b: nat)
    requires
        decimal(a) == decimal(b),
    ensures
        a == b,
    decreases a,
{
    lemma_decimal_shape(a, 0);
    lemma_decimal_shape(b, 0);
    if a < 10 && b < 10 {
        assert(decimal(a) == seq![digit_char(a)]);
        assert(decimal(b) == seq![digit_char(b)]);
        assert(decimal(a)[0] == digit_char(a));
        assert(decimal(b)[0] == digit_char(b));
        lemma_digit_char_injective(a, b);
    } else if a >= 10 && b >= 10 {
        assert(decimal(a) == decimal(a / 10).push(digit_char(a % 10)));
        assert(decimal(b) == decimal(b / 10).push(digit_char(b % 10)));
        assert(decimal(a).last() == digit_char(a % 10));
        assert(decimal(b).last() == digit_char(b % 10));
        lemma_digit_char_injective(a % 10, b % 10);
        assert(decimal(a).drop_last() =~= decimal(a / 10));
        assert(decimal(b).drop_last() =~= decimal(b / 10));
        lemma_decimal_injective(a / 10, b / 10);
    }
}

/// Different integers have different signed numerals.
pub proof fn lemma_signed_decimal_injective(a: int, b: int)
    requires
        signed_decimal(a) == signed_decimal(b),
    ensures
        a == b,
{
    let ma: nat = if a < 0 { (-a) as nat } else { a as nat };
    let mb: nat = if b < 0 { (-b) as nat } else { b as nat };
    lemma_decimal_shape(ma, 0);
    lemma_decimal_shape(mb, 0);
    if a < 0 && b < 0 {
        assert(signed_decimal(a).drop_first() =~= decimal(ma));
        assert(signed_decimal(b).drop_first() =~= decimal(mb));
        lemma_decimal_injective(ma, mb);
    } else if a >= 0 && b >= 0 {
        lemma_decimal_injective(ma, mb);
    } else if a < 0 {
        assert(signed_decimal(a)[0] == '-');
        assert(signed_decimal(b)[0] == decimal(mb)[0]);
    } else {
        assert(signed_decimal(b)[0] == '-');
        assert(signed_decimal(a)[0] == decimal(ma)[0]);
    }
}

pub fn digit(d: u64) -> (c: char)
    requires
        d < 10,
    ensures
        c == digit_char(d as nat),
{
    if d == 0 {
        '0'
    } else if d == 1 {
        '1'
    } else if d == 2 {
        '2'
    } else if d == 3 {
        '3'
    } else if d == 4 {
        '4'
    } else if d == 5 {
        '5'
    } else if d == 6 {
        '6'
    } else if d == 7 {
        '7'
    } else if d == 8 {
        '8'
    } else {
        '9'
    }
}

/// Append the decimal numeral of `n`.
pub fn push_decimal(out: &mut Vec<char>, n: u64)
    ensures
        final(out)@ == old(out)@ + decimal(n as nat),
    decreases n,
{
    if n >= 10 {
        push_decimal(out, n / 10);
    }
    out.push(digit(n % 10));
    proof {
        if n >= 10 {
            assert(old(out)@ + decimal(n as nat) =~= old(out)@ + decimal((n / 10) as nat) + seq![
                digit_char((n % 10) as nat),
            ]);
        } else {
            assert(old(out)@ + decimal(n as nat) =~= old(out)@.push(digit_char((n % 10) as nat)));
        }
    }
}

/// Append the decimal numeral of a signed `n`, with a leading `-` when negative.
pub fn push_signed_decimal(out: &mut Vec<char>, n: i64)
    ensures
        final(out)@ == old(out)@ + signed_decimal(n as int),
{
    if n < 0 {
        out.push('-');
        let mag: u64 = if n == i64::MIN {
            9223372036854775808u64
        } else {
            (-n) as u64
        };
        push_decimal(out, mag);
        assert(old(out)@ + signed_decimal(n as int) =~= old(out)@.push('-') + decimal(mag as nat));
    } else {
        push_decimal(out, n as u64);
    }
}

/// Append every character of `s`.
pub fn push_str(out: &mut Vec<char>, s: &str)
    ensures
        final(out)@ == old(out)@ + s@,
{
    let v = chars_of(s);
    let mut i: usize = 0;
    while i < v.len()
        invariant
            i <= v@.len(),
            v@ == s@,
            out@ == old(out)@ + v@.take(i as int),
        decreases v@.len() - i,
    {
        out.push(v[i]);
        assert(v@.take(i + 1) =~= v@.take(i as int).push(v@[i as int]));
        i = i + 1;
    }
    assert(v@.take(v@.len() as int) =~= v@);
}

/// Index of the first `c` in `s` at or after `from`, or `s.len()` if none.
pub open spec fn find_from(s: Seq<char>, c: char, from: int) -> int
    decreases s.len() - from,
{
    if from >= s.len() {
        s.len() as int
    } else if s[from] == c {
        from
    } else {
        find_from(s, c, from + 1)
    }
}

pub proof fn lemma_find_from(s: Seq<char>, c: char, from: int)
    requires
        0 <= from <= s.len(),
    ensures
        from <= find_from(s, c, from) <= s.len(),
        find_from(s, c, from) < s.len() ==> s[find_from(s, c, from)] == c,
        forall|k: int| from <= k < find_from(s, c, from) ==> s[k] != c,
    decreases s.len() - from,
{
    if from < s.len() && s[from] != c {
        lemma_find_from(s, c, from + 1);
    }
}

/// A line without its carriage return, if it ends in one.
pub open spec fn strip_cr(l: Seq<char>) -> Seq<char> {
    if l.len() > 0 && l.last() == '\r' {
        l.drop_last()
    } else {
        l
    }
}

/// The lines of `s` from position `from` on: split at `\n`, each line
/// without its `\n` and then without a `\r` before it; the last line needs
/// no terminator, and a final terminator opens no empty line.
pub open spec fn lines_from(s: Seq<char>, from: int) -> Seq<Seq<char>>
    decreases s.len() - from,
{
    if from < 0 || from >= s.len() {
        seq![]
    } else {
        let e = find_from(s, '\n', from);
        proof {
            lemma_find_from(s, '\n', from);
        }
        if e >= s.len() {
            seq![s.subrange(from, s.len() as int)]
        } else {
            seq![strip_cr(s.subrange(from, e))] + lines_from(s, e + 1)
        }
    }
}

/// The lines of `s`.
pub open spec fn lines(s: Seq<char>) -> Seq<Seq<char>> {
    lines_from(s, 0)
}

/// The character sequences held by a vector of character vectors.
pub open spec fn char_rows(v: Seq<Vec<char>>) -> Seq<Seq<char>> {
    v.map_values(|l: Vec<char>| l@)
}

/// Split `s` into its lines.
pub fn split_lines(s: &Vec<char>) -> (out: Vec<Vec<char>>)
    ensures
        char_rows(out@) == lines(s@),
{
    let n = s.len();
    let mut out: Vec<Vec<char>> = Vec::new();
    let mut pos: usize = 0;
    while pos < n
        invariant
            n == s@.len(),
            pos <= n,
            char_rows(out@) + lines_from(s@, pos as int) == lines(s@),
        decreases n - pos,
    {
        proof {
            lemma_find_from(s@, '\n', pos as int);
        }
        let mut e: usize = pos;
        while e < n && s[e] != '\n'
            invariant
                n == s@.len(),
                pos <= e <= n,
                find_from(s@, '\n', pos as int) == find_from(s@, '\n', e as int),
            decreases n - e,
        {
            e = e + 1;
        }
        let mut line: Vec<char> = Vec::new();
        let mut k: usize = pos;
        while k < e
            invariant
                pos <= k <= e <= n,
                n == s@.len(),
                line@ == s@.subrange(pos as int, k as int),
            decreases e - k,
        {
            line.push(s[k]);
            assert(s@.subrange(pos as int, k + 1) =~= s@.subrange(pos as int, k as int).push(s@[k as int]));
            k = k + 1;
        }
        let ghost old_rows = out@;
        if e < n {
            if line.len() > 0 && line[line.len() - 1] == '\r' {
                line.pop();
            }
            assert(line@ =~= strip_cr(s@.subrange(pos as int, e as int)));
            out.push(line);
            pos = e + 1;
        } else {
            out.push(line);
            pos = n;
        }
        assert(char_rows(out@) =~= char_rows(old_rows).push(out@.last()@));
    }
    assert(char_rows(out@) + lines_from(s@, pos as int) =~= char_rows(out@));
    out
}

/// Unicode `White_Space`, the set `char::is_whitespace` tests.
pub open spec fn is_ws(c: char) -> bool {
    let u = c as u32;
    ||| 9 <= u <= 13
    ||| u == 32
    ||| u == 0x85
    ||| u == 0xa0
    ||| u == 0x1680
    ||| 0x2000 <= u <= 0x200a
    ||| u == 0x2028
    ||| u == 0x2029
    ||| u == 0x202f
    ||| u == 0x205f
    ||| u == 0x3000
}

pub fn is_whitespace(c: char) -> (r: bool)
    ensures
        r == is_ws(c),
{
    let u = c as u32;
    (9 <= u && u <= 13) || u == 32 || u == 0x85 || u == 0xa0 || u == 0x1680 || (0x2000 <= u && u
        <= 0x200a) || u == 0x2028 || u == 0x2029 || u == 0x202f || u == 0x205f || u == 0x3000
}

/// Index of the first whitespace character at or after `from`, or `s.len()`.
pub open spec fn find_ws(s: Seq<char>, from: int) -> int
    decreases s.len() - from,
{
    if from >= s.len() {
        s.len() as int
    } else if is_ws(s[from]) {
        from
    } else {
        find_ws(s, from + 1)
    }
}

/// Index of the first non-whitespace character at or after `from`, or `s.len()`.
pub open spec fn skip_ws(s: Seq<char>, from: int) -> int
    decreases s.len() - from,
{
    if from >= s.len() {
        s.len() as int
    } else if !is_ws(s[from]) {
        from
    } else {
        skip_ws(s, from + 1)
    }
}

pub proof fn lemma_find_ws(s: Seq<char>, from: int)
    requires
        0 <= from <= s.len(),
    ensures
        from <= find_ws(s, from) <= s.len(),
        from <= skip_ws(s, from) <= s.len(),
    decreases s.len() - from,
{
    if from < s.len() {
        lemma_find_ws(s, from + 1);
    }
}

/// `s` without leading whitespace.
pub open spec fn trim_start_ws(s: Seq<char>) -> Seq<char>
    decreases s.len(),
{
    if s.len() > 0 && is_ws(s[0]) {
        trim_start_ws(s.drop_first())
    } else {
        s
    }
}

/// `s` without trailing whitespace.
pub open spec fn trim_end_ws(s: Seq<char>) -> Seq<char>
    decreases s.len(),
{
    if s.len() > 0 && is_ws(s.last()) {
        trim_end_ws(s.drop_last())
    } else {
        s
    }
}

/// `s` without leading or trailing whitespace.
pub open spec fn trim_ws(s: Seq<char>) -> Seq<char> {
    trim_end_ws(trim_start_ws(s))
}

/// The characters `v[a .. b]`.
pub fn sub_chars(v: &Vec<char>, a: usize, b: usize) -> (r: Vec<char>)
    requires
        a <= b <= v@.len(),
    ensures
        r@ == v@.subrange(a as int, b as int),
{
    let mut r: Vec<char> = Vec::new();
    let mut k = a;
    while k < b
        invariant
            a <= k <= b <= v@.len(),
            r@ == v@.subrange(a as int, k as int),
        decreases b - k,
    {
        r.push(v[k]);
        assert(v@.subrange(a as int, k + 1) =~= v@.subrange(a as int, k as int).push(v@[k as int]));
        k = k + 1;
    }
    r
}

/// `v` without leading or trailing whitespace.
pub fn trim(v: &Vec<char>) -> (r: Vec<char>)
    ensures
        r@ == trim_ws(v@),
{
    let n = v.len();
    let mut a: usize = 0;
    assert(v@.subrange(0, n as int) =~= v@);
    while a < n && is_whitespace(v[a])
        invariant
            a <= n == v@.len(),
            trim_start_ws(v@.subrange(a as int, n as int)) == trim_start_ws(v@),
        decreases n - a,
    {
        assert(v@.subrange(a as int, n as int).drop_first() =~= v@.subrange(a + 1, n as int));
        a = a + 1;
    }
    let ghost t = v@.subrange(a as int, n as int);
    assert(trim_start_ws(t) == t);
    let mut b: usize = n;
    while b > a && is_whitespace(v[b - 1])
        invariant
            a <= b <= n == v@.len(),
            t == v@.subrange(a as int, n as int),
            trim_end_ws(v@.subrange(a as int, b as int)) == trim_end_ws(t),
        decreases b,
    {
        assert(v@.subrange(a as int, b as int).drop_last() =~= v@.subrange(a as int, b - 1));
        b = b - 1;
    }
    sub_chars(v, a, b)
}

/// Whether two character vectors hold the same characters.
pub fn chars_eq(a: &Vec<char>, b: &Vec<char>) -> (r: bool)
    ensures
        r == (a@ == b@),
{
    if a.len() != b.len() {
        return false;
    }
    let mut i: usize = 0;
    while i < a.len()
        invariant
            a@.len() == b@.len(),
            i <= a@.len(),
            forall|k: int| 0 <= k < i ==> a@[k] == b@[k],
        decreases a@.len() - i,
    {
        if a[i] != b[i] {
            return false;
        }
        i = i + 1;
    }
    assert(a@ =~= b@);
    true
}

proof fn lemma_find_from_shift(p: Seq<char>, x: Seq<char>, c: char, j: int)
    requires
        0 <= j <= x.len(),
    ensures
        find_from(p + x, c, p.len() + j) == p.len() + find_from(x, c, j),
    decreases x.len() - j,
{
    if j < x.len() {
        assert((p + x)[p.len() + j] == x[j]);
        if x[j] != c {
            lemma_find_from_shift(p, x, c, j + 1);
        }
    }
}

proof fn lemma_lines_shift(p: Seq<char>, x: Seq<char>, j: int)
    requires
        0 <= j <= x.len(),
    ensures
        lines_from(p + x, p.len() + j) == lines_from(x, j),
    decreases x.len() - j,
{
    if j < x.len() {
        lemma_find_from_shift(p, x, '\n', j);
        lemma_find_from(x, '\n', j);
        let e = find_from(x, '\n', j);
        if e < x.len() {
            assert((p + x).subrange(p.len() + j, p.len() + e) =~= x.subrange(j, e));
            lemma_lines_shift(p, x, e + 1);
        } else {
            assert((p + x).subrange(p.len() + j, (p + x).len() as int) =~= x.subrange(
                j,
                x.len() as int,
            ));
        }
    }
}

proof fn lemma_lines_concat_from(a: Seq<char>, x: Seq<char>, from: int)
    requires
        0 <= from <= a.len(),
        a.len() == 0 || a.last() == '\n',
    ensures
        lines_from(a + x, from) == lines_from(a, from) + lines_from(x, 0),
    decreases a.len() - from,
{
    if from == a.len() {
        lemma_lines_shift(a, x, 0);
        assert(lines_from(a, from) =~= seq![]);
        assert(lines_from(a, from) + lines_from(x, 0) =~= lines_from(x, 0));
    } else {
        lemma_find_from(a, '\n', from);
        lemma_find_from(a + x, '\n', from);
        let e = find_from(a, '\n', from);
        assert(e < a.len()) by {
            if e >= a.len() {
                assert(a[a.len() - 1] != '\n');
            }
        }
        assert(find_from(a + x, '\n', from) == e) by {
            lemma_find_prefix(a, x, from);
        }
        assert((a + x).subrange(from, e) =~= a.subrange(from, e));
        lemma_lines_concat_from(a, x, e + 1);
        assert(lines_from(a + x, from) =~= seq![strip_cr(a.subrange(from, e))] + lines_from(
            a + x,
            e + 1,
        ));
        assert(lines_from(a, from) =~= seq![strip_cr(a.subrange(from, e))] + lines_from(a, e + 1));
    }
}

proof fn lemma_find_prefix(a: Seq<char>, x: Seq<char>, from: int)
    requires
        0 <= from <= a.len(),
        find_from(a, '\n', from) < a.len(),
    ensures
        find_from(a + x, '\n', from) == find_from(a, '\n', from),
    decreases a.len() - from,
{
    if from < a.len() && a[from] != '\n' {
        lemma_find_prefix(a, x, from + 1);
    }
}

/// The lines of text that ends in a newline, followed by more text, are the
/// lines of the first part followed by the lines of the second.
pub proof fn lemma_lines_concat(a: Seq<char>, x: Seq<char>)
    requires
        a.len() == 0 || a.last() == '\n',
    ensures
        lines(a + x) == lines(a) + lines(x),
{
    lemma_lines_concat_from(a, x, 0);
}

/// A newline-terminated line with no other newline and no carriage return
/// before its terminator is one line.
pub proof fn lemma_lines_single(r: Seq<char>)
    requires
        forall|i: int| 0 <= i < r.len() ==> r[i] != '\n',
        r.len() == 0 || r.last() != '\r',
    ensures
        lines(r.push('\n')) == seq![r],
{
    let s = r.push('\n');
    lemma_find_from(s, '\n', 0);
    let e = find_from(s, '\n', 0);
    assert(e == r.len()) by {
        if e < r.len() {
            assert(s[e] == r[e]);
        }
        if e > r.len() {
            assert(s[r.len() as int] == '\n');
        }
    }
    assert(s.subrange(0, e) =~= r);
    assert(lines_from(s, e + 1) =~= seq![]);
    assert(lines(s) =~= seq![r]);
}

} // verus!
