//! The `.prs` scene format: one widget declaration per line,
//!
//! ```text
//! label x=2 y=0 fg=4 text="hello world"
//! block x=0 y=3 w=20 h=2 fg=3 ch=#
//! ```
//!
//! Blank lines and lines starting with `#` are skipped. A declaration is the
//! widget kind, then `key=value` pairs; a value is either quoted (up to the
//! next `"`, or the end of the line) or runs to the next whitespace.
//! Positions and sizes default to `x=0 y=0 h=1`; a block's width defaults
//! to 0 and a label's to the length of its text, so a label without `w`
//! shows all of its text.

use vstd::prelude::*;
use crate::cellbuffer::{BufView, Cell, CellBuffer, write_chars};
use crate::text::{
    char_rows, chars_eq, chars_of, find_from, find_ws, is_whitespace, is_ws, lemma_find_from,
    lemma_find_ws, lines, push_str, skip_ws, split_lines, string_of, sub_chars, trim, trim_ws,
};
use crate::widgets::{Block, Label, Rect, Widget, WidgetNode, fill_block, saturating_end, shown};

verus! {

/// Why a scene source was rejected.
#[derive(Debug, Clone, PartialEq, Eq)]
pub enum SceneError {
    UnknownWidget(String),
    MalformedLine(String),
}

impl SceneError {
    /// The error as a message: `unknown widget kind: …` or `malformed scene line: …`.
    pub fn to_string(&self) -> (s: String)
        ensures
            s@ == match self {
                SceneError::UnknownWidget(k) => "unknown widget kind: "@ + k@,
                SceneError::MalformedLine(l) => "malformed scene line: "@ + l@,
            },
    {
        let mut out: Vec<char> = Vec::new();
        match self {
            SceneError::UnknownWidget(k) => {
                push_str(&mut out, "unknown widget kind: ");
                push_str(&mut out, k.as_str());
            },
            SceneError::MalformedLine(l) => {
                push_str(&mut out, "malformed scene line: ");
                push_str(&mut out, l.as_str());
            },
        }
        string_of(&out)
    }
}

/// One widget with the rectangle it paints into.
pub type SceneItem = (WidgetNode, Rect);

/// The `key=value` pairs of `s` from position `p` on.
pub open spec fn kv_from(s: Seq<char>, p: int) -> Seq<(Seq<char>, Seq<char>)>
    decreases s.len() - p,
{
    if p < 0 || p >= s.len() {
        seq![]
    } else {
        let t = skip_ws(s, p);
        proof {
            lemma_find_ws(s, p);
        }
        if t >= s.len() {
            seq![]
        } else {
            let eq = find_from(s, '=', t);
            proof {
                lemma_find_from(s, '=', t);
            }
            if eq >= s.len() {
                seq![]
            } else {
                let key = s.subrange(t, eq);
                let vs = eq + 1;
                if vs < s.len() && s[vs] == '"' {
                    let close = find_from(s, '"', vs + 1);
                    proof {
                        lemma_find_from(s, '"', vs + 1);
                    }
                    let next = if close < s.len() {
                        close + 1
                    } else {
                        s.len() as int
                    };
                    seq![(key, s.subrange(vs + 1, close))] + kv_from(s, next)
                } else {
                    let end = find_ws(s, vs);
                    proof {
                        lemma_find_ws(s, vs);
                    }
                    seq![(key, s.subrange(vs, end))] + kv_from(s, end)
                }
            }
        }
    }
}

/// The `key=value` pairs of `s`: keys run from the next non-blank character
/// to the next `=`; a token with no `=` ends the list.
pub open spec fn kv_pairs(s: Seq<char>) -> Seq<(Seq<char>, Seq<char>)> {
    kv_from(s, 0)
}

proof fn lemma_find_from_at(s: Seq<char>, c: char, from: int, e: int)
    requires
        0 <= from <= e <= s.len(),
        forall|i: int| from <= i < e ==> s[i] != c,
        e == s.len() || s[e] == c,
    ensures
        find_from(s, c, from) == e,
    decreases e - from,
{
    if from < e {
        lemma_find_from_at(s, c, from + 1, e);
    }
}

proof fn lemma_find_ws_at(s: Seq<char>, from: int, e: int)
    requires
        0 <= from <= e <= s.len(),
        forall|i: int| from <= i < e ==> !is_ws(s[i]),
        e == s.len() || is_ws(s[e]),
    ensures
        find_ws(s, from) == e,
    decreases e - from,
{
    if from < e {
        lemma_find_ws_at(s, from + 1, e);
    }
}

proof fn lemma_shift_finds(p: Seq<char>, x: Seq<char>, c: char, j: int)
    requires
        0 <= j <= x.len(),
    ensures
        find_from(p + x, c, p.len() + j) == p.len() + find_from(x, c, j),
        find_ws(p + x, p.len() + j) == p.len() + find_ws(x, j),
        skip_ws(p + x, p.len() + j) == p.len() + skip_ws(x, j),
    decreases x.len() - j,
{
    if j < x.len() {
        assert((p + x)[p.len() + j] == x[j]);
        lemma_shift_finds(p, x, c, j + 1);
    }
}

/// The pairs read from text after a prefix are those read from the text alone.
proof fn lemma_kv_from_shift(p: Seq<char>, x: Seq<char>, j: int)
    requires
        0 <= j <= x.len(),
    ensures
        kv_from(p + x, p.len() + j) == kv_from(x, j),
    decreases x.len() - j,
{
    let s = p + x;
    let o = p.len() as int;
    if j < x.len() {
        lemma_shift_finds(p, x, '=', j);
        lemma_find_ws(x, j);
        let t = skip_ws(x, j);
        if t < x.len() {
            lemma_shift_finds(p, x, '=', t);
            lemma_find_from(x, '=', t);
            let eq = find_from(x, '=', t);
            if eq < x.len() {
                assert(s.subrange(o + t, o + eq) =~= x.subrange(t, eq));
                let vs = eq + 1;
                if vs < x.len() && x[vs] == '"' {
                    assert(s[o + vs] == x[vs]);
                    lemma_shift_finds(p, x, '"', vs + 1);
                    lemma_find_from(x, '"', vs + 1);
                    let close = find_from(x, '"', vs + 1);
                    assert(s.subrange(o + vs + 1, o + close) =~= x.subrange(vs + 1, close));
                    if close < x.len() {
                        lemma_kv_from_shift(p, x, close + 1);
                    } else {
                        lemma_kv_from_shift(p, x, x.len() as int);
                    }
                } else {
                    if vs < x.len() {
                        assert(s[o + vs] == x[vs]);
                    }
                    lemma_shift_finds(p, x, '=', vs);
                    lemma_find_ws(x, vs);
                    let end = find_ws(x, vs);
                    assert(s.subrange(o + vs, o + end) =~= x.subrange(vs, end));
                    lemma_kv_from_shift(p, x, end);
                }
            }
        }
    }
}

proof fn lemma_skip_ws_at(s: Seq<char>, from: int, e: int)
    requires
        0 <= from <= e <= s.len(),
        forall|i: int| from <= i < e ==> is_ws(s[i]),
        e == s.len() || !is_ws(s[e]),
    ensures
        skip_ws(s, from) == e,
    decreases e - from,
{
    if from < e {
        lemma_skip_ws_at(s, from + 1, e);
    }
}

/// Every character of `s` is whitespace.
pub open spec fn blank(s: Seq<char>) -> bool {
    forall|i: int| 0 <= i < s.len() ==> is_ws(#[trigger] s[i])
}

/// A well-formed pair: a non-empty key without `=` or whitespace, and a
/// value that is bare (no whitespace, no leading `"`) or quoted (no `"`).
pub open spec fn pair_ok(k: Seq<char>, v: Seq<char>, quoted: bool) -> bool {
    &&& k.len() > 0
    &&& forall|i: int| 0 <= i < k.len() ==> k[i] != '=' && !is_ws(#[trigger] k[i])
    &&& if quoted {
        forall|i: int| 0 <= i < v.len() ==> #[trigger] v[i] != '"'
    } else {
        &&& forall|i: int| 0 <= i < v.len() ==> !is_ws(#[trigger] v[i])
        &&& v.len() == 0 || v[0] != '"'
    }
}

/// One pair written out after the whitespace `lead`: `key=value` or
/// `key="value"`.
pub open spec fn pair_text(lead: Seq<char>, k: Seq<char>, v: Seq<char>, quoted: bool) -> Seq<char> {
    lead + k + seq!['='] + (if quoted {
        seq!['"'] + v + seq!['"']
    } else {
        v
    })
}

/// Pairs `(lead, key, value, quoted)` written out one after another.
pub open spec fn kv_text(ps: Seq<(Seq<char>, Seq<char>, Seq<char>, bool)>) -> Seq<char>
    decreases ps.len(),
{
    if ps.len() == 0 {
        seq![]
    } else {
        pair_text(ps[0].0, ps[0].1, ps[0].2, ps[0].3) + kv_text(ps.drop_first())
    }
}

/// Well-formed pairs, each after a run of whitespace (which only the first
/// may leave empty).
pub open spec fn tokens_ok(ps: Seq<(Seq<char>, Seq<char>, Seq<char>, bool)>) -> bool {
    forall|i: int|
        0 <= i < ps.len() ==> {
            &&& blank(#[trigger] ps[i].0)
            &&& (i > 0 ==> ps[i].0.len() > 0)
            &&& pair_ok(ps[i].1, ps[i].2, ps[i].3)
        }
}

/// The keys and values of written-out pairs.
pub open spec fn token_pairs(ps: Seq<(Seq<char>, Seq<char>, Seq<char>, bool)>) -> Seq<
    (Seq<char>, Seq<char>),
> {
    ps.map_values(|p: (Seq<char>, Seq<char>, Seq<char>, bool)| (p.1, p.2))
}

proof fn lemma_one_pair(lead: Seq<char>, k: Seq<char>, v: Seq<char>, quoted: bool, r: Seq<char>)
    requires
        blank(lead),
        pair_ok(k, v, quoted),
        !quoted ==> r.len() == 0 || is_ws(r[0]),
    ensures
        kv_pairs(pair_text(lead, k, v, quoted) + r) == seq![(k, v)] + kv_pairs(r),
{
    let a = pair_text(lead, k, v, quoted);
    let s = a + r;
    let l = lead.len() as int;
    let kl = l + k.len();
    let vs = kl + 1;
    assert forall|i: int| 0 <= i < l implies is_ws(s[i]) by {
        assert(s[i] == lead[i]);
    }
    assert(s[l] == k[0]);
    lemma_skip_ws_at(s, 0, l);
    assert forall|i: int| l <= i < kl implies s[i] != '=' by {
        assert(s[i] == k[i - l]);
    }
    assert(s[kl] == '=');
    lemma_find_from_at(s, '=', l, kl);
    assert(s.subrange(l, kl) =~= k);
    if quoted {
        let close = vs + 1 + v.len();
        assert(s[vs] == '"');
        assert forall|i: int| vs + 1 <= i < close implies s[i] != '"' by {
            assert(s[i] == v[i - vs - 1]);
        }
        assert(s[close] == '"');
        lemma_find_from_at(s, '"', vs + 1, close);
        assert(s.subrange(vs + 1, close) =~= v);
        assert(a.len() == close + 1);
    } else {
        let end = vs + v.len();
        assert(a.len() == end);
        if v.len() > 0 {
            assert(s[vs] == v[0]);
        } else if r.len() > 0 {
            assert(s[vs] == r[0]);
        }
        assert forall|i: int| vs <= i < end implies !is_ws(s[i]) by {
            assert(s[i] == v[i - vs]);
        }
        if r.len() > 0 {
            assert(s[end] == r[0]);
        }
        lemma_find_ws_at(s, vs, end);
        assert(s.subrange(vs, end) =~= v);
    }
    lemma_kv_from_shift(a, r, 0);
}

proof fn lemma_tokens(ps: Seq<(Seq<char>, Seq<char>, Seq<char>, bool)>, r: Seq<char>)
    requires
        tokens_ok(ps),
        ps.len() > 0 ==> r.len() == 0 || is_ws(r[0]),
    ensures
        kv_pairs(kv_text(ps) + r) == token_pairs(ps) + kv_pairs(r),
    decreases ps.len(),
{
    if ps.len() == 0 {
        assert(kv_text(ps) + r =~= r);
        assert(token_pairs(ps) + kv_pairs(r) =~= kv_pairs(r));
    } else {
        let rest = ps.drop_first();
        let p = ps[0];
        assert(blank(p.0) && pair_ok(p.1, p.2, p.3));
        assert forall|i: int| 0 <= i < rest.len() implies {
            &&& blank(#[trigger] rest[i].0)
            &&& (i > 0 ==> rest[i].0.len() > 0)
            &&& pair_ok(rest[i].1, rest[i].2, rest[i].3)
        } by {
            assert(rest[i] == ps[i + 1]);
        }
        let r2 = kv_text(rest) + r;
        if rest.len() > 0 {
            assert(rest[0] == ps[1]);
            assert(blank(ps[1].0) && ps[1].0.len() > 0);
            assert(r2[0] == rest[0].0[0]);
        } else {
            assert(r2 =~= r);
        }
        lemma_tokens(rest, r);
        lemma_one_pair(p.0, p.1, p.2, p.3, r2);
        assert(kv_text(ps) + r =~= pair_text(p.0, p.1, p.2, p.3) + r2);
        assert(token_pairs(ps) =~= seq![(p.1, p.2)] + token_pairs(rest));
    }
}

proof fn lemma_blank_has_no_pairs(t: Seq<char>)
    requires
        blank(t),
    ensures
        kv_pairs(t) == Seq::<(Seq<char>, Seq<char>)>::empty(),
{
    if t.len() > 0 {
        lemma_skip_ws_at(t, 0, t.len() as int);
    }
}

/// Well-formed `key=value` text reads back as its pairs: pairs separated by
/// runs of whitespace, each bare value up to the next whitespace, each
/// quoted value between its quotes (inner whitespace kept), and trailing
/// whitespace ignored.
pub proof fn lemma_kv_pairs_of_text(
    ps: Seq<(Seq<char>, Seq<char>, Seq<char>, bool)>,
    tail: Seq<char>,
)
    requires
        tokens_ok(ps),
        blank(tail),
    ensures
        kv_pairs(kv_text(ps) + tail) == token_pairs(ps),
{
    lemma_blank_has_no_pairs(tail);
    lemma_tokens(ps, tail);
    assert(token_pairs(ps) + kv_pairs(tail) =~= token_pairs(ps));
}

/// A quote left open runs to the end of the text: after well-formed pairs
/// and whitespace, `key="value` reads as the pair `(key, value)`.
pub proof fn lemma_kv_pairs_unclosed_quote(
    ps: Seq<(Seq<char>, Seq<char>, Seq<char>, bool)>,
    lead: Seq<char>,
    k: Seq<char>,
    v: Seq<char>,
)
    requires
        tokens_ok(ps),
        blank(lead),
        ps.len() > 0 ==> lead.len() > 0,
        pair_ok(k, v, true),
    ensures
        kv_pairs(kv_text(ps) + (lead + k + seq!['=', '"'] + v)) == token_pairs(ps) + seq![(k, v)],
{
    let t = lead + k + seq!['=', '"'] + v;
    if ps.len() > 0 {
        assert(t[0] == lead[0]);
    }
    lemma_tokens(ps, t);
    let l = lead.len() as int;
    let kl = l + k.len();
    let vs = kl + 1;
    assert forall|i: int| 0 <= i < l implies is_ws(t[i]) by {
        assert(t[i] == lead[i]);
    }
    assert(t[l] == k[0]);
    lemma_skip_ws_at(t, 0, l);
    assert forall|i: int| l <= i < kl implies t[i] != '=' by {
        assert(t[i] == k[i - l]);
    }
    assert(t[kl] == '=');
    lemma_find_from_at(t, '=', l, kl);
    assert(t.subrange(l, kl) =~= k);
    assert(t[vs] == '"');
    assert forall|i: int| vs + 1 <= i < t.len() implies t[i] != '"' by {
        assert(t[i] == v[i - vs - 1]);
    }
    lemma_find_from_at(t, '"', vs + 1, t.len() as int);
    assert(t.subrange(vs + 1, t.len() as int) =~= v);
    assert(kv_from(t, t.len() as int) =~= Seq::<(Seq<char>, Seq<char>)>::empty());
    assert(kv_from(t, 0) == seq![(t.subrange(l, kl), t.subrange(vs + 1, t.len() as int))] + kv_from(
        t,
        t.len() as int,
    ));
    assert(kv_pairs(t) =~= seq![(k, v)]);
}

/// Text with no `=` holds no pairs.
pub proof fn lemma_kv_pairs_without_equals(s: Seq<char>)
    requires
        forall|i: int| 0 <= i < s.len() ==> s[i] != '=',
    ensures
        kv_pairs(s) == Seq::<(Seq<char>, Seq<char>)>::empty(),
{
    if s.len() > 0 {
        lemma_find_ws(s, 0);
        let t = skip_ws(s, 0);
        if t < s.len() {
            lemma_find_from_at(s, '=', t, s.len() as int);
        }
    }
}

/// The value of the first pair with key `key`, from index `i` on.
pub open spec fn lookup_from(kv: Seq<(Seq<char>, Seq<char>)>, key: Seq<char>, i: int) -> Option<
    Seq<char>,
>
    decreases kv.len() - i,
{
    if i < 0 || i >= kv.len() {
        None
    } else if kv[i].0 == key {
        Some(kv[i].1)
    } else {
        lookup_from(kv, key, i + 1)
    }
}

/// The value of the first pair with key `key`.
pub open spec fn lookup(kv: Seq<(Seq<char>, Seq<char>)>, key: Seq<char>) -> Option<Seq<char>> {
    lookup_from(kv, key, 0)
}

proof fn lemma_lookup_from_first(
    kv: Seq<(Seq<char>, Seq<char>)>,
    key: Seq<char>,
    from: int,
    i: int,
)
    requires
        0 <= from <= i < kv.len(),
        kv[i].0 == key,
        forall|j: int| from <= j < i ==> kv[j].0 != key,
    ensures
        lookup_from(kv, key, from) == Some(kv[i].1),
    decreases i - from,
{
    if from < i {
        lemma_lookup_from_first(kv, key, from + 1, i);
    }
}

proof fn lemma_lookup_from_absent(kv: Seq<(Seq<char>, Seq<char>)>, key: Seq<char>, from: int)
    requires
        0 <= from <= kv.len(),
        forall|j: int| from <= j < kv.len() ==> kv[j].0 != key,
    ensures
        lookup_from(kv, key, from) is None,
    decreases kv.len() - from,
{
    if from < kv.len() {
        lemma_lookup_from_absent(kv, key, from + 1);
    }
}

/// Only the first pair with a key counts: its value is the one looked up,
/// whatever later pairs with the same key hold; a missing key gives `None`.
pub proof fn lemma_lookup_first(kv: Seq<(Seq<char>, Seq<char>)>, key: Seq<char>, i: int)
    requires
        0 <= i <= kv.len(),
        forall|j: int| 0 <= j < i ==> kv[j].0 != key,
        i == kv.len() || kv[i].0 == key,
    ensures
        i < kv.len() ==> lookup(kv, key) == Some(kv[i].1),
        i == kv.len() ==> lookup(kv, key) is None,
{
    if i < kv.len() {
        lemma_lookup_from_first(kv, key, 0, i);
    } else {
        lemma_lookup_from_absent(kv, key, 0);
    }
}

/// Whether `c` is an ASCII decimal digit.
pub open spec fn is_digit(c: char) -> bool {
    48 <= c as u32 <= 57
}

/// The value of a string of decimal digits.
pub open spec fn digits_value(d: Seq<char>) -> nat
    decreases d.len(),
{
    if d.len() == 0 {
        0
    } else {
        digits_value(d.drop_last()) * 10 + (d.last() as u32 - 48) as nat
    }
}

/// Every character of `d` is a decimal digit.
pub open spec fn all_digits(d: Seq<char>) -> bool {
    forall|i: int| 0 <= i < d.len() ==> is_digit(#[trigger] d[i])
}

/// `v` without one leading `+`.
pub open spec fn unsigned_digits(v: Seq<char>) -> Seq<char> {
    if v.len() > 0 && v[0] == '+' {
        v.drop_first()
    } else {
        v
    }
}

/// Unsigned decimal parsing with an upper bound: an optional `+`, then one
/// or more digits, with a value at most `max`.
pub open spec fn parse_unsigned(v: Seq<char>, max: nat) -> Option<nat> {
    let d = unsigned_digits(v);
    if d.len() == 0 || !all_digits(d) || digits_value(d) > max {
        None
    } else {
        Some(digits_value(d))
    }
}

/// The unsigned value under `key`, or `default` when the key is missing or
/// its value does not parse.
pub open spec fn number_or(kv: Seq<(Seq<char>, Seq<char>)>, key: Seq<char>, max: nat, default: nat) -> nat {
    match lookup(kv, key) {
        Some(v) => match parse_unsigned(v, max) {
            Some(n) => n,
            None => default,
        },
        None => default,
    }
}

/// The rectangle of a declaration: `x` and `y` default to 0, `w` to
/// `w_default`, `h` to 1.
pub open spec fn decl_rect(kv: Seq<(Seq<char>, Seq<char>)>, w_default: nat) -> Rect {
    Rect {
        x: number_or(kv, "x"@, usize::MAX as nat, 0) as usize,
        y: number_or(kv, "y"@, usize::MAX as nat, 0) as usize,
        w: number_or(kv, "w"@, usize::MAX as nat, w_default) as usize,
        h: number_or(kv, "h"@, usize::MAX as nat, 1) as usize,
    }
}

/// `s` without leading `"` characters.
pub open spec fn trim_start_quotes(s: Seq<char>) -> Seq<char>
    decreases s.len(),
{
    if s.len() > 0 && s[0] == '"' {
        trim_start_quotes(s.drop_first())
    } else {
        s
    }
}

/// `s` without trailing `"` characters.
pub open spec fn trim_end_quotes(s: Seq<char>) -> Seq<char>
    decreases s.len(),
{
    if s.len() > 0 && s.last() == '"' {
        trim_end_quotes(s.drop_last())
    } else {
        s
    }
}

/// A widget declaration, as read from one line.
pub enum SceneDecl {
    Label { text: Seq<char>, fg: u8, rect: Rect },
    Block { ch: char, fg: u8, rect: Rect },
}

/// What one source line amounts to.
pub enum LineOutcome {
    Skip,
    Decl(SceneDecl),
    Unknown(Seq<char>),
}

/// The kind word of a trimmed, non-empty line: up to its first whitespace.
pub open spec fn line_kind(t: Seq<char>) -> Seq<char> {
    t.subrange(0, find_ws(t, 0))
}

/// What follows the kind word and the one whitespace character after it.
pub open spec fn line_rest(t: Seq<char>) -> Seq<char> {
    let k = find_ws(t, 0);
    if k < t.len() {
        t.subrange(k + 1, t.len() as int)
    } else {
        seq![]
    }
}

/// Reading one line of a scene.
pub open spec fn line_outcome(line: Seq<char>) -> LineOutcome {
    let t = trim_ws(line);
    if t.len() == 0 || t[0] == '#' {
        LineOutcome::Skip
    } else {
        let kind = line_kind(t);
        let kv = kv_pairs(line_rest(t));
        let fg = number_or(kv, "fg"@, 255, 7) as u8;
        if kind == "label"@ {
            let text = match lookup(kv, "text"@) {
                Some(v) => trim_end_quotes(trim_start_quotes(v)),
                None => seq![],
            };
            LineOutcome::Decl(SceneDecl::Label { text, fg, rect: decl_rect(kv, text.len()) })
        } else if kind == "block"@ {
            let ch = match lookup(kv, "ch"@) {
                Some(v) => if v.len() > 0 {
                    v[0]
                } else {
                    '#'
                },
                None => '#',
            };
            LineOutcome::Decl(SceneDecl::Block { ch, fg, rect: decl_rect(kv, 0) })
        } else {
            LineOutcome::Unknown(kind)
        }
    }
}

/// The declarations of lines `0 .. k`, or the first unknown kind among them.
pub open spec fn parse_lines(ls: Seq<Seq<char>>, k: nat) -> Result<Seq<SceneDecl>, Seq<char>>
    decreases k,
{
    if k == 0 {
        Ok(seq![])
    } else {
        match parse_lines(ls, (k - 1) as nat) {
            Err(e) => Err(e),
            Ok(ds) => match line_outcome(ls[k - 1]) {
                LineOutcome::Skip => Ok(ds),
                LineOutcome::Decl(d) => Ok(ds.push(d)),
                LineOutcome::Unknown(kind) => Err(kind),
            },
        }
    }
}

/// The declarations of a scene source, or the first unknown widget kind.
pub open spec fn parse_scene(src: Seq<char>) -> Result<Seq<SceneDecl>, Seq<char>> {
    parse_lines(lines(src), lines(src).len())
}

/// The widget and rectangle built for a declaration.
pub open spec fn item_matches(item: SceneItem, d: SceneDecl) -> bool {
    match d {
        SceneDecl::Label { text, fg, rect } => {
            &&& item.1 == rect
            &&& item.0 matches WidgetNode::Label(l) && l.text@ == text && l.fg == fg
        },
        SceneDecl::Block { ch, fg, rect } => {
            &&& item.1 == rect
            &&& item.0 matches WidgetNode::Block(b) && b.ch == ch && b.fg == fg
        },
    }
}

/// The items built for a list of declarations, one for one.
pub open spec fn items_match(items: Seq<SceneItem>, ds: Seq<SceneDecl>) -> bool {
    &&& items.len() == ds.len()
    &&& forall|i: int| 0 <= i < ds.len() ==> item_matches(#[trigger] items[i], ds[i])
}

/// The character sequences of a list of key/value pairs.
pub open spec fn pair_views(v: Seq<(Vec<char>, Vec<char>)>) -> Seq<(Seq<char>, Seq<char>)> {
    v.map_values(|p: (Vec<char>, Vec<char>)| (p.0@, p.1@))
}

fn kv_pairs_of(s: &Vec<char>) -> (out: Vec<(Vec<char>, Vec<char>)>)
    ensures
        pair_views(out@) == kv_pairs(s@),
{
    let n = s.len();
    let mut out: Vec<(Vec<char>, Vec<char>)> = Vec::new();
    let mut pos: usize = 0;
    while pos < n
        invariant
            pos <= n == s@.len(),
            pair_views(out@) + kv_from(s@, pos as int) == kv_pairs(s@),
        decreases n - pos,
    {
        let ghost before = out@;
        proof {
            lemma_find_ws(s@, pos as int);
        }
        let mut t = pos;
        while t < n && is_whitespace(s[t])
            invariant
                pos <= t <= n == s@.len(),
                skip_ws(s@, pos as int) == skip_ws(s@, t as int),
            decreases n - t,
        {
            t = t + 1;
        }
        if t >= n {
            pos = n;
        } else {
            proof {
                lemma_find_from(s@, '=', t as int);
            }
            let mut eq = t;
            while eq < n && s[eq] != '='
                invariant
                    t <= eq <= n == s@.len(),
                    find_from(s@, '=', t as int) == find_from(s@, '=', eq as int),
                decreases n - eq,
            {
                eq = eq + 1;
            }
            if eq >= n {
                pos = n;
            } else {
                let key = sub_chars(s, t, eq);
                let vs = eq + 1;
                if vs < n && s[vs] == '"' {
                    proof {
                        lemma_find_from(s@, '"', vs + 1);
                    }
                    let mut close = vs + 1;
                    while close < n && s[close] != '"'
                        invariant
                            vs + 1 <= close <= n == s@.len(),
                            find_from(s@, '"', vs + 1) == find_from(s@, '"', close as int),
                        decreases n - close,
                    {
                        close = close + 1;
                    }
                    let val = sub_chars(s, vs + 1, close);
                    out.push((key, val));
                    pos = if close < n {
                        close + 1
                    } else {
                        n
                    };
                } else {
                    proof {
                        lemma_find_ws(s@, vs as int);
                    }
                    let mut end = vs;
                    while end < n && !is_whitespace(s[end])
                        invariant
                            vs <= end <= n == s@.len(),
                            find_ws(s@, vs as int) == find_ws(s@, end as int),
                        decreases n - end,
                    {
                        end = end + 1;
                    }
                    let val = sub_chars(s, vs, end);
                    out.push((key, val));
                    pos = end;
                }
                assert(pair_views(out@) =~= pair_views(before).push(
                    (out@.last().0@, out@.last().1@),
                ));
            }
        }
    }
    assert(pair_views(out@) + kv_from(s@, pos as int) =~= pair_views(out@));
    out
}

/// Split the text after a widget kind into its `key=value` pairs.
pub fn parse_kv(s: &str) -> (out: Vec<(String, String)>)
    ensures
        out@.map_values(|p: (String, String)| (p.0@, p.1@)) == kv_pairs(s@),
{
    let chars = chars_of(s);
    let pairs = kv_pairs_of(&chars);
    let mut out: Vec<(String, String)> = Vec::new();
    let mut i: usize = 0;
    while i < pairs.len()
        invariant
            i <= pairs@.len(),
            pair_views(pairs@) == kv_pairs(s@),
            out@.map_values(|p: (String, String)| (p.0@, p.1@)) == pair_views(pairs@).take(
                i as int,
            ),
        decreases pairs@.len() - i,
    {
        let ghost before = out@;
        let k = string_of(&pairs[i].0);
        let v = string_of(&pairs[i].1);
        out.push((k, v));
        assert(out@.map_values(|p: (String, String)| (p.0@, p.1@)) =~= before.map_values(
            |p: (String, String)| (p.0@, p.1@),
        ).push((pairs@[i as int].0@, pairs@[i as int].1@)));
        assert(pair_views(pairs@).take(i + 1) =~= pair_views(pairs@).take(i as int).push(
            pair_views(pairs@)[i as int],
        ));
        i = i + 1;
    }
    assert(pair_views(pairs@).take(pairs@.len() as int) =~= pair_views(pairs@));
    out
}

/// The value under `key`, first match wins.
fn lookup_value(kv: &Vec<(Vec<char>, Vec<char>)>, key: &str) -> (r: Option<Vec<char>>)
    ensures
        match r {
            Some(v) => lookup(pair_views(kv@), key@) == Some(v@),
            None => lookup(pair_views(kv@), key@) is None,
        },
{
    let key_chars = chars_of(key);
    let ghost pv = pair_views(kv@);
    let mut i: usize = 0;
    while i < kv.len()
        invariant
            i <= kv@.len(),
            pv == pair_views(kv@),
            key_chars@ == key@,
            lookup_from(pv, key@, i as int) == lookup(pv, key@),
        decreases kv@.len() - i,
    {
        if chars_eq(&kv[i].0, &key_chars) {
            return Some(sub_chars(&kv[i].1, 0, kv[i].1.len()));
        }
        i = i + 1;
    }
    None
}

proof fn lemma_digits_prefix(d: Seq<char>, k: int)
    requires
        0 <= k <= d.len(),
        all_digits(d),
    ensures
        digits_value(d.take(k)) <= digits_value(d),
    decreases d.len() - k,
{
    if k < d.len() {
        lemma_digits_prefix(d, k + 1);
        assert(d.take(k + 1).drop_last() =~= d.take(k));
    } else {
        assert(d.take(k) =~= d);
    }
}

/// Unsigned decimal parsing, bounded by `max`.
fn parse_unsigned_chars(v: &Vec<char>, max: usize) -> (r: Option<usize>)
    ensures
        match r {
            Some(n) => parse_unsigned(v@, max as nat) == Some(n as nat),
            None => parse_unsigned(v@, max as nat) is None,
        },
{
    let len = v.len();
    let start: usize = if len > 0 && v[0] == '+' {
        1
    } else {
        0
    };
    let ghost d = unsigned_digits(v@);
    assert(d =~= v@.subrange(start as int, len as int));
    if start >= len {
        return None;
    }
    let mut acc: u128 = 0;
    let mut i = start;
    while i < len
        invariant
            start <= i <= len == v@.len(),
            d == v@.subrange(start as int, len as int),
            d == unsigned_digits(v@),
            forall|k: int| 0 <= k < i - start ==> is_digit(#[trigger] d[k]),
            acc == digits_value(d.take(i - start)),
            acc <= max,
        decreases len - i,
    {
        let c = v[i];
        let u = c as u32;
        if u < 48 || u > 57 {
            assert(!is_digit(d[i - start]));
            return None;
        }
        let next = acc * 10 + (u - 48) as u128;
        assert(d.take(i + 1 - start).drop_last() =~= d.take(i - start));
        if next > max as u128 {
            proof {
                if all_digits(d) {
                    lemma_digits_prefix(d, i + 1 - start);
                }
            }
            return None;
        }
        acc = next;
        i = i + 1;
    }
    assert(d.take(len - start) =~= d);
    Some(acc as usize)
}

/// The unsigned value under `key`, or `default`.
fn number_or_default(kv: &Vec<(Vec<char>, Vec<char>)>, key: &str, max: usize, default: usize) -> (r:
    usize)
    ensures
        r == number_or(pair_views(kv@), key@, max as nat, default as nat),
{
    match lookup_value(kv, key) {
        Some(v) => match parse_unsigned_chars(&v, max) {
            Some(n) => n,
            None => default,
        },
        None => default,
    }
}

/// The rectangle of a declaration; `w_default` is its width when `w` is
/// missing or does not parse.
fn rect_from_kv(kv: &Vec<(Vec<char>, Vec<char>)>, w_default: usize) -> (r: Rect)
    ensures
        r == decl_rect(pair_views(kv@), w_default as nat),
{
    let x = number_or_default(kv, "x", usize::MAX, 0);
    let y = number_or_default(kv, "y", usize::MAX, 0);
    let w = number_or_default(kv, "w", usize::MAX, w_default);
    let h = number_or_default(kv, "h", usize::MAX, 1);
    Rect { x, y, w, h }
}

/// `v` without leading or trailing `"` characters.
fn strip_quotes(v: &Vec<char>) -> (r: Vec<char>)
    ensures
        r@ == trim_end_quotes(trim_start_quotes(v@)),
{
    let n = v.len();
    let mut a: usize = 0;
    assert(v@.subrange(0, n as int) =~= v@);
    while a < n && v[a] == '"'
        invariant
            a <= n == v@.len(),
            trim_start_quotes(v@.subrange(a as int, n as int)) == trim_start_quotes(v@),
        decreases n - a,
    {
        assert(v@.subrange(a as int, n as int).drop_first() =~= v@.subrange(a + 1, n as int));
        a = a + 1;
    }
    let ghost t = v@.subrange(a as int, n as int);
    let mut b: usize = n;
    while b > a && v[b - 1] == '"'
        invariant
            a <= b <= n == v@.len(),
            t == v@.subrange(a as int, n as int),
            trim_end_quotes(v@.subrange(a as int, b as int)) == trim_end_quotes(t),
        decreases b,
    {
        assert(v@.subrange(a as int, b as int).drop_last() =~= v@.subrange(a as int, b - 1));
        b = b - 1;
    }
    sub_chars(v, a, b)
}

/// Read one line: `Ok(None)` for a blank or comment line, `Ok(Some(item))`
/// for a declaration, `Err(kind)` for an unknown widget kind.
fn read_line(line: &Vec<char>) -> (r: Result<Option<SceneItem>, Vec<char>>)
    ensures
        match (r, line_outcome(line@)) {
            (Ok(None), LineOutcome::Skip) => true,
            (Ok(Some(item)), LineOutcome::Decl(d)) => item_matches(item, d),
            (Err(k), LineOutcome::Unknown(kind)) => k@ == kind,
            _ => false,
        },
{
    let t = trim(line);
    if t.len() == 0 || t[0] == '#' {
        return Ok(None);
    }
    let n = t.len();
    proof {
        lemma_find_ws(t@, 0);
    }
    let mut k: usize = 0;
    while k < n && !is_whitespace(t[k])
        invariant
            k <= n == t@.len(),
            find_ws(t@, 0) == find_ws(t@, k as int),
        decreases n - k,
    {
        k = k + 1;
    }
    let kind = sub_chars(&t, 0, k);
    let rest = if k < n {
        sub_chars(&t, k + 1, n)
    } else {
        Vec::new()
    };
    assert(rest@ == line_rest(t@));
    let kv = kv_pairs_of(&rest);
    let fg = number_or_default(&kv, "fg", 255, 7) as u8;
    if chars_eq(&kind, &chars_of("label")) {
        let text = match lookup_value(&kv, "text") {
            Some(v) => strip_quotes(&v),
            None => Vec::new(),
        };
        let rect = rect_from_kv(&kv, text.len());
        let label = Label { text: string_of(&text), fg };
        Ok(Some((WidgetNode::Label(label), rect)))
    } else if chars_eq(&kind, &chars_of("block")) {
        let ch = match lookup_value(&kv, "ch") {
            Some(v) => if v.len() > 0 {
                v[0]
            } else {
                '#'
            },
            None => '#',
        };
        let rect = rect_from_kv(&kv, 0);
        Ok(Some((WidgetNode::Block(Block { ch, fg }), rect)))
    } else {
        Err(kind)
    }
}

/// Parsing stops at the first unknown kind: later lines do not change the error.
proof fn lemma_parse_error_sticks(ls: Seq<Seq<char>>, i: nat, k: nat)
    requires
        i <= k,
        parse_lines(ls, i) is Err,
    ensures
        parse_lines(ls, k) == parse_lines(ls, i),
    decreases k - i,
{
    if i < k {
        lemma_parse_error_sticks(ls, i, (k - 1) as nat);
    }
}

/// Parse a scene source into paint-ready `(widget, rect)` items, or the
/// first unknown widget kind as an error.
pub fn parse(src: &str) -> (r: Result<Vec<SceneItem>, SceneError>)
    ensures
        match (r, parse_scene(src@)) {
            (Ok(items), Ok(ds)) => items_match(items@, ds),
            (Err(SceneError::UnknownWidget(k)), Err(kind)) => k@ == kind,
            _ => false,
        },
{
    let chars = chars_of(src);
    let ls = split_lines(&chars);
    let ghost g = lines(src@);
    let mut out: Vec<SceneItem> = Vec::new();
    let mut i: usize = 0;
    while i < ls.len()
        invariant
            i <= ls@.len(),
            char_rows(ls@) == g,
            g == lines(src@),
            parse_lines(g, i as nat) is Ok,
            items_match(out@, parse_lines(g, i as nat)->Ok_0),
        decreases ls@.len() - i,
    {
        assert(ls@[i as int]@ == g[i as int]);
        match read_line(&ls[i]) {
            Ok(None) => {},
            Ok(Some(item)) => {
                out.push(item);
            },
            Err(unknown) => {
                proof {
                    lemma_parse_error_sticks(g, (i + 1) as nat, g.len());
                }
                return Err(SceneError::UnknownWidget(string_of(&unknown)));
            },
        }
        i = i + 1;
    }
    Ok(out)
}

/// Painting `d` never computes a coordinate past `usize::MAX`.
pub open spec fn decl_fits(d: SceneDecl) -> bool {
    match d {
        SceneDecl::Label { text, rect, .. } => rect.x + shown(text, rect.w).len() <= usize::MAX + 1,
        SceneDecl::Block { .. } => true,
    }
}

/// The grid after painting declaration `d`.
pub open spec fn decl_painted(d: SceneDecl, b: BufView) -> BufView {
    match d {
        SceneDecl::Label { text, fg, rect } => write_chars(
            b,
            rect.x as int,
            rect.y as int,
            shown(text, rect.w),
            fg,
        ),
        SceneDecl::Block { ch, fg, rect } => fill_block(
            b,
            rect.x as int,
            (saturating_end(rect.x, rect.w) - rect.x) as nat,
            rect.y as int,
            (saturating_end(rect.y, rect.h) - rect.y) as nat,
            Cell { ch, fg, bg: 0 },
        ),
    }
}

/// The grid after painting the first `k` declarations in order.
pub open spec fn paint_decls(ds: Seq<SceneDecl>, b: BufView, k: nat) -> BufView
    decreases k,
{
    if k == 0 || k > ds.len() {
        b
    } else {
        decl_painted(ds[k - 1], paint_decls(ds, b, (k - 1) as nat))
    }
}

/// A `width × height` buffer with the scene's declarations painted in
/// order; blank when the source does not parse.
pub open spec fn compiled(src: Seq<char>, width: nat, height: nat) -> BufView {
    match parse_scene(src) {
        Ok(ds) => paint_decls(ds, BufView::blank(width, height), ds.len()),
        Err(_) => BufView::blank(width, height),
    }
}

/// Every declaration of the source (if it parses) can be painted without overflow.
pub open spec fn scene_fits(src: Seq<char>) -> bool {
    parse_scene(src) is Ok ==> forall|i: int|
        0 <= i < parse_scene(src)->Ok_0.len() ==> decl_fits(#[trigger] parse_scene(src)->Ok_0[i])
}

/// Whether every declaration of `src` (if it parses) can be painted without
/// a column past `usize::MAX`: the test that `compile` needs passed.
pub fn check_scene_fits(src: &str) -> (ok: bool)
    ensures
        ok == scene_fits(src@),
{
    match parse(src) {
        Ok(items) => {
            assert(parse_scene(src@) is Ok);
            let ghost ds = parse_scene(src@)->Ok_0;
            let mut i: usize = 0;
            while i < items.len()
                invariant
                    i <= items@.len(),
                    parse_scene(src@) is Ok,
                    ds == parse_scene(src@)->Ok_0,
                    items_match(items@, ds),
                    forall|k: int| 0 <= k < i ==> decl_fits(#[trigger] ds[k]),
                decreases items@.len() - i,
            {
                assert(item_matches(items@[i as int], ds[i as int]));
                match &items[i].0 {
                    WidgetNode::Label(l) => {
                        let n = chars_of(l.text.as_str()).len();
                        let w = items[i].1.w;
                        let shown_len = if n <= w {
                            n
                        } else {
                            w
                        };
                        let x = items[i].1.x;
                        if shown_len > 0 && x > usize::MAX - (shown_len - 1) {
                            assert(!decl_fits(ds[i as int]));
                            assert(!scene_fits(src@));
                            return false;
                        }
                    },
                    _ => {},
                }
                assert(decl_fits(ds[i as int]));
                i = i + 1;
            }
            true
        },
        Err(_) => true,
    }
}

/// Parse `src` and paint every item into a fresh `width × height` buffer; a
/// source that does not parse gives a blank buffer.
pub fn compile(src: &str, width: usize, height: usize) -> (buf: CellBuffer)
    requires
        width > 0,
        height > 0,
        width * height <= usize::MAX,
        scene_fits(src@),
    ensures
        buf@.wf(),
        buf@ == compiled(src@, width as nat, height as nat),
{
    let mut buf = CellBuffer::new(width, height);
    let ghost b0 = buf@;
    match parse(src) {
        Ok(scene) => {
            let ghost ds = parse_scene(src@)->Ok_0;
            let mut i: usize = 0;
            while i < scene.len()
                invariant
                    i <= scene@.len(),
                    items_match(scene@, ds),
                    forall|k: int| 0 <= k < ds.len() ==> decl_fits(#[trigger] ds[k]),
                    buf@.wf(),
                    buf@ == paint_decls(ds, b0, i as nat),
                decreases scene@.len() - i,
            {
                let item = &scene[i];
                assert(item_matches(*item, ds[i as int]));
                assert(decl_fits(ds[i as int]));
                item.0.paint(&mut buf, item.1);
                i = i + 1;
            }
        },
        Err(_) => {},
    }
    buf
}

/// A `block` line's character: `#` when none of its pairs has the key `ch`
/// or the first `ch` value is empty, else the first character of the first
/// `ch` value.
pub proof fn lemma_block_char(line: Seq<char>, i: int)
    requires
        line_kind(trim_ws(line)) == "block"@,
        0 <= i <= kv_pairs(line_rest(trim_ws(line))).len(),
        forall|j: int| 0 <= j < i ==> kv_pairs(line_rest(trim_ws(line)))[j].0 != "ch"@,
        i == kv_pairs(line_rest(trim_ws(line))).len() || kv_pairs(line_rest(trim_ws(line)))[i].0
            == "ch"@,
    ensures
        line_outcome(line) matches LineOutcome::Decl(SceneDecl::Block { ch, .. }) && ch == if i
            < kv_pairs(line_rest(trim_ws(line))).len() && kv_pairs(
            line_rest(trim_ws(line)),
        )[i].1.len() > 0 {
            kv_pairs(line_rest(trim_ws(line)))[i].1[0]
        } else {
            '#'
        },
{
    reveal_strlit("block");
    reveal_strlit("label");
    let t = trim_ws(line);
    lemma_find_ws(t, 0);
    assert(line_kind(t).len() == 5);
    assert(find_ws(t, 0) == 5);
    assert(line_kind(t)[0] == t[0]);
    assert(t[0] == 'b');
    assert(line_kind(t) != "label"@);
    lemma_lookup_first(kv_pairs(line_rest(t)), "ch"@, i);
}

/// A source that does not parse paints nothing: `compile` gives the blank
/// `width × height` buffer, even where lines before the bad one declare
/// widgets.
pub proof fn lemma_compile_error_is_blank(src: Seq<char>, width: nat, height: nat)
    requires
        parse_scene(src) is Err,
    ensures
        compiled(src, width, height) == BufView::blank(width, height),
{
}

/// Marker line the scene demo prints when it finishes.
pub fn contract_marker() -> (s: &'static str)
    ensures
        s@ == "contract: tui-panels-v1 holds — OK"@,
{
    "contract: tui-panels-v1 holds — OK"
}

} // verus!
