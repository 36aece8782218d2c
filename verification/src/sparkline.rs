//! Sparklines: one block glyph per sample, its height proportional to the
//! sample over the largest sample.

use vstd::prelude::*;
use crate::cellbuffer::{CellBuffer, write_chars};
use crate::text::string_of;

verus! {

/// The eight glyph levels, from blank to seven eighths.
pub open spec fn level_glyph(level: nat) -> char {
    if level == 0 {
        ' '
    } else if level == 1 {
        '▁'
    } else if level == 2 {
        '▂'
    } else if level == 3 {
        '▃'
    } else if level == 4 {
        '▄'
    } else if level == 5 {
        '▅'
    } else if level == 6 {
        '▆'
    } else {
        '▇'
    }
}

/// The level of sample `v` against the largest sample `max`: `⌊7v / max⌋`,
/// and 0 when every sample is 0.
pub open spec fn spark_level(v: nat, max: nat) -> nat {
    if max == 0 {
        0
    } else {
        v * 7 / max
    }
}

/// The largest of the first `k` samples (0 for none).
pub open spec fn max_sample(s: Seq<u64>, k: nat) -> nat
    decreases k,
{
    if k == 0 || k > s.len() {
        0
    } else {
        let m = max_sample(s, (k - 1) as nat);
        if s[k - 1] as nat > m {
            s[k - 1] as nat
        } else {
            m
        }
    }
}

/// The glyph of every sample, in order.
pub open spec fn spark_glyphs(s: Seq<u64>) -> Seq<char> {
    Seq::new(s.len(), |i: int| level_glyph(spark_level(s[i] as nat, max_sample(s, s.len()))))
}

/// Every sample is at most the largest one.
pub proof fn lemma_max_sample_bounds(s: Seq<u64>, k: nat, i: int)
    requires
        k <= s.len(),
        0 <= i < k,
    ensures
        s[i] as nat <= max_sample(s, k),
    decreases k,
{
    if i < k - 1 {
        lemma_max_sample_bounds(s, (k - 1) as nat, i);
    }
}

/// Levels run from 0 to 7, grow with the sample, and the largest sample
/// gets the top level.
pub proof fn lemma_spark_level(v: nat, w: nat, max: nat)
    requires
        v <= w <= max,
    ensures
        spark_level(v, max) <= spark_level(w, max) <= 7,
        max > 0 ==> spark_level(max, max) == 7,
        spark_level(0, max) == 0,
{
    if max > 0 {
        assert(v * 7 <= w * 7 <= max * 7) by (nonlinear_arith)
            requires
                v <= w <= max,
        ;
        vstd::arithmetic::div_mod::lemma_div_is_ordered((v * 7) as int, (w * 7) as int, max as int);
        vstd::arithmetic::div_mod::lemma_div_is_ordered((w * 7) as int, (max * 7) as int, max as int);
        vstd::arithmetic::div_mod::lemma_div_multiples_vanish(7, max as int);
        assert(max * 7 == 7 * max) by (nonlinear_arith);
    }
}

/// Each sample's glyph is taken from the ramp ` ▁▂▃▄▅▆▇` at position
/// `⌊7 v / max⌋`, where `max` is the largest sample: the largest samples get
/// `▇`, zero gets a blank, and when every sample is zero all are blank.
pub proof fn lemma_spark_glyph_ramp(s: Seq<u64>, i: int)
    requires
        0 <= i < s.len(),
    ensures
        spark_glyphs(s).len() == s.len(),
        max_sample(s, s.len()) > 0 ==> spark_glyphs(s)[i] == " ▁▂▃▄▅▆▇"@[s[i] * 7 / max_sample(
            s,
            s.len(),
        ) as int],
        max_sample(s, s.len()) == 0 ==> spark_glyphs(s)[i] == ' ',
        s[i] as nat == max_sample(s, s.len()) && s[i] > 0 ==> spark_glyphs(s)[i] == '▇',
{
    reveal_strlit(" ▁▂▃▄▅▆▇");
    let m = max_sample(s, s.len());
    lemma_max_sample_bounds(s, s.len(), i);
    lemma_spark_level(s[i] as nat, m, m);
}

fn glyph(level: u64) -> (c: char)
    requires
        level <= 7,
    ensures
        c == level_glyph(level as nat),
{
    if level == 0 {
        ' '
    } else if level == 1 {
        '▁'
    } else if level == 2 {
        '▂'
    } else if level == 3 {
        '▃'
    } else if level == 4 {
        '▄'
    } else if level == 5 {
        '▅'
    } else if level == 6 {
        '▆'
    } else {
        '▇'
    }
}

/// Paint one glyph per sample on row `y` from column `x`, in colour `fg`;
/// glyphs past the buffer's edge are dropped.
pub fn paint_sparkline(buf: &mut CellBuffer, x: usize, y: usize, samples: &[u64], fg: u8)
    requires
        old(buf)@.wf(),
        x + samples@.len() <= usize::MAX + 1,
    ensures
        final(buf)@.wf(),
        final(buf)@ == write_chars(old(buf)@, x as int, y as int, spark_glyphs(samples@), fg),
{
    let n = samples.len();
    let mut max: u64 = 0;
    let mut i: usize = 0;
    while i < n
        invariant
            i <= n == samples@.len(),
            max == max_sample(samples@, i as nat),
        decreases n - i,
    {
        if samples[i] > max {
            max = samples[i];
        }
        i = i + 1;
    }
    let mut glyphs: Vec<char> = Vec::new();
    let mut k: usize = 0;
    while k < n
        invariant
            k <= n == samples@.len(),
            max == max_sample(samples@, n as nat),
            glyphs@ == spark_glyphs(samples@).take(k as int),
        decreases n - k,
    {
        let level: u64 = if max == 0 {
            0
        } else {
            proof {
                lemma_max_sample_bounds(samples@, n as nat, k as int);
                lemma_spark_level(samples@[k as int] as nat, max as nat, max as nat);
            }
            ((samples[k] as u128) * 7 / (max as u128)) as u64
        };
        glyphs.push(glyph(level));
        assert(glyphs@ =~= spark_glyphs(samples@).take(k + 1));
        k = k + 1;
    }
    assert(glyphs@ =~= spark_glyphs(samples@));
    let text = string_of(&glyphs);
    buf.write_str(x, y, text.as_str(), fg);
}

/// Marker line the sparkline demo prints when it finishes.
pub fn contract_marker() -> (s: &'static str)
    ensures
        s@ == "contract: tui-panels-v1 holds — OK"@,
{
    "contract: tui-panels-v1 holds — OK"
}

} // verus!
