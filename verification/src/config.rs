//! Quota configuration and its parser.
//!
//! Configuration text is a comma-separated list of `key=value` pairs with
//! whitespace trimmed around keys and values. Recognized keys are `limit`
//! (requests per window), and `window` / `period` (window length in seconds).
//! Malformed or unrecognized entries are ignored; parsing is a best-effort
//! merge onto a baseline and never fails. A window of zero seconds would make
//! bucket arithmetic meaningless, so a `window=0` entry is ignored as
//! malformed, keeping the invariant that any configured window is positive.

use vstd::prelude::*;
use crate::codec::{decoded_u32, decoded_u64, decode_u32, decode_u64};

verus! {

/// Quota configuration: maximum admitted requests per window, and the window
/// length in seconds (`None` meaning one unbounded cumulative counter).
#[derive(Clone, Copy, Debug)]
pub struct Config {
    pub limit: u32,
    pub window: Option<u64>,
}

impl Config {
    /// A present window is always strictly positive.
    pub open spec fn wf(self) -> bool {
        match self.window {
            Some(w) => w > 0,
            None => true,
        }
    }
}

/// The baseline configuration: 200 requests per one-day window.
pub open spec fn default_config() -> Config {
    Config { limit: 200, window: Some(86400) }
}

impl Default for Config {
    /// The baseline configuration: 200 requests per one-day window.
    fn default() -> (c: Config)
        ensures
            c == default_config(),
            c.wf(),
    {
        Config { limit: 200, window: Some(86400) }
    }
}

/// ASCII whitespace, as trimmed around keys and values.
pub open spec fn is_space(b: u8) -> bool {
    b == 32 || b == 9 || b == 10 || b == 11 || b == 12 || b == 13
}

/// `s` without leading whitespace.
pub open spec fn trim_front(s: Seq<u8>) -> Seq<u8>
    decreases s.len(),
{
    if s.len() > 0 && is_space(s[0]) {
        trim_front(s.skip(1))
    } else {
        s
    }
}

/// `s` without trailing whitespace.
pub open spec fn trim_back(s: Seq<u8>) -> Seq<u8>
    decreases s.len(),
{
    if s.len() > 0 && is_space(s.last()) {
        trim_back(s.drop_last())
    } else {
        s
    }
}

/// `s` without leading or trailing whitespace.
pub open spec fn trimmed(s: Seq<u8>) -> Seq<u8> {
    trim_back(trim_front(s))
}

/// Index of the first occurrence of `b` in `s`, or `-1` if absent.
pub open spec fn idx_of(s: Seq<u8>, b: u8) -> int
    decreases s.len(),
{
    if s.len() == 0 {
        -1
    } else if s[0] == b {
        0
    } else if idx_of(s.skip(1), b) < 0 {
        -1
    } else {
        idx_of(s.skip(1), b) + 1
    }
}

/// `idx_of` is bounded by the length of `s`.
pub proof fn lemma_idx_of_bounds(s: Seq<u8>, b: u8)
    ensures
        -1 <= idx_of(s, b) < s.len(),
    decreases s.len(),
{
    if s.len() > 0 && s[0] != b {
        lemma_idx_of_bounds(s.skip(1), b);
    }
}

/// `idx_of` returns exactly the first occurrence: if nothing before `j`
/// matches and `j` is a match (or the end), `idx_of` is `j` (or `-1`).
pub proof fn lemma_idx_of_first(s: Seq<u8>, b: u8, j: int)
    requires
        0 <= j <= s.len(),
        forall|k: int| 0 <= k < j ==> s[k] != b,
        j < s.len() ==> s[j] == b,
    ensures
        idx_of(s, b) == if j < s.len() { j } else { -1 },
    decreases j,
{
    if j == 0 {
    } else {
        assert(s[0] != b);
        let t = s.skip(1);
        assert forall|k: int| 0 <= k < j - 1 implies t[k] != b by {
            assert(t[k] == s[k + 1]);
        }
        assert(j - 1 < t.len() ==> t[j - 1] == s[j]);
        lemma_idx_of_first(t, b, j - 1);
    }
}

/// The bytes of the key `limit`.
pub open spec fn limit_name() -> Seq<u8> {
    seq![108u8, 105u8, 109u8, 105u8, 116u8]
}

/// The bytes of the key `window`.
pub open spec fn window_name() -> Seq<u8> {
    seq![119u8, 105u8, 110u8, 100u8, 111u8, 119u8]
}

/// The bytes of the key `period`, a synonym of `window`.
pub open spec fn period_name() -> Seq<u8> {
    seq![112u8, 101u8, 114u8, 105u8, 111u8, 100u8]
}

/// The trimmed key of one `key=value` entry (the whole trimmed entry when
/// there is no `=`).
pub open spec fn entry_key(seg: Seq<u8>) -> Seq<u8> {
    let i = idx_of(seg, 61);
    if i >= 0 {
        trimmed(seg.take(i))
    } else {
        trimmed(seg)
    }
}

/// The trimmed value of one `key=value` entry (empty when there is no `=`).
pub open spec fn entry_val(seg: Seq<u8>) -> Seq<u8> {
    let i = idx_of(seg, 61);
    if i >= 0 {
        trimmed(seg.skip(i + 1))
    } else {
        Seq::empty()
    }
}

/// One entry merged onto `cfg`: `limit` overwrites the quota when its value
/// parses as a `u32`; `window` / `period` overwrite the window when the value
/// parses as a positive `u64`; everything else leaves `cfg` unchanged.
pub open spec fn apply_entry(seg: Seq<u8>, cfg: Config) -> Config {
    let k = entry_key(seg);
    let v = entry_val(seg);
    if k == limit_name() {
        match decoded_u32(v) {
            Some(n) => Config { limit: n, window: cfg.window },
            None => cfg,
        }
    } else if k == window_name() || k == period_name() {
        match decoded_u64(v) {
            Some(n) => if n > 0 {
                Config { limit: cfg.limit, window: Some(n) }
            } else {
                cfg
            },
            None => cfg,
        }
    } else {
        cfg
    }
}

/// The whole configuration text merged onto `cfg`, entry by entry, left to
/// right (so a later entry for the same key overwrites an earlier one).
pub open spec fn parsed_config(text: Seq<u8>, cfg: Config) -> Config
    decreases text.len(),
    via parsed_config_decreases
{
    let i = idx_of(text, 44);
    if i < 0 {
        apply_entry(text, cfg)
    } else {
        parsed_config(text.skip(i + 1), apply_entry(text.take(i), cfg))
    }
}

#[via_fn]
proof fn parsed_config_decreases(text: Seq<u8>, cfg: Config) {
    lemma_idx_of_bounds(text, 44);
}

/// Trimming nothing: if the first `k` bytes are whitespace and the byte at
/// `k` (if any) is not, `trim_front` drops exactly `k` bytes.
proof fn lemma_trim_front_at(s: Seq<u8>, k: int)
    requires
        0 <= k <= s.len(),
        forall|j: int| 0 <= j < k ==> is_space(s[j]),
        k < s.len() ==> !is_space(s[k]),
    ensures
        trim_front(s) == s.skip(k),
    decreases k,
{
    if k == 0 {
        assert(s.skip(0) =~= s);
    } else {
        let t = s.skip(1);
        assert forall|j: int| 0 <= j < k - 1 implies is_space(t[j]) by {
            assert(t[j] == s[j + 1]);
        }
        assert(k - 1 < t.len() ==> t[k - 1] == s[k]);
        lemma_trim_front_at(t, k - 1);
        assert(t.skip(k - 1) =~= s.skip(k));
    }
}

/// If the bytes from `k` on are whitespace and the byte before `k` (if any)
/// is not, `trim_back` keeps exactly the first `k` bytes.
proof fn lemma_trim_back_at(s: Seq<u8>, k: int)
    requires
        0 <= k <= s.len(),
        forall|j: int| k <= j < s.len() ==> is_space(s[j]),
        k > 0 ==> !is_space(s[k - 1]),
    ensures
        trim_back(s) == s.take(k),
    decreases s.len(),
{
    if s.len() > k {
        assert(is_space(s.last()));
        lemma_trim_back_at(s.drop_last(), k);
        assert(s.drop_last().take(k) =~= s.take(k));
    } else {
        assert(s.take(k) =~= s);
    }
}

/// Whether `b` is ASCII whitespace.
fn is_space_exec(b: u8) -> (r: bool)
    ensures
        r == is_space(b),
{
    b == 32 || (9 <= b && b <= 13)
}

/// First index of `b` in `text[from..to]`, or `to` when absent.
fn find_byte(text: &[u8], from: usize, to: usize, b: u8) -> (i: usize)
    requires
        from <= to <= text@.len(),
    ensures
        from <= i <= to,
        forall|j: int| from <= j < i ==> text@[j] != b,
        i < to ==> text@[i as int] == b,
{
    let mut i: usize = from;
    while i < to
        invariant
            from <= i <= to <= text@.len(),
            forall|j: int| from <= j < i ==> text@[j] != b,
        decreases to - i,
    {
        if text[i] == b {
            return i;
        }
        i = i + 1;
    }
    i
}

/// Bounds of `text[lo..hi]` with surrounding whitespace removed.
fn trim_range(text: &[u8], lo: usize, hi: usize) -> (r: (usize, usize))
    requires
        lo <= hi <= text@.len(),
    ensures
        lo <= r.0 <= r.1 <= hi,
        text@.subrange(r.0 as int, r.1 as int) == trimmed(text@.subrange(lo as int, hi as int)),
{
    let mut a: usize = lo;
    while a < hi && is_space_exec(text[a])
        invariant
            lo <= a <= hi <= text@.len(),
            forall|j: int| lo <= j < a ==> is_space(text@[j]),
        decreases hi - a,
    {
        a = a + 1;
    }
    let mut b: usize = hi;
    while b > a && is_space_exec(text[b - 1])
        invariant
            a <= b <= hi <= text@.len(),
            forall|j: int| b <= j < hi ==> is_space(text@[j]),
        decreases b,
    {
        b = b - 1;
    }
    proof {
        let seg = text@.subrange(lo as int, hi as int);
        assert forall|j: int| 0 <= j < a - lo implies is_space(seg[j]) by {
            assert(seg[j] == text@[lo + j]);
        }
        assert(a - lo < seg.len() ==> seg[a - lo] == text@[a as int]);
        lemma_trim_front_at(seg, a - lo);
        let mid = seg.skip(a - lo);
        assert forall|j: int| b - a <= j < mid.len() implies is_space(mid[j]) by {
            assert(mid[j] == text@[a + j]);
        }
        assert(b - a > 0 ==> mid[b - a - 1] == text@[b - 1]);
        lemma_trim_back_at(mid, b - a);
        assert(mid.take(b - a) =~= text@.subrange(a as int, b as int));
    }
    (a, b)
}

/// Whether `text[lo..hi]` equals `pat`.
fn range_eq(text: &[u8], lo: usize, hi: usize, pat: &Vec<u8>) -> (r: bool)
    requires
        lo <= hi <= text@.len(),
    ensures
        r == (text@.subrange(lo as int, hi as int) == pat@),
{
    let ghost sub = text@.subrange(lo as int, hi as int);
    if hi - lo != pat.len() {
        proof {
            assert(sub.len() != pat@.len());
        }
        return false;
    }
    let mut j: usize = 0;
    while j < pat.len()
        invariant
            0 <= j <= pat@.len(),
            lo <= hi <= text@.len(),
            hi - lo == pat@.len(),
            sub == text@.subrange(lo as int, hi as int),
            forall|t: int| 0 <= t < j ==> sub[t] == pat@[t],
        decreases pat@.len() - j,
    {
        if text[lo + j] != pat[j] {
            proof {
                assert(sub[j as int] == text@[lo + j]);
            }
            return false;
        }
        proof {
            assert(sub[j as int] == text@[lo + j]);
        }
        j = j + 1;
    }
    proof {
        assert(sub =~= pat@);
    }
    true
}

/// The bytes of the key `limit`.
fn limit_pattern() -> (v: Vec<u8>)
    ensures
        v@ == limit_name(),
{
    let mut v: Vec<u8> = Vec::new();
    v.push(108);
    v.push(105);
    v.push(109);
    v.push(105);
    v.push(116);
    proof {
        assert(v@ =~= limit_name());
    }
    v
}

/// The bytes of the key `window`.
fn window_pattern() -> (v: Vec<u8>)
    ensures
        v@ == window_name(),
{
    let mut v: Vec<u8> = Vec::new();
    v.push(119);
    v.push(105);
    v.push(110);
    v.push(100);
    v.push(111);
    v.push(119);
    proof {
        assert(v@ =~= window_name());
    }
    v
}

/// The bytes of the key `period`.
fn period_pattern() -> (v: Vec<u8>)
    ensures
        v@ == period_name(),
{
    let mut v: Vec<u8> = Vec::new();
    v.push(112);
    v.push(101);
    v.push(114);
    v.push(105);
    v.push(111);
    v.push(100);
    proof {
        assert(v@ =~= period_name());
    }
    v
}

/// Merges the entry held in `text[lo..hi]` onto `cfg`.
fn apply_entry_range(text: &[u8], lo: usize, hi: usize, cfg: Config) -> (c: Config)
    requires
        lo <= hi <= text@.len(),
        cfg.wf(),
    ensures
        c == apply_entry(text@.subrange(lo as int, hi as int), cfg),
        c.wf(),
{
    let ghost seg = text@.subrange(lo as int, hi as int);
    let eq_i = find_byte(text, lo, hi, 61);
    proof {
        assert forall|k: int| 0 <= k < eq_i - lo implies seg[k] != 61 by {
            assert(seg[k] == text@[lo + k]);
        }
        assert(eq_i - lo < seg.len() ==> seg[eq_i - lo] == text@[eq_i as int]);
        lemma_idx_of_first(seg, 61, eq_i - lo);
        if eq_i < hi {
            assert(seg.take(eq_i - lo) =~= text@.subrange(lo as int, eq_i as int));
            assert(seg.skip(eq_i - lo + 1) =~= text@.subrange(eq_i + 1, hi as int));
        } else {
            assert(seg =~= text@.subrange(lo as int, eq_i as int));
        }
    }
    let (klo, khi) = trim_range(text, lo, eq_i);
    proof {
        if eq_i == hi {
            // no `=`: the key is the whole trimmed entry, the value is empty
            assert(entry_key(seg) == text@.subrange(klo as int, khi as int));
            assert(entry_val(seg) =~= Seq::<u8>::empty());
        }
    }
    let pat_l = limit_pattern();
    if range_eq(text, klo, khi, &pat_l) {
        if eq_i < hi {
            let (vlo, vhi) = trim_range(text, eq_i + 1, hi);
            match decode_u32(&text[vlo..vhi]) {
                Some(n) => Config { limit: n, window: cfg.window },
                None => cfg,
            }
        } else {
            proof {
                assert(decoded_u32(entry_val(seg)) is None);
            }
            cfg
        }
    } else {
        let pat_w = window_pattern();
        let pat_p = period_pattern();
        let is_window = range_eq(text, klo, khi, &pat_w) || range_eq(text, klo, khi, &pat_p);
        if is_window {
            if eq_i < hi {
                let (vlo, vhi) = trim_range(text, eq_i + 1, hi);
                match decode_u64(&text[vlo..vhi]) {
                    Some(n) => if n > 0 {
                        Config { limit: cfg.limit, window: Some(n) }
                    } else {
                        cfg
                    },
                    None => cfg,
                }
            } else {
                proof {
                    assert(decoded_u64(entry_val(seg)) is None);
                }
                cfg
            }
        } else {
            cfg
        }
    }
}

/// Parses configuration text onto the baseline `base`: a best-effort merge
/// of comma-separated `key=value` entries that never fails.
pub fn parse_config(text: &[u8], base: Config) -> (c: Config)
    requires
        base.wf(),
    ensures
        c == parsed_config(text@, base),
        c.wf(),
{
    let mut cfg = base;
    let mut pos: usize = 0;
    proof {
        assert(text@.skip(0) =~= text@);
    }
    loop
        invariant
            pos <= text@.len(),
            cfg.wf(),
            parsed_config(text@, base) == parsed_config(text@.skip(pos as int), cfg),
        decreases text@.len() - pos,
    {
        let i = find_byte(text, pos, text.len(), 44);
        let cfg2 = apply_entry_range(text, pos, i, cfg);
        proof {
            let suffix = text@.skip(pos as int);
            assert forall|k: int| 0 <= k < i - pos implies suffix[k] != 44 by {
                assert(suffix[k] == text@[pos + k]);
            }
            assert(i - pos < suffix.len() ==> suffix[i - pos] == text@[i as int]);
            lemma_idx_of_first(suffix, 44, i - pos);
            if i < text@.len() {
                assert(suffix.take(i - pos) =~= text@.subrange(pos as int, i as int));
                assert(suffix.skip(i - pos + 1) =~= text@.skip(i + 1));
            } else {
                assert(suffix =~= text@.subrange(pos as int, i as int));
            }
        }
        if i == text.len() {
            return cfg2;
        }
        cfg = cfg2;
        pos = i + 1;
    }
}

} // verus!
