//! Downloads with yt-dlp: its command-line settings, and the reading of its
//! `[download]` progress lines into one overall progress over several passes.
//!
//! Byte counts are whole bytes (fractions are dropped); percentages are kept
//! in hundredths of a percent.

use vstd::prelude::*;
use crate::decimal::{
    decimal_floor_wide, decimal_scaled, nat_text, parse_decimal, parse_decimal_spec, scaled_floor,
    u64_text, Decimal,
};
use crate::text::{
    chars_eq, chars_of, ends_with, ends_with_exec, find, find_exec, is_ascii_digit_spec, is_digit,
    push_all, runs, runs_exec, string_of, strip_end, strip_end_vec, subvec, trim, trim_vec, vv,
    RunKind, Strip,
};

verus! {

// ---------------------------------------------------------------------------
// yt-dlp settings
// ---------------------------------------------------------------------------

/// How to call yt-dlp: its path and where to take cookies from.
#[derive(Debug, Clone, Default)]
pub struct YtDlp {
    pub bin: Option<String>,
    pub cookies_browser: Option<String>,
    pub cookies_file: Option<String>,
}

pub open spec fn opt_view(o: Option<String>) -> Option<Seq<char>> {
    match o {
        Some(s) => Some(s@),
        None => None,
    }
}

pub open spec fn string_views(v: Seq<String>) -> Seq<Seq<char>> {
    v.map_values(|s: String| s@)
}

/// Cookie arguments: the browser when one is set, else the cookie file when
/// one is set, else none.
pub open spec fn auth_args_spec(y: YtDlp) -> Seq<Seq<char>> {
    match (opt_view(y.cookies_browser), opt_view(y.cookies_file)) {
        (Some(b), _) => seq!["--cookies-from-browser"@, b],
        (None, Some(f)) => seq!["--cookies"@, f],
        (None, None) => Seq::empty(),
    }
}

/// The program to run: the configured path, else `yt-dlp`.
pub open spec fn ytdlp_bin_spec(y: YtDlp) -> Seq<char> {
    match opt_view(y.bin) {
        Some(b) => b,
        None => "yt-dlp"@,
    }
}

impl YtDlp {
    /// The program to run: see `ytdlp_bin_spec`.
    pub fn bin(&self) -> (r: String)
        ensures
            r@ == ytdlp_bin_spec(*self),
    {
        match &self.bin {
            Some(b) => b.clone(),
            None => {
                let v = chars_of("yt-dlp");
                string_of(v.as_slice())
            },
        }
    }

    /// Cookie arguments: see `auth_args_spec`.
    pub fn auth_args(&self) -> (r: Vec<String>)
        ensures
            string_views(r@) == auth_args_spec(*self),
    {
        let mut args: Vec<String> = Vec::new();
        if let Some(b) = &self.cookies_browser {
            let flag = chars_of("--cookies-from-browser");
            args.push(string_of(flag.as_slice()));
            args.push(b.clone());
        } else if let Some(f) = &self.cookies_file {
            let flag = chars_of("--cookies");
            args.push(string_of(flag.as_slice()));
            args.push(f.clone());
        }
        assert(string_views(args@) =~= match (opt_view(self.cookies_browser), opt_view(self.cookies_file)) {
            (Some(b), _) => seq!["--cookies-from-browser"@, b],
            (None, Some(f)) => seq!["--cookies"@, f],
            (None, None) => Seq::empty(),
        });
        args
    }
}

// ---------------------------------------------------------------------------
// Progress lines
// ---------------------------------------------------------------------------

/// A token such as `1.23MiB/s`: it starts with a digit and ends in `/s`.
pub open spec fn is_speed_token(t: Seq<char>) -> bool {
    t.len() > 0 && is_ascii_digit_spec(t[0]) && ends_with(t, "/s"@)
}

pub open spec fn first_speed(ts: Seq<Seq<char>>, i: int) -> Option<int>
    decreases ts.len() - i,
{
    if i < 0 || i >= ts.len() {
        None
    } else if is_speed_token(ts[i]) {
        Some(i)
    } else {
        first_speed(ts, i + 1)
    }
}

/// The first white-space separated speed token of a line.
pub open spec fn parse_speed_spec(line: Seq<char>) -> Option<Seq<char>> {
    let ts = runs(line, RunKind::NotSpace);
    match first_speed(ts, 0) {
        Some(i) => Some(ts[i]),
        None => None,
    }
}

/// Reads the download speed of a progress line: see `parse_speed_spec`.
pub fn parse_speed(line: &str) -> (r: Option<String>)
    ensures
        opt_view(r) == parse_speed_spec(line@),
{
    let l = chars_of(line);
    let ts = runs_exec(&l, RunKind::NotSpace);
    let ghost tv = vv(ts@);
    let suffix = chars_of("/s");
    let mut i: usize = 0;
    while i < ts.len()
        invariant
            i <= ts.len(),
            tv == vv(ts@),
            tv == runs(line@, RunKind::NotSpace),
            suffix@ == "/s"@,
            first_speed(tv, 0) == first_speed(tv, i as int),
        decreases ts.len() - i,
    {
        let t = &ts[i];
        assert(tv[i as int] == t@);
        if t.len() > 0 && is_digit(t[0]) && ends_with_exec(t, &suffix) {
            return Some(string_of(t.as_slice()));
        }
        i += 1;
    }
    None
}

pub open spec fn is_digit_or_dot(c: char) -> bool {
    is_ascii_digit_spec(c) || c == '.'
}

/// Where the run of digits and dots that ends at `j` begins.
pub open spec fn digit_dot_start(s: Seq<char>, j: int) -> int
    decreases j,
{
    if j > 0 && is_digit_or_dot(s[j - 1]) {
        digit_dot_start(s, j - 1)
    } else {
        j
    }
}

/// The percentage before the first `%` of a line: the digits and dots just
/// before it, read as a decimal number.
pub open spec fn parse_percent_spec(line: Seq<char>) -> Option<Decimal> {
    match find(line, "%"@) {
        None => None,
        Some(idx) => {
            let before = line.take(idx);
            parse_decimal_spec(before.skip(digit_dot_start(before, before.len() as int)))
        },
    }
}

proof fn lemma_digit_dot_start(s: Seq<char>, j: int)
    requires
        0 <= j <= s.len(),
    ensures
        0 <= digit_dot_start(s, j) <= j,
    decreases j,
{
    if j > 0 && is_digit_or_dot(s[j - 1]) {
        lemma_digit_dot_start(s, j - 1);
    }
}

/// Reads the percentage of a progress line: see `parse_percent_spec`.
pub fn parse_percent(line: &str) -> (r: Option<Decimal>)
    ensures
        r == parse_percent_spec(line@),
{
    let l = chars_of(line);
    let pct = chars_of("%");
    match find_exec(&l, &pct) {
        None => None,
        Some(idx) => {
            proof {
                crate::text::lemma_find_bounds(l@, pct@, 0);
            }
            let before = subvec(&l, 0, idx);
            assert(before@ == l@.take(idx as int));
            let mut j: usize = idx;
            while j > 0 && (is_digit(before[j - 1]) || before[j - 1] == '.')
                invariant
                    j <= before.len(),
                    digit_dot_start(before@, before.len() as int) == digit_dot_start(before@, j as int),
                decreases j,
            {
                j -= 1;
            }
            let num = subvec(&before, j, before.len());
            assert(num@ == before@.skip(j as int));
            parse_decimal(&num)
        },
    }
}

/// The bytes of a size written with a unit suffix, when the rest of the
/// token reads as a decimal number (rounded down); `None` when it does not.
pub open spec fn unit_bytes(tok: Seq<char>, suffix: Seq<char>, mult: nat) -> Option<nat> {
    if ends_with(tok, suffix) {
        match parse_decimal_spec(tok.take(tok.len() - suffix.len())) {
            Some(d) => Some(scaled_floor(d, mult)),
            None => None,
        }
    } else {
        None
    }
}

/// The bytes a yt-dlp size such as `360.50MiB` or `440.00B` stands for,
/// with the units TiB, GiB, MiB, KiB and B tried in this order; `None` when
/// none fits or the count exceeds a `u64`.
pub open spec fn parse_size_spec(tok: Seq<char>) -> Option<u64> {
    let r = match unit_bytes(tok, "TiB"@, 1099511627776) {
        Some(v) => Some(v),
        None => match unit_bytes(tok, "GiB"@, 1073741824) {
            Some(v) => Some(v),
            None => match unit_bytes(tok, "MiB"@, 1048576) {
                Some(v) => Some(v),
                None => match unit_bytes(tok, "KiB"@, 1024) {
                    Some(v) => Some(v),
                    None => unit_bytes(tok, "B"@, 1),
                },
            },
        },
    };
    match r {
        Some(v) => if v <= u64::MAX {
            Some(v as u64)
        } else {
            None
        },
        None => None,
    }
}

/// `unit_bytes` with the count as a `u128` (it always fits).
fn unit_bytes_exec(tok: &Vec<char>, suffix: &str, mult: u64) -> (r: Option<u128>)
    ensures
        match r {
            Some(v) => unit_bytes(tok@, suffix@, mult as nat) == Some(v as nat),
            None => unit_bytes(tok@, suffix@, mult as nat) is None,
        },
{
    let sv = chars_of(suffix);
    if !ends_with_exec(tok, &sv) {
        return None;
    }
    let num = subvec(tok, 0, tok.len() - sv.len());
    assert(num@ == tok@.take(tok@.len() - suffix@.len()));
    match parse_decimal(&num) {
        None => None,
        Some(d) => Some(decimal_floor_wide(d, mult)),
    }
}

/// Reads a yt-dlp size: see `parse_size_spec`.
pub fn parse_size(tok: &str) -> (r: Option<u64>)
    ensures
        r == parse_size_spec(tok@),
{
    let t = chars_of(tok);
    parse_size_vec(&t)
}

fn parse_size_vec(t: &Vec<char>) -> (r: Option<u64>)
    ensures
        r == parse_size_spec(t@),
{
    let v = match unit_bytes_exec(t, "TiB", 1099511627776) {
        Some(v) => Some(v),
        None => match unit_bytes_exec(t, "GiB", 1073741824) {
            Some(v) => Some(v),
            None => match unit_bytes_exec(t, "MiB", 1048576) {
                Some(v) => Some(v),
                None => match unit_bytes_exec(t, "KiB", 1024) {
                    Some(v) => Some(v),
                    None => unit_bytes_exec(t, "B", 1),
                },
            },
        },
    };
    match v {
        Some(v) => if v <= u64::MAX as u128 {
            Some(v as u64)
        } else {
            None
        },
        None => None,
    }
}

pub open spec fn first_eq(ts: Seq<Seq<char>>, w: Seq<char>, i: int) -> Option<int>
    decreases ts.len() - i,
{
    if i < 0 || i >= ts.len() {
        None
    } else if ts[i] == w {
        Some(i)
    } else {
        first_eq(ts, w, i + 1)
    }
}

pub open spec fn first_ne(ts: Seq<Seq<char>>, w: Seq<char>, i: int) -> Option<int>
    decreases ts.len() - i,
{
    if i < 0 || i >= ts.len() {
        None
    } else if ts[i] != w {
        Some(i)
    } else {
        first_ne(ts, w, i + 1)
    }
}

/// The bytes so far and the total of a `[download]` line.
///
/// `[download]  45.3% of  360.50MiB at ...` (also `of ~ 98.00MiB`): the total
/// is the first token after the first `of` that is not `~`, the bytes so far
/// are `floor(percent * total / 100)`. `[download]  10.00MiB at ...`: only the
/// bytes so far are known. Other lines give `None`.
pub open spec fn parse_sizes_spec(line: Seq<char>) -> Option<(u64, Option<u64>)> {
    let toks = runs(line, RunKind::NotSpace);
    if toks.len() < 2 || toks[0] != "[download]"@ {
        None
    } else {
        let t1 = toks[1];
        if t1.len() > 0 && t1.last() == '%' {
            match first_eq(toks, "of"@, 0) {
                None => None,
                Some(oi) => match first_ne(toks, "~"@, oi + 1) {
                    None => None,
                    Some(si) => match parse_size_spec(toks[si]) {
                        None => None,
                        Some(total) => match parse_decimal_spec(strip_end(t1, Strip::Percent)) {
                            None => None,
                            Some(p) => {
                                let dl = scaled_floor(p, total as nat) / 100;
                                if dl <= u64::MAX {
                                    Some((dl as u64, Some(total)))
                                } else {
                                    None
                                }
                            },
                        },
                    },
                },
            }
        } else {
            match parse_size_spec(t1) {
                Some(dl) => Some((dl, None)),
                None => None,
            }
        }
    }
}

fn lit_eq(s: &Vec<char>, lit: &str) -> (r: bool)
    ensures
        r == (s@ == lit@),
{
    let l = chars_of(lit);
    chars_eq(s, &l)
}

/// Reads bytes and total of a progress line: see `parse_sizes_spec`.
pub fn parse_sizes(line: &str) -> (r: Option<(u64, Option<u64>)>)
    ensures
        r == parse_sizes_spec(line@),
{
    let l = chars_of(line);
    let toks = runs_exec(&l, RunKind::NotSpace);
    let ghost tv = vv(toks@);
    if toks.len() < 2 {
        return None;
    }
    assert(tv[0] == toks@[0]@);
    assert(tv[1] == toks@[1]@);
    if !lit_eq(&toks[0], "[download]") {
        return None;
    }
    let t1 = &toks[1];
    if t1.len() > 0 && t1[t1.len() - 1] == '%' {
        let mut oi: usize = 0;
        while oi < toks.len()
            invariant
                oi <= toks.len(),
                tv == vv(toks@),
                first_eq(tv, "of"@, 0) == first_eq(tv, "of"@, oi as int),
            ensures
                oi <= toks.len(),
                first_eq(tv, "of"@, 0) == if oi < toks.len() { Some(oi as int) } else { None },
            decreases toks.len() - oi,
        {
            assert(tv[oi as int] == toks@[oi as int]@);
            if lit_eq(&toks[oi], "of") {
                break;
            }
            oi += 1;
        }
        if oi >= toks.len() {
            return None;
        }
        assert(tv[oi as int] == toks@[oi as int]@);
        assert(first_eq(tv, "of"@, 0) == Some(oi as int));
        let mut si: usize = oi + 1;
        while si < toks.len()
            invariant
                oi < si <= toks.len(),
                tv == vv(toks@),
                first_ne(tv, "~"@, oi + 1) == first_ne(tv, "~"@, si as int),
            ensures
                oi < si <= toks.len(),
                first_ne(tv, "~"@, oi + 1) == if si < toks.len() { Some(si as int) } else { None },
            decreases toks.len() - si,
        {
            assert(tv[si as int] == toks@[si as int]@);
            if !lit_eq(&toks[si], "~") {
                break;
            }
            si += 1;
        }
        if si >= toks.len() {
            return None;
        }
        assert(tv[si as int] == toks@[si as int]@);
        assert(first_ne(tv, "~"@, oi + 1) == Some(si as int));
        let total = match parse_size_vec(&toks[si]) {
            None => {
                return None;
            },
            Some(t) => t,
        };
        let pv = strip_end_vec(t1, Strip::Percent);
        match parse_decimal(&pv) {
            None => None,
            Some(p) => {
                let x = decimal_floor_wide(p, total);
                let dl = x / 100;
                if dl > u64::MAX as u128 {
                    None
                } else {
                    Some((dl as u64, Some(total)))
                }
            },
        }
    } else {
        match parse_size_vec(t1) {
            Some(dl) => Some((dl, None)),
            None => None,
        }
    }
}

// ---------------------------------------------------------------------------
// Sizes for display
// ---------------------------------------------------------------------------

pub open spec fn pow1024(i: nat) -> nat
    decreases i,
{
    if i == 0 {
        1
    } else {
        1024 * pow1024((i - 1) as nat)
    }
}

/// The unit index: B, KiB, MiB, GiB for sizes below 1 KiB, 1 MiB, 1 GiB, and
/// at or above 1 GiB.
pub open spec fn size_unit(bytes: nat) -> nat {
    if bytes < 1024 {
        0
    } else if bytes < 1048576 {
        1
    } else if bytes < 1073741824 {
        2
    } else {
        3
    }
}

pub open spec fn unit_name(i: nat) -> Seq<char> {
    if i == 0 {
        "B"@
    } else if i == 1 {
        "KiB"@
    } else if i == 2 {
        "MiB"@
    } else {
        "GiB"@
    }
}

/// `x / d` rounded to the nearest integer, ties to the even one.
pub open spec fn round_half_even(x: nat, d: nat) -> nat {
    let q = x / d;
    let r = x % d;
    if 2 * r > d || (2 * r == d && q % 2 == 1) {
        q + 1
    } else {
        q
    }
}

/// A size for display: whole bytes with `B`, otherwise the size in the
/// largest unit up to GiB with one decimal ("12.3MiB"), rounded to nearest
/// with ties to even.
pub open spec fn fmt_size_spec(bytes: nat) -> Seq<char> {
    let i = size_unit(bytes);
    if i == 0 {
        nat_text(bytes) + "B"@
    } else {
        let tenths = round_half_even(bytes * 10, pow1024(i));
        nat_text(tenths / 10) + "."@ + nat_text(tenths % 10) + unit_name(i)
    }
}

/// Writes a size: see `fmt_size_spec`.
pub fn fmt_size(bytes: u64) -> (r: String)
    ensures
        r@ == fmt_size_spec(bytes as nat),
{
    let v = fmt_size_vec(bytes);
    string_of(v.as_slice())
}

fn fmt_size_vec(bytes: u64) -> (r: Vec<char>)
    ensures
        r@ == fmt_size_spec(bytes as nat),
{
    if bytes < 1024 {
        let mut v = u64_text(bytes);
        let u = chars_of("B");
        push_all(&mut v, &u);
        return v;
    }
    let (d, unit): (u128, &str) = if bytes < 1048576 {
        (1024, "KiB")
    } else if bytes < 1073741824 {
        (1048576, "MiB")
    } else {
        (1073741824, "GiB")
    };
    proof {
        reveal_with_fuel(pow1024, 4);
    }
    assert(d as nat == pow1024(size_unit(bytes as nat)));
    assert(unit@ == unit_name(size_unit(bytes as nat)));
    let x: u128 = bytes as u128 * 10;
    let q = x / d;
    let rem = x % d;
    let tenths: u128 = if 2 * rem > d || (2 * rem == d && q % 2 == 1) { q + 1 } else { q };
    assert(tenths as nat == round_half_even(bytes as nat * 10, d as nat));
    assert(tenths <= u64::MAX as u128);
    let t64: u64 = tenths as u64;
    let mut v = u64_text(t64 / 10);
    v.push('.');
    let frac = u64_text(t64 % 10);
    push_all(&mut v, &frac);
    let u = chars_of(unit);
    push_all(&mut v, &u);
    assert(seq!['.'] == "."@) by {
        reveal_strlit(".");
    }
    v
}

// ---------------------------------------------------------------------------
// Bytes over several download passes
// ---------------------------------------------------------------------------

/// Sums bytes, stopping at the largest `u64`.
pub open spec fn sat_add(a: u64, b: u64) -> u64 {
    if a + b <= u64::MAX {
        (a + b) as u64
    } else {
        u64::MAX
    }
}

fn sat_add_exec(a: u64, b: u64) -> (r: u64)
    ensures
        r == sat_add(a, b),
{
    if a <= u64::MAX - b {
        a + b
    } else {
        u64::MAX
    }
}

/// yt-dlp downloads video, audio, captions and cover in separate passes,
/// each counting from 0%. The tracker adds the passes up by bytes; caption
/// and cover passes are neither reported nor counted.
#[derive(Debug, Clone, Copy, Default)]
pub struct DlTracker {
    /// Total bytes of the finished counted passes.
    pub completed: u64,
    /// Bytes of the current pass so far.
    pub cur_dl: u64,
    /// Total bytes of the current pass, when known.
    pub cur_total: Option<u64>,
    /// The current pass is a caption or cover file.
    pub skip_pass: bool,
}

/// A destination that is a caption or cover file.
pub open spec fn is_small_file(dest: Seq<char>) -> bool {
    ||| ends_with(dest, ".vtt"@)
    ||| ends_with(dest, ".srt"@)
    ||| ends_with(dest, ".ass"@)
    ||| ends_with(dest, ".webp"@)
    ||| ends_with(dest, ".jpg"@)
    ||| ends_with(dest, ".jpeg"@)
    ||| ends_with(dest, ".png"@)
}

fn ends_with_lit(s: &Vec<char>, lit: &str) -> (r: bool)
    ensures
        r == ends_with(s@, lit@),
{
    let l = chars_of(lit);
    ends_with_exec(s, &l)
}

/// A new pass starts writing to `dest`: the total of a finished counted
/// pass joins the completed bytes; the new pass starts from nothing.
pub open spec fn new_pass_spec(t: DlTracker, dest: Seq<char>) -> DlTracker {
    DlTracker {
        completed: if !t.skip_pass && t.cur_total is Some {
            sat_add(t.completed, t.cur_total.unwrap())
        } else {
            t.completed
        },
        cur_dl: 0,
        cur_total: None,
        skip_pass: is_small_file(dest),
    }
}

/// New bytes of the current pass; a known total replaces the old one.
pub open spec fn update_spec(t: DlTracker, dl: u64, total: Option<u64>) -> DlTracker {
    DlTracker {
        cur_dl: dl,
        cur_total: if total is Some {
            total
        } else {
            t.cur_total
        },
        ..t
    }
}

/// All passes together: (bytes so far, total when the current total is
/// known); `None` during a caption or cover pass.
pub open spec fn combined_spec(t: DlTracker) -> Option<(u64, Option<u64>)> {
    if t.skip_pass {
        None
    } else {
        Some(
            (
                sat_add(t.completed, t.cur_dl),
                match t.cur_total {
                    Some(x) => Some(sat_add(t.completed, x)),
                    None => None,
                },
            ),
        )
    }
}

/// Recording bytes: the pass's bytes become `dl`; a known total replaces
/// the pass's total (an unknown one keeps it); finished bytes and the kind
/// of pass stay. Outside caption and cover passes the combined count is the
/// finished bytes plus `dl` and the total the finished bytes plus the
/// pass's (newest known) total, each capped at `u64::MAX`; and a new pass
/// after it adds that newest total to the finished bytes.
pub proof fn lemma_update_keeps_newest_total(t: DlTracker, dl: u64, total: Option<u64>, dest: Seq<char>)
    ensures
        update_spec(t, dl, total).cur_dl == dl,
        update_spec(t, dl, total).completed == t.completed,
        update_spec(t, dl, total).skip_pass == t.skip_pass,
        total is Some ==> update_spec(t, dl, total).cur_total == total,
        total is None ==> update_spec(t, dl, total).cur_total == t.cur_total,
        t.skip_pass ==> combined_spec(update_spec(t, dl, total)) is None,
        !t.skip_pass ==> combined_spec(update_spec(t, dl, total)) == Some((
            (if t.completed + dl <= u64::MAX { (t.completed + dl) as u64 } else { u64::MAX }),
            match (if total is Some { total } else { t.cur_total }) {
                Some(x) => Some(if t.completed + x <= u64::MAX { (t.completed + x) as u64 } else { u64::MAX }),
                None => None,
            },
        )),
        total matches Some(x) ==> new_pass_spec(update_spec(t, dl, total), dest).completed == (if t.skip_pass {
            t.completed
        } else if t.completed + x <= u64::MAX {
            (t.completed + x) as u64
        } else {
            u64::MAX
        }),
{
}

impl DlTracker {
    /// Starts a new pass: see `new_pass_spec`.
    pub fn new_pass(&mut self, dest: &str)
        ensures
            *final(self) == new_pass_spec(*old(self), dest@),
    {
        if !self.skip_pass {
            if let Some(t) = self.cur_total {
                self.completed = sat_add_exec(self.completed, t);
            }
        }
        self.cur_dl = 0;
        self.cur_total = None;
        let d = chars_of(dest);
        self.skip_pass = ends_with_lit(&d, ".vtt") || ends_with_lit(&d, ".srt") || ends_with_lit(
            &d,
            ".ass",
        ) || ends_with_lit(&d, ".webp") || ends_with_lit(&d, ".jpg") || ends_with_lit(&d, ".jpeg")
            || ends_with_lit(&d, ".png");
    }

    /// Records the bytes of the current pass: see `update_spec`.
    pub fn update(&mut self, dl: u64, total: Option<u64>)
        ensures
            *final(self) == update_spec(*old(self), dl, total),
    {
        self.cur_dl = dl;
        if total.is_some() {
            self.cur_total = total;
        }
    }

    /// All passes together: see `combined_spec`.
    pub fn combined(&self) -> (r: Option<(u64, Option<u64>)>)
        ensures
            r == combined_spec(*self),
    {
        if self.skip_pass {
            return None;
        }
        let total = match self.cur_total {
            Some(t) => Some(sat_add_exec(self.completed, t)),
            None => None,
        };
        Some((sat_add_exec(self.completed, self.cur_dl), total))
    }
}

/// Finished bytes never go back: starting a pass or recording bytes leaves
/// the completed count at least what it was.
pub proof fn lemma_completed_never_decreases(t: DlTracker, dest: Seq<char>, dl: u64, total: Option<u64>)
    ensures
        new_pass_spec(t, dest).completed >= t.completed,
        update_spec(t, dl, total).completed == t.completed,
        combined_spec(t) is None <==> t.skip_pass,
{
}

} // verus!
