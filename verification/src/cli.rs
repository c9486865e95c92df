//! Startup arguments.
//!
//! - `--data-dir <path>` replaces the app data directory (library, logs, tools).
//! - `--profile-dir <path>` moves the webview's browsing data elsewhere.
//! - `--offscreen` parks the window off the visible desktop.
//! - `--window-size WxH` in logical pixels.
//!
//! Every flag but `--offscreen` takes its value as `--flag <value>` or `--flag=<value>`.
//! A flag whose value is missing, and any unknown argument, is ignored.

use vstd::prelude::*;
use crate::text::chars_of;

verus! {

/// The parsed startup arguments.
#[derive(Debug, Clone, PartialEq)]
pub struct CliArgs {
    pub data_dir: Option<String>,
    pub profile_dir: Option<String>,
    pub offscreen: bool,
    pub window_size: Option<(u32, u32)>,
}

/// The startup arguments as contracts see them.
pub struct CliArgsView {
    pub data_dir: Option<Seq<char>>,
    pub profile_dir: Option<Seq<char>>,
    pub offscreen: bool,
    pub window_size: Option<(u32, u32)>,
}

pub open spec fn opt_view(o: Option<String>) -> Option<Seq<char>> {
    match o {
        Some(s) => Some(s@),
        None => None,
    }
}

impl View for CliArgs {
    type V = CliArgsView;

    open spec fn view(&self) -> CliArgsView {
        CliArgsView {
            data_dir: opt_view(self.data_dir),
            profile_dir: opt_view(self.profile_dir),
            offscreen: self.offscreen,
            window_size: self.window_size,
        }
    }
}

/// No argument given.
pub open spec fn no_args() -> CliArgsView {
    CliArgsView { data_dir: None, profile_dir: None, offscreen: false, window_size: None }
}

impl Default for CliArgs {
    fn default() -> (r: Self)
        ensures
            r@ == no_args(),
    {
        CliArgs { data_dir: None, profile_dir: None, offscreen: false, window_size: None }
    }
}

impl CliArgs {
    /// True when the app runs isolated from the user's own data (a data directory was
    /// given): anything that would persist outside the isolated directories stays off.
    pub fn isolated(&self) -> (r: bool)
        ensures
            r == self.data_dir is Some,
    {
        self.data_dir.is_some()
    }
}

/// `char::is_whitespace`: the Unicode `White_Space` characters.
pub open spec fn is_ws(c: char) -> bool {
    ||| ('\u{9}' <= c && c <= '\u{d}')
    ||| c == ' '
    ||| c == '\u{85}'
    ||| c == '\u{a0}'
    ||| c == '\u{1680}'
    ||| ('\u{2000}' <= c && c <= '\u{200a}')
    ||| c == '\u{2028}'
    ||| c == '\u{2029}'
    ||| c == '\u{202f}'
    ||| c == '\u{205f}'
    ||| c == '\u{3000}'
}

/// `s` without leading whitespace.
pub open spec fn trim_start(s: Seq<char>) -> Seq<char>
    decreases s.len(),
{
    if s.len() > 0 && is_ws(s[0]) {
        trim_start(s.drop_first())
    } else {
        s
    }
}

/// `s` without trailing whitespace.
pub open spec fn trim_end(s: Seq<char>) -> Seq<char>
    decreases s.len(),
{
    if s.len() > 0 && is_ws(s.last()) {
        trim_end(s.drop_last())
    } else {
        s
    }
}

/// `str::trim`: `s` without leading and trailing whitespace.
pub open spec fn trim(s: Seq<char>) -> Seq<char> {
    trim_end(trim_start(s))
}

pub open spec fn is_digit(c: char) -> bool {
    '0' <= c && c <= '9'
}

/// The number an all-digit string denotes.
pub open spec fn digits_value(s: Seq<char>) -> nat
    decreases s.len(),
{
    if s.len() == 0 {
        0
    } else {
        digits_value(s.drop_last()) * 10 + ((s.last() as u32) - ('0' as u32)) as nat
    }
}

/// `s` without one leading `+`.
pub open spec fn unsigned_digits(s: Seq<char>) -> Seq<char> {
    if s.len() > 0 && s[0] == '+' {
        s.drop_first()
    } else {
        s
    }
}

/// `u32::from_str`: an optional `+`, then one or more ASCII digits, denoting at most `u32::MAX`.
pub open spec fn parse_u32(s: Seq<char>) -> Option<u32> {
    let digits = unsigned_digits(s);
    if digits.len() > 0 && (forall|i: int| 0 <= i < digits.len() ==> is_digit(#[trigger] digits[i]))
        && digits_value(digits) <= u32::MAX {
        Some(digits_value(digits) as u32)
    } else {
        None
    }
}

/// Index of the first `x` or `X` in `s`.
pub open spec fn first_x(s: Seq<char>) -> Option<int> {
    if exists|i: int| 0 <= i < s.len() && (#[trigger] s[i] == 'x' || s[i] == 'X') {
        Some(
            choose|i: int|
                0 <= i < s.len() && (s[i] == 'x' || s[i] == 'X') && forall|j: int|
                    0 <= j < i ==> #[trigger] s[j] != 'x' && s[j] != 'X',
        )
    } else {
        None
    }
}

/// A `WIDTHxHEIGHT` pair (`x` in either case, whitespace around each number allowed).
pub open spec fn size_of_text(s: Seq<char>) -> Option<(u32, u32)> {
    match first_x(s) {
        None => None,
        Some(i) => match (parse_u32(trim(s.subrange(0, i))), parse_u32(trim(s.subrange(i + 1, s.len() as int)))) {
            (Some(w), Some(h)) => Some((w, h)),
            _ => None,
        },
    }
}

fn is_ws_char(c: char) -> (r: bool)
    ensures
        r == is_ws(c),
{
    ('\u{9}' <= c && c <= '\u{d}') || c == ' ' || c == '\u{85}' || c == '\u{a0}' || c == '\u{1680}'
        || ('\u{2000}' <= c && c <= '\u{200a}') || c == '\u{2028}' || c == '\u{2029}' || c == '\u{202f}'
        || c == '\u{205f}' || c == '\u{3000}'
}

proof fn lemma_trim_start_skip(s: Seq<char>, i: int)
    requires
        0 <= i <= s.len(),
        forall|j: int| 0 <= j < i ==> is_ws(#[trigger] s[j]),
    ensures
        trim_start(s) == trim_start(s.subrange(i, s.len() as int)),
    decreases i,
{
    if i > 0 {
        lemma_trim_start_skip(s.drop_first(), i - 1);
        assert(s.drop_first().subrange(i - 1, s.drop_first().len() as int) =~= s.subrange(i, s.len() as int));
    } else {
        assert(s.subrange(0, s.len() as int) =~= s);
    }
}

proof fn lemma_trim_end_skip(s: Seq<char>, k: int)
    requires
        0 <= k <= s.len(),
        forall|j: int| k <= j < s.len() ==> is_ws(#[trigger] s[j]),
    ensures
        trim_end(s) == trim_end(s.subrange(0, k)),
    decreases s.len() - k,
{
    if k < s.len() {
        lemma_trim_end_skip(s.drop_last(), k);
        assert(s.drop_last().subrange(0, k) =~= s.subrange(0, k));
    } else {
        assert(s.subrange(0, k) =~= s);
    }
}

/// Parses the characters `s[lo..hi]`, trimmed, as a `u32`.
fn parse_trimmed_u32(s: &Vec<char>, lo: usize, hi: usize) -> (r: Option<u32>)
    requires
        lo <= hi <= s@.len(),
    ensures
        r == parse_u32(trim(s@.subrange(lo as int, hi as int))),
{
    let ghost t = s@.subrange(lo as int, hi as int);
    let mut a = lo;
    while a < hi && is_ws_char(s[a])
        invariant
            lo <= a <= hi <= s@.len(),
            forall|j: int| lo <= j < a ==> is_ws(#[trigger] s@[j]),
        decreases hi - a,
    {
        a = a + 1;
    }
    proof {
        assert forall|j: int| 0 <= j < a - lo implies is_ws(#[trigger] t[j]) by {
            assert(t[j] == s@[lo + j]);
        }
        lemma_trim_start_skip(t, a - lo);
        assert(t.subrange(a - lo, t.len() as int) =~= s@.subrange(a as int, hi as int));
        if a < hi {
            assert(!is_ws(s@[a as int]));
            assert(trim_start(s@.subrange(a as int, hi as int)) == s@.subrange(a as int, hi as int));
        } else {
            assert(s@.subrange(a as int, hi as int).len() == 0);
        }
    }
    let mut b = hi;
    while b > a && is_ws_char(s[b - 1])
        invariant
            lo <= a <= b <= hi <= s@.len(),
            forall|j: int| b <= j < hi ==> is_ws(#[trigger] s@[j]),
        decreases b - a,
    {
        b = b - 1;
    }
    let ghost u = s@.subrange(a as int, hi as int);
    proof {
        assert forall|j: int| b - a <= j < u.len() implies is_ws(#[trigger] u[j]) by {
            assert(u[j] == s@[a + j]);
        }
        lemma_trim_end_skip(u, b - a);
        assert(u.subrange(0, b - a) =~= s@.subrange(a as int, b as int));
        if b > a {
            assert(s@.subrange(a as int, b as int).last() == s@[b - 1]);
        }
        assert(trim(t) == s@.subrange(a as int, b as int));
    }
    parse_u32_range(s, a, b)
}

/// Parses the characters `s[lo..hi]` exactly as `u32::from_str` does.
fn parse_u32_range(s: &Vec<char>, lo: usize, hi: usize) -> (r: Option<u32>)
    requires
        lo <= hi <= s@.len(),
    ensures
        r == parse_u32(s@.subrange(lo as int, hi as int)),
{
    let ghost t = s@.subrange(lo as int, hi as int);
    let mut start = lo;
    if lo < hi && s[lo] == '+' {
        start = lo + 1;
    }
    let ghost digits = s@.subrange(start as int, hi as int);
    proof {
        if lo < hi && s@[lo as int] == '+' {
            assert(t.drop_first() =~= digits);
        } else {
            assert(t =~= digits);
        }
        assert(unsigned_digits(t) == digits);
    }
    if start >= hi {
        return None;
    }
    let mut value: u64 = 0;
    let mut i = start;
    while i < hi
        invariant
            start < hi,
            t == s@.subrange(lo as int, hi as int),
            digits == s@.subrange(start as int, hi as int),
            unsigned_digits(t) == digits,
            start <= i <= hi <= s@.len(),
            forall|j: int| start <= j < i ==> is_digit(#[trigger] s@[j]),
            value == digits_value(s@.subrange(start as int, i as int)),
            value <= u32::MAX,
        decreases hi - i,
    {
        let c = s[i];
        if !('0' <= c && c <= '9') {
            proof {
                assert(!is_digit(digits[i - start]));
                assert(!(forall|j: int| 0 <= j < digits.len() ==> is_digit(#[trigger] digits[j])));
                assert(parse_u32(t) is None);
            }
            return None;
        }
        let d = (c as u32 - '0' as u32) as u64;
        let next = value * 10 + d;
        proof {
            let p = s@.subrange(start as int, i + 1);
            assert(p.drop_last() =~= s@.subrange(start as int, i as int));
            assert(p.last() == c);
        }
        if next > u32::MAX as u64 {
            proof {
                assert(digits.subrange(0, i + 1 - start) =~= s@.subrange(start as int, i + 1));
                if forall|j: int| 0 <= j < digits.len() ==> is_digit(#[trigger] digits[j]) {
                    lemma_digits_value_prefix_le(digits, i + 1 - start);
                }
                assert(parse_u32(t) is None);
            }
            return None;
        }
        value = next;
        i = i + 1;
    }
    proof {
        assert(s@.subrange(start as int, i as int) =~= digits);
    }
    Some(value as u32)
}

proof fn lemma_digits_value_prefix_le(s: Seq<char>, n: int)
    requires
        0 <= n <= s.len(),
        forall|i: int| 0 <= i < s.len() ==> is_digit(#[trigger] s[i]),
    ensures
        digits_value(s.subrange(0, n)) <= digits_value(s),
    decreases s.len() - n,
{
    if n < s.len() {
        lemma_digits_value_prefix_le(s, n + 1);
        assert(s.subrange(0, n + 1).drop_last() =~= s.subrange(0, n));
    } else {
        assert(s.subrange(0, n) =~= s);
    }
}

/// Parses a `WIDTHxHEIGHT` pair; `None` on anything malformed.
pub fn parse_size(value: &str) -> (r: Option<(u32, u32)>)
    ensures
        r == size_of_text(value@),
{
    let s = chars_of(value);
    let mut i: usize = 0;
    while i < s.len() && !(s[i] == 'x' || s[i] == 'X')
        invariant
            s@ == value@,
            i <= s@.len(),
            forall|j: int| 0 <= j < i ==> #[trigger] s@[j] != 'x' && s@[j] != 'X',
        decreases s@.len() - i,
    {
        i = i + 1;
    }
    if i == s.len() {
        proof {
            assert(!exists|j: int| 0 <= j < value@.len() && (#[trigger] value@[j] == 'x' || value@[j] == 'X'));
        }
        return None;
    }
    proof {
        let k = choose|k: int|
            0 <= k < s@.len() && (s@[k] == 'x' || s@[k] == 'X') && forall|j: int|
                0 <= j < k ==> #[trigger] s@[j] != 'x' && s@[j] != 'X';
        assert(0 <= i < s@.len() && (s@[i as int] == 'x' || s@[i as int] == 'X'));
        if k < i {
            assert(s@[k] != 'x' && s@[k] != 'X');
        } else if k > i {
            assert(s@[i as int] != 'x' && s@[i as int] != 'X');
        }
        assert(first_x(value@) == Some(i as int));
    }
    let w = parse_trimmed_u32(&s, 0, i);
    let h = parse_trimmed_u32(&s, i + 1, s.len());
    match (w, h) {
        (Some(w), Some(h)) => Some((w, h)),
        _ => None,
    }
}

pub open spec fn offscreen_flag() -> Seq<char> {
    seq!['-', '-', 'o', 'f', 'f', 's', 'c', 'r', 'e', 'e', 'n']
}

pub open spec fn data_dir_flag() -> Seq<char> {
    seq!['-', '-', 'd', 'a', 't', 'a', '-', 'd', 'i', 'r']
}

pub open spec fn profile_dir_flag() -> Seq<char> {
    seq!['-', '-', 'p', 'r', 'o', 'f', 'i', 'l', 'e', '-', 'd', 'i', 'r']
}

pub open spec fn window_size_flag() -> Seq<char> {
    seq!['-', '-', 'w', 'i', 'n', 'd', 'o', 'w', '-', 's', 'i', 'z', 'e']
}

/// Whether `s` starts with `--`.
pub open spec fn starts_with_dashes(s: Seq<char>) -> bool {
    s.len() >= 2 && s[0] == '-' && s[1] == '-'
}

/// Index of the first `=` in `s`.
pub open spec fn first_eq(s: Seq<char>) -> Option<int> {
    if exists|i: int| 0 <= i < s.len() && #[trigger] s[i] == '=' {
        Some(choose|i: int| 0 <= i < s.len() && s[i] == '=' && forall|j: int| 0 <= j < i ==> #[trigger] s[j] != '=')
    } else {
        None
    }
}

/// An argument split into its flag and its inline `=value`, if any.
pub open spec fn flag_and_inline(arg: Seq<char>) -> (Seq<char>, Option<Seq<char>>) {
    match first_eq(arg) {
        Some(i) => (arg.subrange(0, i), Some(arg.subrange(i + 1, arg.len() as int))),
        None => (arg, None),
    }
}

/// Whether `flag` is one of the flags that take a value.
pub open spec fn takes_value(flag: Seq<char>) -> bool {
    flag == data_dir_flag() || flag == profile_dir_flag() || flag == window_size_flag()
}

/// `acc` with the value of `flag` set to `value`.
pub open spec fn apply_flag(acc: CliArgsView, flag: Seq<char>, value: Seq<char>) -> CliArgsView {
    if flag == data_dir_flag() {
        CliArgsView { data_dir: Some(value), ..acc }
    } else if flag == profile_dir_flag() {
        CliArgsView { profile_dir: Some(value), ..acc }
    } else {
        CliArgsView { window_size: size_of_text(value), ..acc }
    }
}

/// The arguments from position `i` on, applied to `acc` left to right. A value-taking
/// flag without `=value` takes the next argument unless that one starts with `--`.
pub open spec fn parse_from(args: Seq<Seq<char>>, i: int, acc: CliArgsView) -> CliArgsView
    decreases args.len() - i,
{
    if i < 0 || i >= args.len() {
        acc
    } else if args[i] == offscreen_flag() {
        parse_from(args, i + 1, CliArgsView { offscreen: true, ..acc })
    } else {
        let (flag, inline) = flag_and_inline(args[i]);
        if !takes_value(flag) {
            parse_from(args, i + 1, acc)
        } else {
            match inline {
                Some(v) => parse_from(args, i + 1, apply_flag(acc, flag, v)),
                None => if i + 1 < args.len() && !starts_with_dashes(args[i + 1]) {
                    parse_from(args, i + 2, apply_flag(acc, flag, args[i + 1]))
                } else {
                    parse_from(args, i + 1, acc)
                },
            }
        }
    }
}

/// The views of a list of strings.
pub open spec fn views(v: Seq<String>) -> Seq<Seq<char>> {
    v.map_values(|s: String| s@)
}

fn same_chars(v: &Vec<char>, lit: &[char]) -> (r: bool)
    ensures
        r == (v@ == lit@),
{
    if v.len() != lit.len() {
        return false;
    }
    let mut i: usize = 0;
    while i < v.len()
        invariant
            v@.len() == lit@.len(),
            i <= v@.len(),
            forall|j: int| 0 <= j < i ==> v@[j] == lit@[j],
        decreases v@.len() - i,
    {
        if v[i] != lit[i] {
            return false;
        }
        i = i + 1;
    }
    assert(v@ =~= lit@);
    true
}

fn has_dash_prefix(s: &str) -> (r: bool)
    ensures
        r == starts_with_dashes(s@),
{
    let c = chars_of(s);
    c.len() >= 2 && c[0] == '-' && c[1] == '-'
}

/// Which value-taking flag `flag` is: 1 data dir, 2 profile dir, 3 window size, 0 none.
fn flag_kind(flag: &Vec<char>) -> (r: u8)
    ensures
        r == 1 <==> flag@ == data_dir_flag(),
        r == 2 <==> flag@ == profile_dir_flag(),
        r == 3 <==> flag@ == window_size_flag(),
        r == 0 <==> !takes_value(flag@),
{
    let data_dir = ['-', '-', 'd', 'a', 't', 'a', '-', 'd', 'i', 'r'];
    let profile_dir = ['-', '-', 'p', 'r', 'o', 'f', 'i', 'l', 'e', '-', 'd', 'i', 'r'];
    let window_size = ['-', '-', 'w', 'i', 'n', 'd', 'o', 'w', '-', 's', 'i', 'z', 'e'];
    proof {
        assert(data_dir@ == data_dir_flag());
        assert(profile_dir@ == profile_dir_flag());
        assert(window_size@ == window_size_flag());
        assert(data_dir_flag() != profile_dir_flag());
        assert(data_dir_flag().len() != window_size_flag().len());
        assert(profile_dir_flag()[2] != window_size_flag()[2]);
    }
    if same_chars(flag, data_dir.as_slice()) {
        1
    } else if same_chars(flag, profile_dir.as_slice()) {
        2
    } else if same_chars(flag, window_size.as_slice()) {
        3
    } else {
        0
    }
}

fn is_offscreen(chars: &Vec<char>) -> (r: bool)
    ensures
        r == (chars@ == offscreen_flag()),
{
    let offscreen = ['-', '-', 'o', 'f', 'f', 's', 'c', 'r', 'e', 'e', 'n'];
    proof {
        assert(offscreen@ == offscreen_flag());
    }
    same_chars(chars, offscreen.as_slice())
}

/// Position of the first `=` in `chars`, or its length when there is none.
fn find_eq(chars: &Vec<char>) -> (r: usize)
    ensures
        r <= chars@.len(),
        r < chars@.len() ==> first_eq(chars@) == Some(r as int),
        r == chars@.len() ==> first_eq(chars@) is None,
{
    let mut eq: usize = 0;
    while eq < chars.len() && chars[eq] != '='
        invariant
            eq <= chars@.len(),
            forall|j: int| 0 <= j < eq ==> #[trigger] chars@[j] != '=',
        decreases chars@.len() - eq,
    {
        eq = eq + 1;
    }
    proof {
        if eq < chars@.len() {
            assert(0 <= eq < chars@.len() && chars@[eq as int] == '=');
            let k = choose|k: int| 0 <= k < chars@.len() && chars@[k] == '=' && forall|j: int| 0 <= j < k ==> #[trigger] chars@[j] != '=';
            if k < eq {
                assert(chars@[k] != '=');
            } else if k > eq {
                assert(chars@[eq as int] != '=');
            }
        } else {
            assert(!exists|j: int| 0 <= j < chars@.len() && #[trigger] chars@[j] == '=');
        }
    }
    eq
}

/// Applies the argument at `i` (and the value it takes, if any) to `out`; returns the
/// position of the next unread argument.
fn parse_step(argv: &Vec<String>, i: usize, out: &mut CliArgs) -> (next: usize)
    requires
        i < argv@.len(),
    ensures
        i < next <= argv@.len(),
        parse_from(views(argv@), i as int, old(out)@) == parse_from(views(argv@), next as int, final(out)@),
{
    let ghost args = views(argv@);
    let n = argv.len();
    let arg = argv[i].as_str();
    proof {
        assert(args[i as int] == arg@);
    }
    let chars = chars_of(arg);
    if is_offscreen(&chars) {
        out.offscreen = true;
        return i + 1;
    }
    let eq = find_eq(&chars);
    let flag_chars: Vec<char> = chars_prefix(&chars, eq);
    proof {
        if eq == chars@.len() {
            assert(flag_chars@ =~= chars@);
        }
        assert(flag_and_inline(arg@).0 == flag_chars@);
    }
    let kind = flag_kind(&flag_chars);
    if kind == 0 {
        return i + 1;
    }
    let value: Option<String>;
    let next: usize;
    if eq < chars.len() {
        value = Some(String::from_str(arg.substring_char(eq + 1, chars.len())));
        next = i + 1;
    } else if i + 1 < argv.len() && !has_dash_prefix(argv[i + 1].as_str()) {
        proof {
            assert(args[i + 1] == argv@[i + 1]@);
        }
        value = Some(argv[i + 1].clone());
        next = i + 2;
    } else {
        value = None;
        next = i + 1;
    }
    match value {
        None => {},
        Some(v) => {
            if kind == 1 {
                out.data_dir = Some(v);
            } else if kind == 2 {
                out.profile_dir = Some(v);
            } else {
                out.window_size = parse_size(v.as_str());
            }
        },
    }
    next
}

/// Parses the startup arguments (without the program name).
pub fn parse(argv: Vec<String>) -> (r: CliArgs)
    ensures
        r@ == parse_from(views(argv@), 0, no_args()),
{
    let mut out = CliArgs::default();
    let mut i: usize = 0;
    while i < argv.len()
        invariant
            i <= argv@.len(),
            parse_from(views(argv@), i as int, out@) == parse_from(views(argv@), 0, no_args()),
        decreases argv@.len() - i,
    {
        i = parse_step(&argv, i, &mut out);
    }
    out
}

/// The first `n` characters of `v`.
fn chars_prefix(v: &Vec<char>, n: usize) -> (r: Vec<char>)
    requires
        n <= v@.len(),
    ensures
        r@ == v@.subrange(0, n as int),
{
    let mut out: Vec<char> = Vec::new();
    let mut i: usize = 0;
    while i < n
        invariant
            n <= v@.len(),
            i <= n,
            out@ == v@.subrange(0, i as int),
        decreases n - i,
    {
        out.push(v[i]);
        i = i + 1;
        assert(out@ =~= v@.subrange(0, i as int));
    }
    out
}

} // verus!
