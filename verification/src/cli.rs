//! The command-line front end's logic: arguments to options, and progress
//! lines to actions.
//!
//! Arguments are taken one at a time by [`ArgParser::step`], which says what
//! the argument asked for; the program that owns the process acts on it.
//! Progress arrives on standard input one token per line, and
//! [`read_token`] says what each line means.

use crate::chars::{is_whitespace, spec_is_whitespace};
use crate::easing::Easing;
use crate::ordering::StartHint;
use crate::render::ColorDepth;
use crate::text::{chars_of, push_char, push_chars};
use vstd::prelude::*;
use vstd::string::*;

verus! {

// ---------------------------------------------------------------------------
// Character-sequence helpers
// ---------------------------------------------------------------------------

/// `p` is a prefix of `s`.
pub open spec fn is_prefix(p: Seq<char>, s: Seq<char>) -> bool {
    p.len() <= s.len() && s.subrange(0, p.len() as int) == p
}

pub(crate) fn eq_lit(a: &Vec<char>, lit: &str) -> (b: bool)
    ensures
        b == (a@ == lit@),
{
    let t = chars_of(lit);
    if t.len() != a.len() {
        return false;
    }
    let mut i: usize = 0;
    while i < t.len()
        invariant
            t.len() == a.len(),
            t@ == lit@,
            i <= t.len(),
            forall|k: int| 0 <= k < i ==> a@[k] == t@[k],
        decreases t.len() - i,
    {
        if a[i] != t[i] {
            return false;
        }
        i += 1;
    }
    proof {
        assert(a@ =~= t@);
    }
    true
}

fn has_prefix(a: &Vec<char>, lit: &str) -> (b: bool)
    ensures
        b == is_prefix(lit@, a@),
{
    let t = chars_of(lit);
    if t.len() > a.len() {
        return false;
    }
    let mut i: usize = 0;
    while i < t.len()
        invariant
            t.len() <= a.len(),
            t@ == lit@,
            i <= t.len(),
            forall|k: int| 0 <= k < i ==> a@[k] == t@[k],
        decreases t.len() - i,
    {
        if a[i] != t[i] {
            proof {
                assert(a@.subrange(0, t.len() as int)[i as int] != t@[i as int]);
            }
            return false;
        }
        i += 1;
    }
    proof {
        assert(a@.subrange(0, t.len() as int) =~= t@);
    }
    true
}

/// The characters of `a` from `from` on, as a string.
fn string_from(a: &Vec<char>, from: usize) -> (s: String)
    requires
        from <= a.len(),
    ensures
        s@ == a@.subrange(from as int, a.len() as int),
{
    let mut s = String::new();
    let mut i = from;
    while i < a.len()
        invariant
            from <= i <= a.len(),
            s@ == a@.subrange(from as int, i as int),
        decreases a.len() - i,
    {
        push_char(&mut s, a[i]);
        proof {
            assert(a@.subrange(from as int, i + 1) =~= a@.subrange(from as int, i as int).push(a@[i as int]));
        }
        i += 1;
    }
    s
}

/// A string holding `a`, then `b`, then `c`.
fn concat3(a: &str, b: &str, c: &str) -> (s: String)
    ensures
        s@ == a@ + b@ + c@,
{
    let mut s = String::from_str(a);
    s.append(b);
    s.append(c);
    s
}


// ---------------------------------------------------------------------------
// Numbers
// ---------------------------------------------------------------------------

/// `c` is an ASCII decimal digit.
pub open spec fn is_digit(c: char) -> bool {
    '0' <= c <= '9'
}

/// The value of a run of decimal digits.
pub open spec fn digits_value(s: Seq<char>) -> nat
    decreases s.len(),
{
    if s.len() == 0 {
        0
    } else {
        digits_value(s.drop_last()) * 10 + (s.last() as nat - 48) as nat
    }
}

/// The digits of an unsigned numeral: everything after one optional `+`.
pub open spec fn unsigned_digits(s: Seq<char>) -> Seq<char> {
    if s.len() > 0 && s[0] == '+' {
        s.drop_first()
    } else {
        s
    }
}

/// Every character of `d` is a decimal digit.
pub open spec fn all_digits(d: Seq<char>) -> bool {
    forall|i: int| 0 <= i < d.len() ==> is_digit(#[trigger] d[i])
}

/// What Rust's unsigned-integer `from_str` accepts: an optional `+`, then
/// one or more decimal digits whose value is at most `max`.
pub open spec fn parse_unsigned(s: Seq<char>, max: nat) -> Option<nat> {
    let d = unsigned_digits(s);
    if d.len() > 0 && all_digits(d) && digits_value(d) <= max {
        Some(digits_value(d))
    } else {
        None
    }
}

proof fn lemma_digits_prefix(d: Seq<char>, i: int)
    requires
        0 <= i < d.len(),
    ensures
        digits_value(d.take(i + 1)) == digits_value(d.take(i)) * 10 + (d[i] as nat - 48) as nat,
{
    assert(d.take(i + 1).drop_last() =~= d.take(i));
}

proof fn lemma_digits_grow(d: Seq<char>, i: int, j: int)
    requires
        0 <= i <= j <= d.len(),
        forall|k: int| 0 <= k < d.len() ==> is_digit(#[trigger] d[k]),
    ensures
        digits_value(d.take(i)) <= digits_value(d.take(j)),
    decreases j - i,
{
    if i < j {
        lemma_digits_grow(d, i, j - 1);
        lemma_digits_prefix(d, j - 1);
    }
}

/// Parse an unsigned decimal no greater than `max`, as Rust's unsigned
/// `from_str` does.
fn parse_bounded(s: &Vec<char>, max: u64) -> (r: Option<u64>)
    requires
        max >= 9,
    ensures
        match parse_unsigned(s@, max as nat) {
            Some(v) => r == Some(v as u64),
            None => r is None,
        },
{
    let start: usize = if s.len() > 0 && s[0] == '+' {
        1
    } else {
        0
    };
    let ghost d = unsigned_digits(s@);
    proof {
        assert(d =~= s@.subrange(start as int, s.len() as int));
    }
    if start >= s.len() {
        return None;
    }
    let mut v: u64 = 0;
    let mut i = start;
    while i < s.len()
        invariant
            max >= 9,
            start <= i <= s.len(),
            d == s@.subrange(start as int, s.len() as int),
            d == unsigned_digits(s@),
            v as nat == digits_value(d.take(i - start)),
            v <= max,
            forall|k: int| 0 <= k < i - start ==> is_digit(#[trigger] d[k]),
        decreases s.len() - i,
    {
        let c = s[i];
        proof {
            assert(d[i - start] == c);
            lemma_digits_prefix(d, i - start);
        }
        if !('0' <= c && c <= '9') {
            proof {
                assert(!is_digit(d[i - start]));
                assert(!all_digits(d));
            }
            return None;
        }
        let digit = (c as u32 - 48) as u64;
        if v > (max - digit) / 10 {
            proof {
                assert(v * 10 + digit > max) by (nonlinear_arith)
                    requires
                        v > (max - digit) / 10,
                        digit <= max,
                        v >= 0,
                ;
                if all_digits(d) {
                    lemma_digits_grow(d, i - start + 1, d.len() as int);
                    assert(d.take(d.len() as int) =~= d);
                }
            }
            return None;
        }
        proof {
            assert(v * 10 + digit <= max) by (nonlinear_arith)
                requires
                    v <= (max - digit) / 10,
                    digit <= max,
            ;
        }
        v = v * 10 + digit;
        i += 1;
    }
    proof {
        assert(d.take(d.len() as int) =~= d);
    }
    Some(v)
}

/// Parse a `u64` as Rust's `u64::from_str` does.
pub fn parse_u64(s: &str) -> (r: Option<u64>)
    ensures
        match parse_unsigned(s@, u64::MAX as nat) {
            Some(v) => r == Some(v as u64),
            None => r is None,
        },
{
    parse_bounded(&chars_of(s), u64::MAX)
}

/// Parse a `u16` as Rust's `u16::from_str` does.
pub fn parse_u16(s: &str) -> (r: Option<u16>)
    ensures
        match parse_unsigned(s@, u16::MAX as nat) {
            Some(v) => r == Some(v as u16),
            None => r is None,
        },
{
    match parse_bounded(&chars_of(s), 65535) {
        Some(v) => Some(v as u16),
        None => None,
    }
}

// ---------------------------------------------------------------------------
// Colours written as hex
// ---------------------------------------------------------------------------

/// `s` without one leading `#`.
pub open spec fn strip_hash(s: Seq<char>) -> Seq<char> {
    if s.len() > 0 && s[0] == '#' {
        s.drop_first()
    } else {
        s
    }
}

/// The value of a hexadecimal digit.
pub open spec fn hex_digit(c: char) -> Option<nat> {
    if '0' <= c <= '9' {
        Some((c as nat - 48) as nat)
    } else if 'a' <= c <= 'f' {
        Some((c as nat - 87) as nat)
    } else if 'A' <= c <= 'F' {
        Some((c as nat - 55) as nat)
    } else {
        None
    }
}

/// The value of two hexadecimal digits, high digit first.
pub open spec fn hex_pair(a: char, b: char) -> Option<nat> {
    match (hex_digit(a), hex_digit(b)) {
        (Some(x), Some(y)) => Some(x * 16 + y),
        _ => None,
    }
}

/// The colour `rrggbb` (with or without a leading `#`) names.
pub open spec fn hex_rgb(value: Seq<char>) -> Option<(u8, u8, u8)> {
    let h = strip_hash(value);
    if h.len() == 6 && hex_pair(h[0], h[1]) is Some && hex_pair(h[2], h[3]) is Some && hex_pair(h[4], h[5]) is Some {
        Some(
            (
                hex_pair(h[0], h[1])->0 as u8,
                hex_pair(h[2], h[3])->0 as u8,
                hex_pair(h[4], h[5])->0 as u8,
            ),
        )
    } else {
        None
    }
}

/// The complaint about a colour value that does not parse.
pub open spec fn hex_msg(flag: Seq<char>, value: Seq<char>) -> Seq<char> {
    flag + " needs a colour like ffe28a, got '"@ + value + "'"@
}

fn hex_digit_of(c: char) -> (d: Option<u8>)
    ensures
        match hex_digit(c) {
            Some(v) => d == Some(v as u8),
            None => d is None,
        },
{
    if '0' <= c && c <= '9' {
        Some((c as u32 - 48) as u8)
    } else if 'a' <= c && c <= 'f' {
        Some((c as u32 - 87) as u8)
    } else if 'A' <= c && c <= 'F' {
        Some((c as u32 - 55) as u8)
    } else {
        None
    }
}

fn hex_pair_of(a: char, b: char) -> (d: Option<u8>)
    ensures
        match hex_pair(a, b) {
            Some(v) => d == Some(v as u8),
            None => d is None,
        },
{
    match (hex_digit_of(a), hex_digit_of(b)) {
        (Some(x), Some(y)) => Some(x * 16 + y),
        _ => None,
    }
}

/// `value` without a leading `#`, as characters.
fn strip_hash_of(value: &Vec<char>) -> (h: Vec<char>)
    ensures
        h@ == strip_hash(value@),
{
    let from: usize = if value.len() > 0 && value[0] == '#' {
        1
    } else {
        0
    };
    let mut h: Vec<char> = Vec::new();
    let mut i = from;
    while i < value.len()
        invariant
            from <= i <= value.len(),
            h@ == value@.subrange(from as int, i as int),
        decreases value.len() - i,
    {
        h.push(value[i]);
        proof {
            assert(value@.subrange(from as int, i + 1) =~= value@.subrange(from as int, i as int).push(value@[i as int]));
        }
        i += 1;
    }
    proof {
        assert(strip_hash(value@) =~= value@.subrange(from as int, value.len() as int));
    }
    h
}

/// Parse `rrggbb`, with or without a leading `#`: exactly six hex digits.
/// `flag` names the option in the complaint when the value is anything else.
pub fn parse_hex(value: &str, flag: &str) -> (r: Result<(u8, u8, u8), String>)
    ensures
        match hex_rgb(value@) {
            Some(c) => r == Ok::<(u8, u8, u8), String>(c),
            None => r is Err && r->Err_0@ == hex_msg(flag@, value@),
        },
{
    let v = chars_of(value);
    let h = strip_hash_of(&v);
    let mut bad = concat3(flag, " needs a colour like ffe28a, got '", value);
    bad.append("'");
    proof {
        assert(bad@ =~= hex_msg(flag@, value@));
    }
    if h.len() != 6 {
        return Err(bad);
    }
    match (hex_pair_of(h[0], h[1]), hex_pair_of(h[2], h[3]), hex_pair_of(h[4], h[5])) {
        (Some(r), Some(g), Some(b)) => Ok((r, g, b)),
        _ => Err(bad),
    }
}

// ---------------------------------------------------------------------------
// Arguments
// ---------------------------------------------------------------------------

/// Which reveal the command line asked for.
#[derive(Clone, Copy, Debug, PartialEq, Eq, Structural)]
pub enum OrderingChoice {
    /// The directional wipe in its automatic direction.
    Auto,
    Geodesic,
    Scanline,
    Reading,
    Ltr,
    Rtl,
}

/// The colour depth the command line asked for.
#[derive(Clone, Copy, Debug, PartialEq, Eq, Structural)]
pub enum DepthChoice {
    /// Whatever the terminal advertises.
    Detect,
    /// Exactly this depth.
    Fixed(ColorDepth),
}

/// Every option the command line can set, resolved before anything is built
/// so a bad flag fails before the terminal has been touched.
pub struct Options {
    pub total: Option<u64>,
    pub art: Option<String>,
    pub message: String,
    pub ordering: OrderingChoice,
    pub easing: Easing,
    pub start: StartHint,
    pub bridge: u16,
    /// `--rainbow` was given.
    pub rainbow: bool,
    /// `--light` was given.
    pub light: bool,
    pub depth: Option<DepthChoice>,
    pub head: Option<(u8, u8, u8)>,
    pub body: Option<(u8, u8, u8)>,
}

/// [`Options`] with its strings as character sequences.
pub struct OptionsView {
    pub total: Option<u64>,
    pub art: Option<Seq<char>>,
    pub message: Seq<char>,
    pub ordering: OrderingChoice,
    pub easing: Easing,
    pub start: StartHint,
    pub bridge: u16,
    pub rainbow: bool,
    pub light: bool,
    pub depth: Option<DepthChoice>,
    pub head: Option<(u8, u8, u8)>,
    pub body: Option<(u8, u8, u8)>,
}

impl View for Options {
    type V = OptionsView;

    open spec fn view(&self) -> OptionsView {
        OptionsView {
            total: self.total,
            art: match self.art {
                Some(s) => Some(s@),
                None => None,
            },
            message: self.message@,
            ordering: self.ordering,
            easing: self.easing,
            start: self.start,
            bridge: self.bridge,
            rainbow: self.rainbow,
            light: self.light,
            depth: self.depth,
            head: self.head,
            body: self.body,
        }
    }
}

/// The options before any argument: a determinate total only if given, the
/// built-in art, no caption, the automatic wipe, linear easing, the
/// top-left tip, one-cell bridging, and the default style.
pub open spec fn default_options() -> OptionsView {
    OptionsView {
        total: None,
        art: None,
        message: Seq::empty(),
        ordering: OrderingChoice::Auto,
        easing: Easing::Linear,
        start: StartHint::TopLeft,
        bridge: 1,
        rainbow: false,
        light: false,
        depth: None,
        head: None,
        body: None,
    }
}

/// A flag that takes no value.
#[derive(Clone, Copy, Debug, PartialEq, Eq, Structural)]
pub enum Flag {
    Rainbow,
    Light,
    NoColor,
    Geodesic,
    Scanline,
    Reading,
    Ltr,
    Rtl,
}

/// An option that takes a value.
#[derive(Clone, Copy, Debug, PartialEq, Eq, Structural)]
pub enum Valued {
    Total,
    Art,
    Message,
    Start,
    Bridge,
    Easing,
    Color,
    Head,
    Body,
    Feather,
}

/// What one argument is.
#[derive(Clone, Copy, Debug, PartialEq, Eq, Structural)]
pub enum ArgKind {
    Help,
    Version,
    Flag(Flag),
    Valued(Valued),
    Unknown,
}

/// The long name of a valued option.
pub open spec fn long_name(o: Valued) -> Seq<char> {
    match o {
        Valued::Total => "--total"@,
        Valued::Art => "--art"@,
        Valued::Message => "--message"@,
        Valued::Start => "--start"@,
        Valued::Bridge => "--bridge"@,
        Valued::Easing => "--easing"@,
        Valued::Color => "--color"@,
        Valued::Head => "--head"@,
        Valued::Body => "--body"@,
        Valued::Feather => "--feather"@,
    }
}

/// The long name followed by `=`, which introduces an inline value.
pub open spec fn inline_prefix(o: Valued) -> Seq<char> {
    match o {
        Valued::Total => "--total="@,
        Valued::Art => "--art="@,
        Valued::Message => "--message="@,
        Valued::Start => "--start="@,
        Valued::Bridge => "--bridge="@,
        Valued::Easing => "--easing="@,
        Valued::Color => "--color="@,
        Valued::Head => "--head="@,
        Valued::Body => "--body="@,
        Valued::Feather => "--feather="@,
    }
}

/// The short name of a valued option, where it has one.
pub open spec fn short_name(o: Valued) -> Option<Seq<char>> {
    match o {
        Valued::Total => Some("-t"@),
        Valued::Art => Some("-a"@),
        Valued::Message => Some("-m"@),
        _ => None,
    }
}

/// Argument `a` names valued option `o`: exactly its long or short name, or
/// its long name with an inline `=value`. A longer word (`--totally`) does
/// not.
pub open spec fn names(a: Seq<char>, o: Valued) -> bool {
    a == long_name(o) || short_name(o) == Some(a) || is_prefix(inline_prefix(o), a)
}

/// What argument `a` is. Exact flags are recognised first, then the valued
/// options in a fixed order.
pub open spec fn arg_kind(a: Seq<char>) -> ArgKind {
    if a == "-h"@ || a == "--help"@ {
        ArgKind::Help
    } else if a == "-V"@ || a == "--version"@ {
        ArgKind::Version
    } else if a == "--rainbow"@ {
        ArgKind::Flag(Flag::Rainbow)
    } else if a == "--light"@ {
        ArgKind::Flag(Flag::Light)
    } else if a == "--no-color"@ {
        ArgKind::Flag(Flag::NoColor)
    } else if a == "--geodesic"@ {
        ArgKind::Flag(Flag::Geodesic)
    } else if a == "--scanline"@ {
        ArgKind::Flag(Flag::Scanline)
    } else if a == "--reading"@ {
        ArgKind::Flag(Flag::Reading)
    } else if a == "--ltr"@ {
        ArgKind::Flag(Flag::Ltr)
    } else if a == "--rtl"@ {
        ArgKind::Flag(Flag::Rtl)
    } else if names(a, Valued::Total) {
        ArgKind::Valued(Valued::Total)
    } else if names(a, Valued::Art) {
        ArgKind::Valued(Valued::Art)
    } else if names(a, Valued::Message) {
        ArgKind::Valued(Valued::Message)
    } else if names(a, Valued::Start) {
        ArgKind::Valued(Valued::Start)
    } else if names(a, Valued::Bridge) {
        ArgKind::Valued(Valued::Bridge)
    } else if names(a, Valued::Easing) {
        ArgKind::Valued(Valued::Easing)
    } else if names(a, Valued::Color) {
        ArgKind::Valued(Valued::Color)
    } else if names(a, Valued::Head) {
        ArgKind::Valued(Valued::Head)
    } else if names(a, Valued::Body) {
        ArgKind::Valued(Valued::Body)
    } else if names(a, Valued::Feather) {
        ArgKind::Valued(Valued::Feather)
    } else {
        ArgKind::Unknown
    }
}

/// The options after flag `f`.
pub open spec fn with_flag(o: OptionsView, f: Flag) -> OptionsView {
    match f {
        Flag::Rainbow => OptionsView { rainbow: true, ..o },
        Flag::Light => OptionsView { light: true, ..o },
        Flag::NoColor => OptionsView { depth: Some(DepthChoice::Fixed(ColorDepth::Mono)), ..o },
        Flag::Geodesic => OptionsView { ordering: OrderingChoice::Geodesic, ..o },
        Flag::Scanline => OptionsView { ordering: OrderingChoice::Scanline, ..o },
        Flag::Reading => OptionsView { ordering: OrderingChoice::Reading, ..o },
        Flag::Ltr => OptionsView { ordering: OrderingChoice::Ltr, ..o },
        Flag::Rtl => OptionsView { ordering: OrderingChoice::Rtl, ..o },
    }
}

/// The value of valued option `o` at argument `i`, and the index of the
/// last argument it used: the text after `=` in the same argument, or else
/// the next argument.
pub open spec fn opt_value(args: Seq<Seq<char>>, i: int, o: Valued) -> Option<(Seq<char>, int)> {
    let a = args[i];
    if is_prefix(inline_prefix(o), a) {
        Some((a.subrange(inline_prefix(o).len() as int, a.len() as int), i))
    } else if i + 1 < args.len() {
        Some((args[i + 1], i + 1))
    } else {
        None
    }
}

/// What giving valued option `o` the value `v` does.
pub enum Applied {
    /// The options become these.
    Update(OptionsView),
    /// The glow width, which the caller parses as a number.
    Feather,
    /// A usage error with this message.
    Bad(Seq<char>),
}

/// The complaint about a value that is not a whole number.
pub open spec fn number_msg(flag: Seq<char>, v: Seq<char>) -> Seq<char> {
    flag + " needs a whole number, got '"@ + v + "'"@
}

/// How many colours a depth can show.
pub open spec fn colour_count(d: ColorDepth) -> nat {
    match d {
        ColorDepth::Mono => 1,
        ColorDepth::Ansi16 => 16,
        ColorDepth::Ansi256 => 256,
        ColorDepth::TrueColor => 16777216,
    }
}

/// A `--color` value written as a number names how many colours to use: when
/// such a value is accepted, the depth it fixes shows exactly that many
/// colours, and the documented numbers `256` and `16` are accepted.
pub proof fn lemma_color_by_number(o: OptionsView, v: Seq<char>)
    requires
        v.len() > 0,
        all_digits(v),
    ensures
        apply_value(o, Valued::Color, v) matches Applied::Update(p) ==> p.depth matches Some(
            DepthChoice::Fixed(d),
        ) && colour_count(d) == digits_value(v),
        (v == "256"@ || v == "16"@) ==> apply_value(o, Valued::Color, v) is Update,
{
    reveal_strlit("auto");
    reveal_strlit("truecolor");
    reveal_strlit("24bit");
    reveal_strlit("256");
    reveal_strlit("16");
    reveal_strlit("none");
    reveal_strlit("mono");
    assert(is_digit(v[0]));
    assert(v != "auto"@);
    assert(v != "truecolor"@);
    assert(v != "none"@);
    assert(v != "mono"@);
    if v == "24bit"@ {
        assert(is_digit(v[2]));
    }
    if v == "256"@ {
        let d = v;
        let e = d.drop_last().drop_last();
        assert(e.drop_last() =~= Seq::<char>::empty());
        assert(digits_value(e.drop_last()) == 0);
        assert(e.last() == '2');
        assert(digits_value(e) == 2);
        assert(digits_value(d.drop_last()) == 25);
        assert(digits_value(d) == 256);
    }
    if v == "16"@ {
        let d = v;
        let e = d.drop_last();
        assert(e.drop_last() =~= Seq::<char>::empty());
        assert(digits_value(e.drop_last()) == 0);
        assert(e.last() == '1');
        assert(digits_value(e) == 1);
        assert(digits_value(d) == 16);
    }
}

pub open spec fn apply_value(o: OptionsView, opt: Valued, v: Seq<char>) -> Applied {
    match opt {
        Valued::Total => match parse_unsigned(v, u64::MAX as nat) {
            Some(n) => Applied::Update(OptionsView { total: Some(n as u64), ..o }),
            None => Applied::Bad(number_msg("--total"@, v)),
        },
        Valued::Art => Applied::Update(OptionsView { art: Some(v), ..o }),
        Valued::Message => Applied::Update(OptionsView { message: v, ..o }),
        Valued::Start => if v == "top-left"@ || v == "topleft"@ {
            Applied::Update(OptionsView { start: StartHint::TopLeft, ..o })
        } else if v == "bottom"@ {
            Applied::Update(OptionsView { start: StartHint::Bottom, ..o })
        } else if v == "topological"@ {
            Applied::Update(OptionsView { start: StartHint::Topological, ..o })
        } else {
            Applied::Bad("unknown --start '"@ + v + "' (top-left, bottom, topological)"@)
        },
        Valued::Bridge => match parse_unsigned(v, u16::MAX as nat) {
            Some(n) => Applied::Update(OptionsView { bridge: n as u16, ..o }),
            None => Applied::Bad(number_msg("--bridge"@, v)),
        },
        Valued::Easing => if v == "linear"@ {
            Applied::Update(OptionsView { easing: Easing::Linear, ..o })
        } else if v == "ease-out-cubic"@ {
            Applied::Update(OptionsView { easing: Easing::EaseOutCubic, ..o })
        } else if v == "ease-out-quint"@ {
            Applied::Update(OptionsView { easing: Easing::EaseOutQuint, ..o })
        } else if v == "ease-in-out-cubic"@ {
            Applied::Update(OptionsView { easing: Easing::EaseInOutCubic, ..o })
        } else {
            Applied::Bad(
                "unknown --easing '"@ + v + "' (linear, ease-out-cubic, ease-out-quint, ease-in-out-cubic)"@,
            )
        },
        Valued::Color => if v == "auto"@ {
            Applied::Update(OptionsView { depth: Some(DepthChoice::Detect), ..o })
        } else if v == "truecolor"@ || v == "24bit"@ {
            Applied::Update(OptionsView { depth: Some(DepthChoice::Fixed(ColorDepth::TrueColor)), ..o })
        } else if v == "256"@ {
            Applied::Update(OptionsView { depth: Some(DepthChoice::Fixed(ColorDepth::Ansi256)), ..o })
        } else if v == "16"@ {
            Applied::Update(OptionsView { depth: Some(DepthChoice::Fixed(ColorDepth::Ansi16)), ..o })
        } else if v == "none"@ || v == "mono"@ {
            Applied::Update(OptionsView { depth: Some(DepthChoice::Fixed(ColorDepth::Mono)), ..o })
        } else {
            Applied::Bad("unknown --color '"@ + v + "' (auto, truecolor, 256, 16, none)"@)
        },
        Valued::Head => match hex_rgb(v) {
            Some(c) => Applied::Update(OptionsView { head: Some(c), ..o }),
            None => Applied::Bad(hex_msg("--head"@, v)),
        },
        Valued::Body => match hex_rgb(v) {
            Some(c) => Applied::Update(OptionsView { body: Some(c), ..o }),
            None => Applied::Bad(hex_msg("--body"@, v)),
        },
        Valued::Feather => Applied::Feather,
    }
}

/// What one step of argument parsing reports.
pub enum Step {
    /// The argument was taken; go on to the next.
    Next,
    /// Every argument has been taken.
    Done,
    /// `--help` was asked for.
    Help,
    /// `--version` was asked for.
    Version,
    /// `--feather` was given this value, for the caller to parse as a number
    /// in `0..=1`; parsing then goes on.
    Feather(String),
    /// The command line did not make sense.
    Usage(String),
}

/// [`Step`] with its strings as character sequences.
pub enum StepView {
    Next,
    Done,
    Help,
    Version,
    Feather(Seq<char>),
    Usage(Seq<char>),
}

impl View for Step {
    type V = StepView;

    open spec fn view(&self) -> StepView {
        match self {
            Step::Next => StepView::Next,
            Step::Done => StepView::Done,
            Step::Help => StepView::Help,
            Step::Version => StepView::Version,
            Step::Feather(s) => StepView::Feather(s@),
            Step::Usage(s) => StepView::Usage(s@),
        }
    }
}

/// One step of argument parsing from position `pos` with options `o`: what
/// it reports, the position after it, and the options after it.
pub open spec fn parse_step(args: Seq<Seq<char>>, pos: int, o: OptionsView) -> (StepView, int, OptionsView) {
    if pos >= args.len() {
        (StepView::Done, pos, o)
    } else {
        let a = args[pos];
        match arg_kind(a) {
            ArgKind::Help => (StepView::Help, pos, o),
            ArgKind::Version => (StepView::Version, pos, o),
            ArgKind::Flag(f) => (StepView::Next, pos + 1, with_flag(o, f)),
            ArgKind::Unknown => (StepView::Usage("unknown argument '"@ + a + "'"@), pos, o),
            ArgKind::Valued(opt) => match opt_value(args, pos, opt) {
                None => (StepView::Usage("'"@ + long_name(opt) + "' needs a value"@), pos, o),
                Some((v, last)) => match apply_value(o, opt, v) {
                    Applied::Update(o2) => (StepView::Next, last + 1, o2),
                    Applied::Feather => (StepView::Feather(v), last + 1, o),
                    Applied::Bad(msg) => (StepView::Usage(msg), pos, o),
                },
            },
        }
    }
}

/// The arguments as character sequences.
pub open spec fn arg_views(args: Seq<String>) -> Seq<Seq<char>> {
    args.map_values(|s: String| s@)
}

fn long_lit(o: Valued) -> (s: &'static str)
    ensures
        s@ == long_name(o),
{
    match o {
        Valued::Total => "--total",
        Valued::Art => "--art",
        Valued::Message => "--message",
        Valued::Start => "--start",
        Valued::Bridge => "--bridge",
        Valued::Easing => "--easing",
        Valued::Color => "--color",
        Valued::Head => "--head",
        Valued::Body => "--body",
        Valued::Feather => "--feather",
    }
}

fn prefix_lit(o: Valued) -> (s: &'static str)
    ensures
        s@ == inline_prefix(o),
{
    match o {
        Valued::Total => "--total=",
        Valued::Art => "--art=",
        Valued::Message => "--message=",
        Valued::Start => "--start=",
        Valued::Bridge => "--bridge=",
        Valued::Easing => "--easing=",
        Valued::Color => "--color=",
        Valued::Head => "--head=",
        Valued::Body => "--body=",
        Valued::Feather => "--feather=",
    }
}

fn names_opt(a: &Vec<char>, o: Valued) -> (b: bool)
    ensures
        b == names(a@, o),
{
    let short = match o {
        Valued::Total => eq_lit(a, "-t"),
        Valued::Art => eq_lit(a, "-a"),
        Valued::Message => eq_lit(a, "-m"),
        _ => false,
    };
    eq_lit(a, long_lit(o)) || short || has_prefix(a, prefix_lit(o))
}

fn kind_of(a: &Vec<char>) -> (k: ArgKind)
    ensures
        k == arg_kind(a@),
{
    if eq_lit(a, "-h") || eq_lit(a, "--help") {
        ArgKind::Help
    } else if eq_lit(a, "-V") || eq_lit(a, "--version") {
        ArgKind::Version
    } else if eq_lit(a, "--rainbow") {
        ArgKind::Flag(Flag::Rainbow)
    } else if eq_lit(a, "--light") {
        ArgKind::Flag(Flag::Light)
    } else if eq_lit(a, "--no-color") {
        ArgKind::Flag(Flag::NoColor)
    } else if eq_lit(a, "--geodesic") {
        ArgKind::Flag(Flag::Geodesic)
    } else if eq_lit(a, "--scanline") {
        ArgKind::Flag(Flag::Scanline)
    } else if eq_lit(a, "--reading") {
        ArgKind::Flag(Flag::Reading)
    } else if eq_lit(a, "--ltr") {
        ArgKind::Flag(Flag::Ltr)
    } else if eq_lit(a, "--rtl") {
        ArgKind::Flag(Flag::Rtl)
    } else if names_opt(a, Valued::Total) {
        ArgKind::Valued(Valued::Total)
    } else if names_opt(a, Valued::Art) {
        ArgKind::Valued(Valued::Art)
    } else if names_opt(a, Valued::Message) {
        ArgKind::Valued(Valued::Message)
    } else if names_opt(a, Valued::Start) {
        ArgKind::Valued(Valued::Start)
    } else if names_opt(a, Valued::Bridge) {
        ArgKind::Valued(Valued::Bridge)
    } else if names_opt(a, Valued::Easing) {
        ArgKind::Valued(Valued::Easing)
    } else if names_opt(a, Valued::Color) {
        ArgKind::Valued(Valued::Color)
    } else if names_opt(a, Valued::Head) {
        ArgKind::Valued(Valued::Head)
    } else if names_opt(a, Valued::Body) {
        ArgKind::Valued(Valued::Body)
    } else if names_opt(a, Valued::Feather) {
        ArgKind::Valued(Valued::Feather)
    } else {
        ArgKind::Unknown
    }
}

/// Parses the command line one argument at a time.
pub struct ArgParser {
    /// The next argument to take.
    pub pos: usize,
    /// What the arguments so far have set.
    pub opts: Options,
}

/// The complaint about an option that is missing its value.
fn needs_value(opt: Valued) -> (s: String)
    ensures
        s@ == "'"@ + long_name(opt) + "' needs a value"@,
{
    concat3("'", long_lit(opt), "' needs a value")
}

/// The complaint about a value that is not a whole number.
fn not_a_number(opt: Valued, v: &str) -> (s: String)
    ensures
        s@ == number_msg(long_name(opt), v@),
{
    let mut s = concat3(long_lit(opt), " needs a whole number, got '", v);
    s.append("'");
    s
}

impl ArgParser {
    /// A parser at the first argument, with the default options.
    pub fn new() -> (p: ArgParser)
        ensures
            p.pos == 0,
            p.opts@ == default_options(),
    {
        ArgParser {
            pos: 0,
            opts: Options {
                total: None,
                art: None,
                message: String::new(),
                ordering: OrderingChoice::Auto,
                easing: Easing::Linear,
                start: StartHint::TopLeft,
                bridge: 1,
                rainbow: false,
                light: false,
                depth: None,
                head: None,
                body: None,
            },
        }
    }

    /// Take the next argument (and its value, where it has one), report what
    /// it asked for, and move past it.
    pub fn step(&mut self, args: &Vec<String>) -> (s: Step)
        ensures
            ({
                let (sv, p, o) = parse_step(arg_views(args@), old(self).pos as int, old(self).opts@);
                &&& s@ == sv
                &&& final(self).pos == p
                &&& final(self).opts@ == o
            }),
    {
        let ghost views = arg_views(args@);
        let pos = self.pos;
        if pos >= args.len() {
            return Step::Done;
        }
        let a = chars_of(args[pos].as_str());
        proof {
            assert(views[pos as int] == args@[pos as int]@);
        }
        let kind = kind_of(&a);
        match kind {
            ArgKind::Help => {
                return Step::Help;
            },
            ArgKind::Version => {
                return Step::Version;
            },
            ArgKind::Unknown => {
                let mut m = concat3("unknown argument '", args[pos].as_str(), "'");
                return Step::Usage(m);
            },
            ArgKind::Flag(f) => {
                match f {
                    Flag::Rainbow => self.opts.rainbow = true,
                    Flag::Light => self.opts.light = true,
                    Flag::NoColor => self.opts.depth = Some(DepthChoice::Fixed(ColorDepth::Mono)),
                    Flag::Geodesic => self.opts.ordering = OrderingChoice::Geodesic,
                    Flag::Scanline => self.opts.ordering = OrderingChoice::Scanline,
                    Flag::Reading => self.opts.ordering = OrderingChoice::Reading,
                    Flag::Ltr => self.opts.ordering = OrderingChoice::Ltr,
                    Flag::Rtl => self.opts.ordering = OrderingChoice::Rtl,
                }
                self.pos = pos + 1;
                return Step::Next;
            },
            ArgKind::Valued(opt) => {
                let pre = chars_of(prefix_lit(opt));
                let inline = has_prefix(&a, prefix_lit(opt));
                let (v, last): (String, usize) = if inline {
                    (string_from(&a, pre.len()), pos)
                } else if pos + 1 < args.len() {
                    proof {
                        assert(views[pos + 1] == args@[pos + 1]@);
                    }
                    (args[pos + 1].clone(), pos + 1)
                } else {
                    return Step::Usage(needs_value(opt));
                };
                let vc = chars_of(v.as_str());
                match opt {
                    Valued::Total => match parse_u64(v.as_str()) {
                        Some(n) => self.opts.total = Some(n),
                        None => {
                            return Step::Usage(not_a_number(opt, v.as_str()));
                        },
                    },
                    Valued::Art => self.opts.art = Some(v),
                    Valued::Message => self.opts.message = v,
                    Valued::Start => {
                        if eq_lit(&vc, "top-left") || eq_lit(&vc, "topleft") {
                            self.opts.start = StartHint::TopLeft;
                        } else if eq_lit(&vc, "bottom") {
                            self.opts.start = StartHint::Bottom;
                        } else if eq_lit(&vc, "topological") {
                            self.opts.start = StartHint::Topological;
                        } else {
                            let mut m = concat3("unknown --start '", v.as_str(), "' (top-left, bottom, topological)");
                            return Step::Usage(m);
                        }
                    },
                    Valued::Bridge => match parse_u16(v.as_str()) {
                        Some(n) => self.opts.bridge = n,
                        None => {
                            return Step::Usage(not_a_number(opt, v.as_str()));
                        },
                    },
                    Valued::Easing => {
                        if eq_lit(&vc, "linear") {
                            self.opts.easing = Easing::Linear;
                        } else if eq_lit(&vc, "ease-out-cubic") {
                            self.opts.easing = Easing::EaseOutCubic;
                        } else if eq_lit(&vc, "ease-out-quint") {
                            self.opts.easing = Easing::EaseOutQuint;
                        } else if eq_lit(&vc, "ease-in-out-cubic") {
                            self.opts.easing = Easing::EaseInOutCubic;
                        } else {
                            let m = concat3(
                                "unknown --easing '",
                                v.as_str(),
                                "' (linear, ease-out-cubic, ease-out-quint, ease-in-out-cubic)",
                            );
                            return Step::Usage(m);
                        }
                    },
                    Valued::Color => {
                        if eq_lit(&vc, "auto") {
                            self.opts.depth = Some(DepthChoice::Detect);
                        } else if eq_lit(&vc, "truecolor") || eq_lit(&vc, "24bit") {
                            self.opts.depth = Some(DepthChoice::Fixed(ColorDepth::TrueColor));
                        } else if eq_lit(&vc, "256") {
                            self.opts.depth = Some(DepthChoice::Fixed(ColorDepth::Ansi256));
                        } else if eq_lit(&vc, "16") {
                            self.opts.depth = Some(DepthChoice::Fixed(ColorDepth::Ansi16));
                        } else if eq_lit(&vc, "none") || eq_lit(&vc, "mono") {
                            self.opts.depth = Some(DepthChoice::Fixed(ColorDepth::Mono));
                        } else {
                            let m = concat3("unknown --color '", v.as_str(), "' (auto, truecolor, 256, 16, none)");
                            return Step::Usage(m);
                        }
                    },
                    Valued::Head => match parse_hex(v.as_str(), "--head") {
                        Ok(c) => self.opts.head = Some(c),
                        Err(m) => {
                            return Step::Usage(m);
                        },
                    },
                    Valued::Body => match parse_hex(v.as_str(), "--body") {
                        Ok(c) => self.opts.body = Some(c),
                        Err(m) => {
                            return Step::Usage(m);
                        },
                    },
                    Valued::Feather => {
                        self.pos = last + 1;
                        return Step::Feather(v);
                    },
                }
                self.pos = last + 1;
                Step::Next
            },
        }
    }
}

// ---------------------------------------------------------------------------
// The progress protocol on standard input
// ---------------------------------------------------------------------------

/// `s` without leading or trailing whitespace.
pub open spec fn trim(s: Seq<char>) -> Seq<char>
    decreases s.len(),
{
    if s.len() > 0 && spec_is_whitespace(s[0]) {
        trim(s.drop_first())
    } else if s.len() > 0 && spec_is_whitespace(s.last()) {
        trim(s.drop_last())
    } else {
        s
    }
}

/// What one line of progress input asks for.
#[derive(Debug)]
pub enum LineAction {
    /// A blank line: nothing.
    Skip,
    /// `+N`: advance by `N`.
    Inc(u64),
    /// `N`: set the position to `N`.
    Jump(u64),
    /// Anything else: a new caption.
    Message(String),
}

/// The meaning of a progress line: blank lines are skipped; after trimming,
/// `+N` (spaces allowed after the `+`) advances, a whole number sets the
/// position, and anything else becomes the caption.
pub open spec fn line_meaning(line: Seq<char>) -> (Option<(bool, nat)>, Seq<char>) {
    let t = trim(line);
    let inc = if t.len() > 0 && t[0] == '+' {
        parse_unsigned(trim(t.drop_first()), u64::MAX as nat)
    } else {
        None
    };
    match inc {
        Some(d) => (Some((true, d)), t),
        None => match parse_unsigned(t, u64::MAX as nat) {
            Some(p) => (Some((false, p)), t),
            None => (None, t),
        },
    }
}

fn trim_chars(v: &Vec<char>) -> (out: Vec<char>)
    ensures
        out@ == trim(v@),
{
    let mut lo: usize = 0;
    let mut hi: usize = v.len();
    proof {
        assert(v@.subrange(0, v.len() as int) =~= v@);
    }
    while lo < hi && is_whitespace(v[lo])
        invariant
            lo <= hi <= v.len(),
            hi == v.len(),
            trim(v@.subrange(lo as int, hi as int)) == trim(v@),
        decreases hi - lo,
    {
        proof {
            assert(v@.subrange(lo as int, hi as int).drop_first() =~= v@.subrange(lo + 1, hi as int));
        }
        lo += 1;
    }
    while lo < hi && is_whitespace(v[hi - 1])
        invariant
            lo <= hi <= v.len(),
            lo == hi || !spec_is_whitespace(v@[lo as int]),
            trim(v@.subrange(lo as int, hi as int)) == trim(v@),
        decreases hi - lo,
    {
        proof {
            let s = v@.subrange(lo as int, hi as int);
            assert(s.drop_last() =~= v@.subrange(lo as int, hi - 1));
            assert(s[0] == v@[lo as int]);
        }
        hi -= 1;
    }
    let mut out: Vec<char> = Vec::new();
    let mut i = lo;
    while i < hi
        invariant
            lo <= i <= hi <= v.len(),
            out@ == v@.subrange(lo as int, i as int),
        decreases hi - i,
    {
        out.push(v[i]);
        proof {
            assert(v@.subrange(lo as int, i + 1) =~= v@.subrange(lo as int, i as int).push(v@[i as int]));
        }
        i += 1;
    }
    proof {
        let s = v@.subrange(lo as int, hi as int);
        if s.len() > 0 {
            assert(s[0] == v@[lo as int]);
            assert(s.last() == v@[hi - 1]);
        }
    }
    out
}

/// The meaning of one line of progress input.
pub fn read_token(line: &str) -> (a: LineAction)
    ensures
        ({
            let (num, t) = line_meaning(line@);
            match a {
                LineAction::Skip => t.len() == 0,
                LineAction::Inc(d) => t.len() > 0 && num == Some((true, d as nat)),
                LineAction::Jump(p) => t.len() > 0 && num == Some((false, p as nat)),
                LineAction::Message(m) => t.len() > 0 && num is None && m@ == t,
            }
        }),
{
    let t = trim_chars(&chars_of(line));
    if t.len() == 0 {
        return LineAction::Skip;
    }
    if t[0] == '+' {
        let mut rest: Vec<char> = Vec::new();
        let mut i: usize = 1;
        while i < t.len()
            invariant
                1 <= i <= t.len(),
                rest@ == t@.subrange(1, i as int),
            decreases t.len() - i,
        {
            rest.push(t[i]);
            proof {
                assert(t@.subrange(1, i + 1) =~= t@.subrange(1, i as int).push(t@[i as int]));
            }
            i += 1;
        }
        proof {
            assert(rest@ =~= t@.drop_first());
        }
        let r = trim_chars(&rest);
        match parse_bounded(&r, u64::MAX) {
            Some(d) => {
                return LineAction::Inc(d);
            },
            None => {},
        }
    }
    match parse_bounded(&t, u64::MAX) {
        Some(p) => LineAction::Jump(p),
        None => LineAction::Message(crate::text::string_of(&t)),
    }
}

} // verus!
