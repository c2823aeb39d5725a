use crate::color::{bg_code, bg_str, decimal, fg_code, fg_str, rgb_codes};
use crate::stylize::Stylize;
use vstd::prelude::*;
use vstd::string::*;
use vstd::utf8::*;

verus! {

/// A compiled regular expression of the `regex` crate.
#[verifier::external_type_specification]
#[verifier::external_body]
pub struct ExRegex(regex::Regex);

/// The error that `regex` reports for a pattern it cannot compile.
#[verifier::external_type_specification]
#[verifier::external_body]
pub struct ExRegexError(regex::Error);

/// Whether the `regex` crate compiles `pattern`.
pub uninterp spec fn regex_compiles(pattern: Seq<char>) -> bool;

/// The byte spans of the capture groups of the first match of `pattern` in
/// `haystack` (index 0 is the whole match), or `None` without a match.
pub uninterp spec fn captures_of(pattern: Seq<char>, haystack: Seq<char>) -> Option<
    Seq<Option<(usize, usize)>>,
>;

/// Relies on `regex::Regex::new`: it compiles the pattern or reports why not.
#[verifier::external_body]
fn compile(pattern: &str) -> (r: Result<regex::Regex, regex::Error>)
    ensures
        r is Ok <==> regex_compiles(pattern@),
{
    regex::Regex::new(pattern)
}

/// `[a, b)` is a span of `bytes` that starts and ends on character boundaries.
pub open spec fn span_ok(bytes: Seq<u8>, a: int, b: int) -> bool {
    &&& 0 <= a <= b <= bytes.len()
    &&& is_char_boundary(bytes, a)
    &&& is_char_boundary(bytes, b)
}

/// The shape of every capture list of a match in a haystack whose UTF-8
/// bytes are `bytes`: the whole match is there, and each group that took
/// part is a span on character boundaries.
pub open spec fn captures_well_formed(bytes: Seq<u8>, caps: Seq<Option<(usize, usize)>>) -> bool {
    &&& caps.len() >= 1
    &&& caps[0] is Some
    &&& forall|i: int|
        0 <= i < caps.len() && (#[trigger] caps[i]) is Some ==> span_ok(
            bytes,
            caps[i].unwrap().0 as int,
            caps[i].unwrap().1 as int,
        )
}

/// The style of one capture group: optional foreground and background.
#[derive(PartialEq, Debug, Clone, Copy)]
pub struct RuleStyle {
    pub foreground_color: Option<colored::Color>,
    pub background_color: Option<colored::Color>,
}

pub open spec fn csi() -> Seq<char> {
    seq!['\x1b', '[']
}

pub open spec fn reset() -> Seq<char> {
    seq!['\x1b', '[', '0', 'm']
}

/// A style with neither color leaves text as it is.
pub open spec fn is_plain(st: RuleStyle) -> bool {
    st.foreground_color is None && st.background_color is None
}

/// The SGR parameters of a style: background first, then foreground.
pub open spec fn sgr_params(st: RuleStyle) -> Seq<char> {
    match (st.background_color, st.foreground_color) {
        (Some(b), Some(f)) => bg_code(b) + seq![';'] + fg_code(f),
        (Some(b), None) => bg_code(b),
        (None, Some(f)) => fg_code(f),
        (None, None) => seq![],
    }
}

/// `text` wrapped in the escape sequences of `st`, if it has any.
pub open spec fn paint(st: Option<RuleStyle>, text: Seq<char>) -> Seq<char> {
    match st {
        Some(s) => if is_plain(s) {
            text
        } else {
            csi() + sgr_params(s) + seq!['m'] + text + reset()
        },
        None => text,
    }
}

/// The `i`-th style, if there is one.
pub open spec fn style_at(styles: Seq<RuleStyle>, i: int) -> Option<RuleStyle> {
    if 0 <= i < styles.len() {
        Some(styles[i])
    } else {
        None
    }
}

/// The characters of the bytes `[a, b)`.
pub open spec fn chars_of(bytes: Seq<u8>, a: int, b: int) -> Seq<char> {
    decode_utf8(bytes.subrange(a, b))
}

/// The rest of a styled line from capture group `i` on, where `last` is the
/// end of what was emitted so far. A group that did not take part, or that
/// starts before `last` (it is nested in an emitted group), is passed over.
pub open spec fn splice(
    bytes: Seq<u8>,
    caps: Seq<Option<(usize, usize)>>,
    styles: Seq<RuleStyle>,
    i: int,
    last: int,
) -> Seq<char>
    decreases caps.len() - i,
{
    if i >= caps.len() {
        chars_of(bytes, last, bytes.len() as int)
    } else if caps[i] is Some && caps[i].unwrap().0 >= last {
        let (a, b) = caps[i].unwrap();
        chars_of(bytes, last, a as int) + paint(style_at(styles, i - 1), chars_of(bytes, a as int, b as int))
            + splice(bytes, caps, styles, i + 1, b as int)
    } else {
        splice(bytes, caps, styles, i + 1, last)
    }
}

/// The styled copy of `line` for the capture list `caps`: none without a
/// match or without capture groups.
pub open spec fn stylized(
    line: Seq<char>,
    caps: Option<Seq<Option<(usize, usize)>>>,
    styles: Seq<RuleStyle>,
) -> Option<Seq<char>> {
    match caps {
        None => None,
        Some(c) => if c.len() <= 1 {
            None
        } else {
            Some(splice(encode_utf8(line), c, styles, 1, 0))
        },
    }
}

/// The bytes `[a, b)` of `s`, as a string.
fn substr<'a>(s: &'a str, a: usize, b: usize) -> (r: &'a str)
    requires
        span_ok(s.spec_bytes(), a as int, b as int),
    ensures
        r@ == chars_of(s.spec_bytes(), a as int, b as int),
{
    let ghost bytes = s.spec_bytes();
    proof {
        encode_utf8_valid_utf8(s@);
    }
    let (left, _) = s.split_at(b);
    proof {
        let lb = left.spec_bytes();
        valid_utf8_split(bytes, b as int);
        is_char_boundary_start_end_of_seq(lb);
        if 0 < a < b {
            is_char_boundary_iff_not_is_continuation_byte(bytes, a as int);
            is_char_boundary_iff_not_is_continuation_byte(lb, a as int);
        }
    }
    let (_, mid) = left.split_at(a);
    proof {
        assert(mid.spec_bytes() =~= bytes.subrange(a as int, b as int));
        encode_utf8_decode_utf8(mid@);
    }
    mid
}

/// Appends `text`, painted with `style`, to `out`.
fn push_painted(out: &mut String, style: Option<RuleStyle>, text: &str)
    ensures
        final(out)@ == old(out)@ + paint(style, text@),
{
    match style {
        Some(st) => {
            if st.foreground_color.is_none() && st.background_color.is_none() {
                out.append(text);
            } else {
                let ghost start = out@;
                proof {
                    reveal_strlit("\x1b[");
                    reveal_strlit(";");
                    reveal_strlit("m");
                    reveal_strlit("\x1b[0m");
                }
                out.append("\x1b[");
                if let Some(bg) = st.background_color {
                    let code = bg_str(&bg);
                    out.append(code.as_str());
                }
                if let Some(fg) = st.foreground_color {
                    if st.background_color.is_some() {
                        out.append(";");
                    }
                    let code = fg_str(&fg);
                    out.append(code.as_str());
                }
                assert(out@ =~= start + csi() + sgr_params(st));
                out.append("m");
                out.append(text);
                out.append("\x1b[0m");
                assert(out@ =~= start + paint(style, text@));
            }
        },
        None => {
            out.append(text);
        },
    }
}

/// Splices the capture groups `caps` of a match in `s` into a copy of `s`:
/// each group that took part and does not start inside an earlier emitted
/// group is painted with the style of its index (group `i` takes style
/// `i - 1`), the text between groups is copied as it is.
pub fn stylize_captures(s: &str, caps: &Vec<Option<(usize, usize)>>, styles: &Vec<RuleStyle>) -> (r:
    String)
    requires
        captures_well_formed(s.spec_bytes(), caps@),
    ensures
        r@ == splice(s.spec_bytes(), caps@, styles@, 1, 0),
{
    let ghost bytes = s.spec_bytes();
    let ghost total = splice(bytes, caps@, styles@, 1, 0);
    proof {
        encode_utf8_valid_utf8(s@);
        is_char_boundary_start_end_of_seq(bytes);
    }
    let mut out = String::new();
    let mut last: usize = 0;
    let mut i: usize = 1;
    assert(out@ + splice(bytes, caps@, styles@, 1, 0) =~= total);
    while i < caps.len()
        invariant
            1 <= i <= caps@.len(),
            bytes == s.spec_bytes(),
            valid_utf8(bytes),
            last <= bytes.len(),
            is_char_boundary(bytes, last as int),
            is_char_boundary(bytes, bytes.len() as int),
            captures_well_formed(bytes, caps@),
            total == splice(bytes, caps@, styles@, 1, 0),
            out@ + splice(bytes, caps@, styles@, i as int, last as int) == total,
        decreases caps@.len() - i,
    {
        let ghost before = out@;
        let ghost old_last = last;
        if let Some((a, b)) = caps[i] {
            if a >= last {
                assert(span_ok(bytes, a as int, b as int)) by {
                    assert(caps@[i as int] is Some);
                }
                out.append(substr(s, last, a));
                let style = if i - 1 < styles.len() {
                    Some(styles[i - 1])
                } else {
                    None
                };
                push_painted(&mut out, style, substr(s, a, b));
                last = b;
                assert(out@ + splice(bytes, caps@, styles@, i + 1, last as int) =~= before + splice(
                    bytes,
                    caps@,
                    styles@,
                    i as int,
                    old_last as int,
                ));
            }
        }
        i += 1;
    }
    let ghost before = out@;
    let end = s.as_bytes().len();
    out.append(substr(s, last, end));
    assert(out@ =~= before + splice(bytes, caps@, styles@, i as int, last as int));
    out
}

/// A regular expression with the styles of its capture groups.
pub struct Rule {
    regex: regex::Regex,
    pattern: String,
    styles: Vec<RuleStyle>,
}

/// The spans of an optional capture list.
pub open spec fn opt_caps(r: Option<Vec<Option<(usize, usize)>>>) -> Option<Seq<Option<(usize, usize)>>> {
    match r {
        Some(c) => Some(c@),
        None => None,
    }
}

/// Relies on `regex::Regex::captures` and `regex::Captures::iter`: the byte
/// spans of the groups of the first match, on character boundaries. The
/// regex of a rule is compiled from its pattern, by `Rule::new` only.
#[verifier::external_body]
fn captures_in(rule: &Rule, s: &str) -> (r: Option<Vec<Option<(usize, usize)>>>)
    ensures
        opt_caps(r) == captures_of(rule.pattern@, s@),
        r matches Some(c) ==> captures_well_formed(s.spec_bytes(), c@),
{
    rule.regex.captures(s).map(|c| c.iter().map(|m| m.map(|m| (m.start(), m.end()))).collect())
}

impl Rule {
    /// The pattern the rule was compiled from.
    pub closed spec fn pattern_spec(&self) -> Seq<char> {
        self.pattern@
    }

    /// The styles of the capture groups, in order.
    pub closed spec fn styles_spec(&self) -> Seq<RuleStyle> {
        self.styles@
    }

    /// Compiles `regex`; the error of the `regex` crate is handed on as it is.
    pub fn new(regex: &str, styles: Vec<RuleStyle>) -> (r: Result<Rule, regex::Error>)
        ensures
            r is Ok <==> regex_compiles(regex@),
            r matches Ok(rule) ==> rule.pattern_spec() == regex@ && rule.styles_spec() == styles@,
    {
        match compile(regex) {
            Ok(re) => Ok(Rule { regex: re, pattern: regex.to_owned(), styles }),
            Err(e) => Err(e),
        }
    }

    /// The pattern the rule was compiled from.
    pub fn pattern(&self) -> (r: &str)
        ensures
            r@ == self.pattern_spec(),
    {
        self.pattern.as_str()
    }

    /// The style of capture group `index + 1`, if the rule has one.
    pub fn style(&self, index: usize) -> (r: Option<&RuleStyle>)
        ensures
            r matches Some(st) ==> style_at(self.styles_spec(), index as int) == Some(*st),
            r is None <==> style_at(self.styles_spec(), index as int) is None,
    {
        if index < self.styles.len() {
            Some(&self.styles[index])
        } else {
            None
        }
    }
}

impl Stylize for Rule {
    open spec fn stylize_spec(&self, s: Seq<char>) -> Option<Seq<char>> {
        stylized(s, captures_of(self.pattern_spec(), s), self.styles_spec())
    }

    fn stylize(&self, s: &str) -> (r: Option<String>) {
        let caps = captures_in(self, s);
        match caps {
            None => None,
            Some(c) => {
                if c.len() <= 1 {
                    None
                } else {
                    Some(stylize_captures(s, &c, &self.styles))
                }
            },
        }
    }
}

/// A rule whose pattern has no capture groups (every capture list holds the
/// whole match only) never gives a styled line.
pub proof fn lemma_group_free_rule(rule: Rule, line: Seq<char>)
    requires
        captures_of(rule.pattern_spec(), line) matches Some(c) ==> c.len() <= 1,
    ensures
        rule.stylize_spec(line) is None,
{
}

/// `s` has no `c`.
pub open spec fn lacks(s: Seq<char>, c: char) -> bool {
    forall|i: int| 0 <= i < s.len() ==> s[i] != c
}

/// What is left of `s` once every escape sequence, from an ESC up to and
/// including the next `m`, is taken out; `in_escape` says that an ESC was
/// read and its `m` was not.
pub open spec fn strip_from(s: Seq<char>, in_escape: bool) -> Seq<char>
    decreases s.len(),
{
    if s.len() == 0 {
        seq![]
    } else if in_escape {
        strip_from(s.drop_first(), s[0] != 'm')
    } else if s[0] == '\x1b' {
        strip_from(s.drop_first(), true)
    } else {
        seq![s[0]] + strip_from(s.drop_first(), false)
    }
}

/// `s` with its escape sequences taken out.
pub open spec fn strip_escapes(s: Seq<char>) -> Seq<char> {
    strip_from(s, false)
}

proof fn lemma_strip_plain(t: Seq<char>, r: Seq<char>)
    requires
        lacks(t, '\x1b'),
    ensures
        strip_from(t + r, false) == t + strip_from(r, false),
    decreases t.len(),
{
    if t.len() > 0 {
        assert((t + r).drop_first() =~= t.drop_first() + r);
        lemma_strip_plain(t.drop_first(), r);
        assert(t =~= seq![t[0]] + t.drop_first());
    } else {
        assert(t + r =~= r);
    }
}

proof fn lemma_strip_params(p: Seq<char>, r: Seq<char>)
    requires
        lacks(p, 'm'),
    ensures
        strip_from(p + seq!['m'] + r, true) == strip_from(r, false),
    decreases p.len(),
{
    if p.len() > 0 {
        assert((p + seq!['m'] + r).drop_first() =~= p.drop_first() + seq!['m'] + r);
        lemma_strip_params(p.drop_first(), r);
    } else {
        assert((p + seq!['m'] + r).drop_first() =~= r);
    }
}

proof fn lemma_decimal_digits(n: u8)
    ensures
        lacks(decimal(n), 'm'),
    decreases n,
{
    if n >= 10 {
        lemma_decimal_digits(n / 10);
    }
}

proof fn lemma_rgb_codes(r: u8, g: u8, b: u8)
    ensures
        lacks(rgb_codes(r, g, b), 'm'),
{
    lemma_decimal_digits(r);
    lemma_decimal_digits(g);
    lemma_decimal_digits(b);
}

proof fn lemma_params_lack_m(st: RuleStyle)
    ensures
        lacks(seq!['['] + sgr_params(st), 'm'),
{
    if let Some(c) = st.background_color {
        if let colored::Color::TrueColor { r, g, b } = c {
            lemma_rgb_codes(r, g, b);
        }
    }
    if let Some(c) = st.foreground_color {
        if let colored::Color::TrueColor { r, g, b } = c {
            lemma_rgb_codes(r, g, b);
        }
    }
}

proof fn lemma_strip_paint(st: Option<RuleStyle>, t: Seq<char>, r: Seq<char>)
    requires
        lacks(t, '\x1b'),
    ensures
        strip_from(paint(st, t) + r, false) == t + strip_from(r, false),
{
    if st is Some && !is_plain(st.unwrap()) {
        let s = st.unwrap();
        let p = seq!['['] + sgr_params(s);
        lemma_params_lack_m(s);
        assert(paint(st, t) + r =~= seq!['\x1b'] + (p + seq!['m'] + (t + (reset() + r))));
        assert((seq!['\x1b'] + (p + seq!['m'] + (t + (reset() + r)))).drop_first() =~= p + seq!['m'] + (t
            + (reset() + r)));
        lemma_strip_params(p, t + (reset() + r));
        lemma_strip_plain(t, reset() + r);
        assert((reset() + r).drop_first() =~= seq!['['] + seq!['0'] + seq!['m'] + r);
        lemma_strip_params(seq!['[', '0'], r);
        assert(seq!['['] + seq!['0'] + seq!['m'] + r =~= seq!['[', '0'] + seq!['m'] + r);
    } else {
        lemma_strip_plain(t, r);
    }
}

/// Within the bytes `[a, b)` of valid UTF-8, the character boundaries are
/// those of the whole, moved by `a`.
proof fn lemma_boundary_in_span(bytes: Seq<u8>, a: int, b: int, x: int)
    requires
        valid_utf8(bytes),
        span_ok(bytes, a, b),
        a <= x <= b,
        is_char_boundary(bytes, x),
    ensures
        valid_utf8(bytes.subrange(a, b)),
        is_char_boundary(bytes.subrange(a, b), x - a),
{
    let suf = bytes.subrange(a, bytes.len() as int);
    valid_utf8_split(bytes, a);
    is_char_boundary_start_end_of_seq(suf);
    if a < b && b < bytes.len() {
        is_char_boundary_iff_not_is_continuation_byte(bytes, b);
        is_char_boundary_iff_not_is_continuation_byte(suf, b - a);
    }
    valid_utf8_split(suf, b - a);
    assert(suf.subrange(0, b - a) =~= bytes.subrange(a, b));
    let sub = bytes.subrange(a, b);
    is_char_boundary_start_end_of_seq(sub);
    if a < x < b {
        is_char_boundary_iff_not_is_continuation_byte(bytes, x);
        is_char_boundary_iff_not_is_continuation_byte(sub, x - a);
    }
}

/// The characters of `[a, b)` are those of `[a, m)` then those of `[m, b)`.
proof fn lemma_chars_split(bytes: Seq<u8>, a: int, m: int, b: int)
    requires
        valid_utf8(bytes),
        span_ok(bytes, a, m),
        span_ok(bytes, m, b),
    ensures
        chars_of(bytes, a, b) == chars_of(bytes, a, m) + chars_of(bytes, m, b),
{
    lemma_boundary_in_span(bytes, a, b, m);
    let sub = bytes.subrange(a, b);
    decode_utf8_split(sub, m - a);
    assert(sub.subrange(0, m - a) =~= bytes.subrange(a, m));
    assert(sub.subrange(m - a, sub.len() as int) =~= bytes.subrange(m, b));
}

proof fn lemma_lacks_concat(x: Seq<char>, y: Seq<char>, c: char)
    requires
        lacks(x + y, c),
    ensures
        lacks(x, c),
        lacks(y, c),
{
    assert forall|i: int| 0 <= i < y.len() implies y[i] != c by {
        assert((x + y)[x.len() + i] == y[i]);
    }
    assert forall|i: int| 0 <= i < x.len() implies x[i] != c by {
        assert((x + y)[i] == x[i]);
    }
}

proof fn lemma_strip_splice(
    bytes: Seq<u8>,
    caps: Seq<Option<(usize, usize)>>,
    styles: Seq<RuleStyle>,
    i: int,
    last: int,
)
    requires
        valid_utf8(bytes),
        captures_well_formed(bytes, caps),
        0 <= i,
        span_ok(bytes, last, bytes.len() as int),
        lacks(chars_of(bytes, last, bytes.len() as int), '\x1b'),
    ensures
        strip_escapes(splice(bytes, caps, styles, i, last)) == chars_of(bytes, last, bytes.len() as int),
    decreases caps.len() - i,
{
    let n = bytes.len() as int;
    if i >= caps.len() {
        lemma_strip_plain(chars_of(bytes, last, n), seq![]);
        assert(chars_of(bytes, last, n) + seq![] =~= chars_of(bytes, last, n));
    } else if caps[i] is Some && caps[i].unwrap().0 >= last {
        let (a, b) = caps[i].unwrap();
        let (a, b) = (a as int, b as int);
        assert(span_ok(bytes, a, b));
        lemma_chars_split(bytes, last, a, n);
        lemma_chars_split(bytes, a, b, n);
        lemma_lacks_concat(chars_of(bytes, last, a), chars_of(bytes, a, n), '\x1b');
        lemma_lacks_concat(chars_of(bytes, a, b), chars_of(bytes, b, n), '\x1b');
        lemma_strip_splice(bytes, caps, styles, i + 1, b);
        let rest = splice(bytes, caps, styles, i + 1, b);
        let painted = paint(style_at(styles, i - 1), chars_of(bytes, a, b));
        assert(splice(bytes, caps, styles, i, last) =~= chars_of(bytes, last, a) + (painted + rest));
        lemma_strip_plain(chars_of(bytes, last, a), painted + rest);
        lemma_strip_paint(style_at(styles, i - 1), chars_of(bytes, a, b), rest);
        assert(chars_of(bytes, last, a) + (chars_of(bytes, a, b) + chars_of(bytes, b, n)) =~= chars_of(
            bytes,
            last,
            n,
        ));
    } else {
        lemma_strip_splice(bytes, caps, styles, i + 1, last);
    }
}

/// Taking the escape sequences out of a styled line gives the line back,
/// for a line that holds no ESC of its own.
pub proof fn lemma_strip_styled(
    line: Seq<char>,
    caps: Option<Seq<Option<(usize, usize)>>>,
    styles: Seq<RuleStyle>,
)
    requires
        lacks(line, '\x1b'),
        caps matches Some(c) ==> captures_well_formed(encode_utf8(line), c),
    ensures
        stylized(line, caps, styles) matches Some(out) ==> strip_escapes(out) == line,
{
    if let Some(c) = caps {
        if c.len() > 1 {
            let bytes = encode_utf8(line);
            encode_utf8_valid_utf8(line);
            encode_utf8_decode_utf8(line);
            is_char_boundary_start_end_of_seq(bytes);
            assert(bytes.subrange(0, bytes.len() as int) =~= bytes);
            lemma_strip_splice(bytes, c, styles, 1, 0);
        }
    }
}

proof fn lemma_skip_absent_groups(
    bytes: Seq<u8>,
    caps: Seq<Option<(usize, usize)>>,
    styles: Seq<RuleStyle>,
    k: int,
    j: int,
)
    requires
        1 <= k <= j < caps.len(),
        forall|m: int| k <= m < j ==> (#[trigger] caps[m]) is None,
    ensures
        splice(bytes, caps, styles, k, 0) == splice(bytes, caps, styles, j, 0),
    decreases j - k,
{
    if k < j {
        lemma_skip_absent_groups(bytes, caps, styles, k + 1, j);
    }
}

/// Style `i` (counted from 0) paints capture group `i + 1`: when the groups
/// before it took no part in the match, the line is its text up to the
/// group, the group painted with style `i`, and the rest.
pub proof fn lemma_style_alignment(
    line: Seq<char>,
    caps: Seq<Option<(usize, usize)>>,
    styles: Seq<RuleStyle>,
    i: int,
)
    requires
        captures_well_formed(encode_utf8(line), caps),
        0 <= i,
        i + 1 < caps.len(),
        forall|k: int| 1 <= k <= i ==> (#[trigger] caps[k]) is None,
        caps[i + 1] is Some,
    ensures
        stylized(line, Some(caps), styles) == Some(
            chars_of(encode_utf8(line), 0, caps[i + 1].unwrap().0 as int) + paint(
                style_at(styles, i),
                chars_of(encode_utf8(line), caps[i + 1].unwrap().0 as int, caps[i + 1].unwrap().1 as int),
            ) + splice(encode_utf8(line), caps, styles, i + 2, caps[i + 1].unwrap().1 as int),
        ),
{
    lemma_skip_absent_groups(encode_utf8(line), caps, styles, 1, i + 1);
}

/// Two styles paint every text alike.
pub open spec fn same_paint(x: Option<RuleStyle>, y: Option<RuleStyle>) -> bool {
    ||| x == y
    ||| ((x is None || is_plain(x.unwrap())) && (y is None || is_plain(y.unwrap())))
}

proof fn lemma_splice_same_paint(
    bytes: Seq<u8>,
    caps: Seq<Option<(usize, usize)>>,
    s1: Seq<RuleStyle>,
    s2: Seq<RuleStyle>,
    i: int,
    last: int,
)
    requires
        1 <= i,
        forall|k: int| 0 <= k < caps.len() - 1 ==> same_paint(#[trigger] style_at(s1, k), style_at(s2, k)),
    ensures
        splice(bytes, caps, s1, i, last) == splice(bytes, caps, s2, i, last),
    decreases caps.len() - i,
{
    if i < caps.len() {
        if caps[i] is Some && caps[i].unwrap().0 >= last {
            lemma_splice_same_paint(bytes, caps, s1, s2, i + 1, caps[i].unwrap().1 as int);
            assert(same_paint(style_at(s1, i - 1), style_at(s2, i - 1)));
        } else {
            lemma_splice_same_paint(bytes, caps, s1, s2, i + 1, last);
        }
    }
}

/// Styles past the last capture group are ignored: keeping only as many
/// styles as there are groups changes nothing.
pub proof fn lemma_extra_styles_ignored(
    line: Seq<char>,
    caps: Option<Seq<Option<(usize, usize)>>>,
    styles: Seq<RuleStyle>,
    n: int,
)
    requires
        caps matches Some(c) ==> c.len() - 1 <= n,
        0 <= n <= styles.len(),
    ensures
        stylized(line, caps, styles) == stylized(line, caps, styles.take(n)),
{
    if let Some(c) = caps {
        assert forall|k: int| 0 <= k < c.len() - 1 implies same_paint(
            #[trigger] style_at(styles, k),
            style_at(styles.take(n), k),
        ) by {}
        lemma_splice_same_paint(encode_utf8(line), c, styles, styles.take(n), 1, 0);
    }
}

/// Capture groups past the last style are emitted unstyled: giving them
/// styles without colors changes nothing.
pub proof fn lemma_unstyled_trailing_groups(
    line: Seq<char>,
    caps: Option<Seq<Option<(usize, usize)>>>,
    styles: Seq<RuleStyle>,
    plain: Seq<RuleStyle>,
)
    requires
        forall|k: int| 0 <= k < plain.len() ==> is_plain(#[trigger] plain[k]),
    ensures
        stylized(line, caps, styles) == stylized(line, caps, styles + plain),
{
    if let Some(c) = caps {
        assert forall|k: int| 0 <= k < c.len() - 1 implies same_paint(
            #[trigger] style_at(styles, k),
            style_at(styles + plain, k),
        ) by {
            if k >= styles.len() && k < styles.len() + plain.len() {
                assert((styles + plain)[k] == plain[k - styles.len()]);
            }
        }
        lemma_splice_same_paint(encode_utf8(line), c, styles, styles + plain, 1, 0);
    }
}

} // verus!
