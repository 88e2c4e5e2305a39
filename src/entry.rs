//! One tracked title: its record, its one-line text form, and episode URLs.

use vstd::prelude::*;
use vstd::utf8::is_ascii_chars;
use crate::text::{
    chars_of, decimal_of, decimal_u64, lemma_decimal_round_trip, lemma_splitn_head,
    lemma_splitn_one, parse_decimal, push_decimal, push_text, split_from, splitn, string_of,
};
use string_template_plus::{Render, RenderOptions, Template};

verus! {

#[verifier::external_type_specification]
#[verifier::external_body]
pub struct ExTemplate(Template);

#[verifier::external_type_specification]
#[verifier::external_body]
pub struct ExAnyhowError(anyhow::Error);

/// Whether string_template_plus accepts `src` as a template.
pub uninterp spec fn template_parses(src: Seq<char>) -> bool;

/// Whitespace that `str::trim` removes from ASCII text.
pub open spec fn is_ws(c: char) -> bool {
    c == ' ' || ('\t' <= c && c <= '\r')
}

/// The nearest character before index `k` of `s` that is not whitespace.
pub open spec fn prev_non_ws(s: Seq<char>, k: int) -> Option<char>
    decreases k,
{
    if k <= 0 {
        None
    } else if is_ws(s[k - 1]) {
        prev_non_ws(s, k - 1)
    } else {
        Some(s[k - 1])
    }
}

/// The first character from index `k` of `s` on that is not whitespace.
pub open spec fn next_non_ws(s: Seq<char>, k: int) -> Option<char>
    decreases s.len() - k,
{
    if k < 0 || k >= s.len() {
        None
    } else if is_ws(s[k]) {
        next_non_ws(s, k + 1)
    } else {
        Some(s[k])
    }
}

/// The `"` at index `k` stands alone between brace or `?` delimiters, up to
/// whitespace: it can be a brace piece that is a lone quote.
pub open spec fn lone_quote(s: Seq<char>, k: int) -> bool {
    &&& s[k] == '"'
    &&& (prev_non_ws(s, k) == Some('{') || prev_non_ws(s, k) == Some('?'))
    &&& (next_non_ws(s, k + 1) == Some('}') || next_non_ws(s, k + 1) == Some('?'))
}

/// A template text that can be handed to string_template_plus: ASCII, and
/// no lone `"` brace piece.
pub open spec fn template_text(src: Seq<char>) -> bool {
    &&& is_ascii_chars(src)
    &&& forall|k: int| 0 <= k < src.len() ==> !#[trigger] lone_quote(src, k)
}

/// A template text that this library accepts.
pub open spec fn template_ok(src: Seq<char>) -> bool {
    template_text(src) && template_parses(src)
}

fn is_ws_char(c: char) -> (r: bool)
    ensures
        r == is_ws(c),
{
    c == ' ' || ('\t' <= c && c <= '\r')
}

fn prev_non_ws_of(cs: &Vec<char>, k: usize) -> (r: Option<char>)
    requires
        k <= cs.len(),
    ensures
        r == prev_non_ws(cs@, k as int),
{
    let mut j: usize = k;
    while j > 0 && is_ws_char(cs[j - 1])
        invariant
            j <= k <= cs.len(),
            prev_non_ws(cs@, k as int) == prev_non_ws(cs@, j as int),
        decreases j,
    {
        j = j - 1;
    }
    if j == 0 {
        None
    } else {
        Some(cs[j - 1])
    }
}

fn next_non_ws_of(cs: &Vec<char>, k: usize) -> (r: Option<char>)
    requires
        k <= cs.len(),
    ensures
        r == next_non_ws(cs@, k as int),
{
    let mut j: usize = k;
    while j < cs.len() && is_ws_char(cs[j])
        invariant
            k <= j <= cs.len(),
            next_non_ws(cs@, k as int) == next_non_ws(cs@, j as int),
        decreases cs.len() - j,
    {
        j = j + 1;
    }
    if j == cs.len() {
        None
    } else {
        Some(cs[j])
    }
}

/// Whether `src` can be handed to string_template_plus.
fn is_template_text(src: &str) -> (r: bool)
    ensures
        r == template_text(src@),
{
    if !src.is_ascii() {
        return false;
    }
    let cs = chars_of(src);
    let mut k: usize = 0;
    while k < cs.len()
        invariant
            k <= cs.len(),
            cs@ == src@,
            is_ascii_chars(src@),
            forall|j: int| 0 <= j < k ==> !#[trigger] lone_quote(cs@, j),
        decreases cs.len() - k,
    {
        if cs[k] == '"' {
            let before = match prev_non_ws_of(&cs, k) {
                Some(c) => c == '{' || c == '?',
                None => false,
            };
            let after = match next_non_ws_of(&cs, k + 1) {
                Some(c) => c == '}' || c == '?',
                None => false,
            };
            if before && after {
                assert(lone_quote(cs@, k as int));
                return false;
            }
        }
        k = k + 1;
    }
    true
}

/// Relies on `Template::parse_template` of string_template_plus: whether it
/// succeeds depends on the text alone. It slices the text at byte offsets,
/// and slices a brace piece that is a lone `"` as `[1..0]`, so it is called
/// on ASCII text without such a piece only.
#[verifier::external_body]
fn parse_template(src: &str) -> (r: Result<Template, anyhow::Error>)
    requires
        template_text(src@),
    ensures
        r is Ok <==> template_parses(src@),
{
    Template::parse_template(src)
}

/// Characters of a variable name.
pub open spec fn is_name_char(c: char) -> bool {
    ('a' <= c && c <= 'z') || ('A' <= c && c <= 'Z') || ('0' <= c && c <= '9') || c == '_'
}

/// Brace depth after `c`, given the depth before.
pub open spec fn next_depth(c: char, depth: nat) -> nat {
    if c == '{' {
        depth + 1
    } else if c == '}' && depth > 0 {
        (depth - 1) as nat
    } else {
        depth
    }
}

/// Whether a brace piece starts after `c` (up to whitespace): after a `{`,
/// or after a `?` inside braces.
pub open spec fn next_piece_start(c: char, depth: nat, start: bool) -> bool {
    if c == '{' || (c == '?' && depth > 0) {
        true
    } else if is_ws(c) {
        start
    } else {
        false
    }
}

/// Inside braces, no `:` (a transformer) and no piece that starts with `%`
/// (a time format) or `=` (a lisp expression). `depth` is the brace depth
/// where `s` starts, and `start` whether a brace piece starts there.
pub open spec fn pieces_plain(s: Seq<char>, depth: nat, start: bool) -> bool
    decreases s.len(),
{
    if s.len() == 0 {
        true
    } else if depth > 0 && (s[0] == ':' || (start && (s[0] == '%' || s[0] == '='))) {
        false
    } else {
        pieces_plain(s.drop_first(), next_depth(s[0], depth), next_piece_start(s[0], depth, start))
    }
}

/// A template with no time, lisp or transformer part: its brace pieces are
/// variables, quoted literals and alternatives of those, and it holds no
/// `=(` expression. Rendered with shell commands off, it depends on the
/// text and the variables alone.
pub open spec fn plain_template(s: Seq<char>) -> bool {
    &&& pieces_plain(s, 0, false)
    &&& forall|i: int| 0 <= i < s.len() - 1 ==> !(#[trigger] s[i] == '=' && s[i + 1] == '(')
}

/// Whether `src` is a plain template.
fn is_plain_template(src: &Vec<char>) -> (r: bool)
    ensures
        r == plain_template(src@),
{
    let mut depth: usize = 0;
    let mut start = false;
    let mut i: usize = 0;
    assert(src@.subrange(0, src@.len() as int) =~= src@);
    while i < src.len()
        invariant
            i <= src.len(),
            depth <= i,
            pieces_plain(src@, 0, false) == pieces_plain(
                src@.subrange(i as int, src@.len() as int),
                depth as nat,
                start,
            ),
            forall|k: int| 0 <= k < i && k < src@.len() - 1 ==> !(#[trigger] src@[k] == '=' && src@[k
                + 1] == '('),
        decreases src.len() - i,
    {
        let c = src[i];
        let ghost rest = src@.subrange(i as int, src@.len() as int);
        assert(rest.drop_first() =~= src@.subrange(i + 1, src@.len() as int));
        if depth > 0 && (c == ':' || (start && (c == '%' || c == '='))) {
            return false;
        }
        if c == '=' && i + 1 < src.len() && src[i + 1] == '(' {
            return false;
        }
        start = if c == '{' || (c == '?' && depth > 0) {
            true
        } else if is_ws_char(c) {
            start
        } else {
            false
        };
        if c == '{' {
            depth = depth + 1;
        } else if c == '}' && depth > 0 {
            depth = depth - 1;
        }
        i = i + 1;
    }
    assert(src@.subrange(i as int, src@.len() as int) =~= Seq::<char>::empty());
    true
}

/// The placeholder `{name}`.
pub open spec fn placeholder(name: Seq<char>) -> Seq<char> {
    seq!['{'] + name + seq!['}']
}

/// `s` with each `{name}` replaced by `value`.
pub open spec fn substitute(s: Seq<char>, name: Seq<char>, value: Seq<char>) -> Seq<char>
    decreases s.len(),
{
    let p = placeholder(name);
    if s.len() == 0 {
        Seq::empty()
    } else if p.len() <= s.len() && s.subrange(0, p.len() as int) == p {
        value + substitute(s.subrange(p.len() as int, s.len() as int), name, value)
    } else {
        substitute(s.drop_first(), name, value).insert(0, s[0])
    }
}

/// A name of name characters only.
pub open spec fn is_name(name: Seq<char>) -> bool {
    name.len() > 0 && forall|k: int| 0 <= k < name.len() ==> is_name_char(#[trigger] name[k])
}

/// Every `{` in `s` opens a `{name}` that ends within `s`.
pub open spec fn placeholders_only(s: Seq<char>, name: Seq<char>) -> bool {
    forall|i: int|
        0 <= i < s.len() && #[trigger] s[i] == '{' ==> i + name.len() + 2 <= s.len()
            && s.subrange(i, i + name.len() + 2) == placeholder(name)
}

/// A template whose only special text is the placeholder `{name}`: ASCII,
/// every `{` opens a `{name}`, and no `"`, no `\`, no `$(` command and no
/// `=(` expression.
pub open spec fn simple_template(s: Seq<char>, name: Seq<char>) -> bool {
    &&& is_ascii_chars(s)
    &&& is_name(name)
    &&& placeholders_only(s, name)
    &&& !s.contains('"')
    &&& !s.contains('\\')
    &&& forall|i: int|
        0 <= i < s.len() - 1 ==> !((#[trigger] s[i] == '$' || s[i] == '=') && s[i + 1] == '(')
}

proof fn lemma_name_close(t: Seq<char>, rest: Seq<char>, start: bool)
    requires
        forall|k: int| 0 <= k < t.len() ==> is_name_char(#[trigger] t[k]),
    ensures
        pieces_plain(t + seq!['}'] + rest, 1, start) == pieces_plain(rest, 0, false),
    decreases t.len(),
{
    let s = t + seq!['}'] + rest;
    if t.len() == 0 {
        assert(s[0] == '}');
        assert(s.drop_first() =~= rest);
    } else {
        assert(s[0] == t[0]);
        assert(is_name_char(t[0]));
        assert(s.drop_first() =~= t.drop_first() + seq!['}'] + rest);
        assert forall|k: int| 0 <= k < t.drop_first().len() implies is_name_char(
            #[trigger] t.drop_first()[k],
        ) by {
            assert(t.drop_first()[k] == t[k + 1]);
        }
        lemma_name_close(t.drop_first(), rest, false);
    }
}

/// A text whose every `{` opens a `{name}` has no time, lisp or
/// transformer piece.
pub proof fn lemma_placeholders_plain(s: Seq<char>, name: Seq<char>, start: bool)
    requires
        is_name(name),
        placeholders_only(s, name),
    ensures
        pieces_plain(s, 0, start),
    decreases s.len(),
{
    let n = name.len() as int;
    if s.len() > 0 {
        if s[0] == '{' {
            let rest = s.subrange(n + 2, s.len() as int);
            assert(s.subrange(0, n + 2) == placeholder(name));
            assert(s =~= s.subrange(0, n + 2) + rest);
            assert(s.drop_first() =~= name + seq!['}'] + rest);
            lemma_name_close(name, rest, true);
            assert forall|i: int| 0 <= i < rest.len() && #[trigger] rest[i] == '{' implies i + n + 2
                <= rest.len() && rest.subrange(i, i + n + 2) == placeholder(name) by {
                assert(rest[i] == s[i + n + 2]);
                assert(rest.subrange(i, i + n + 2) =~= s.subrange(i + n + 2, i + 2 * n + 4));
            }
            lemma_placeholders_plain(rest, name, false);
        } else {
            let t = s.drop_first();
            assert forall|i: int| 0 <= i < t.len() && #[trigger] t[i] == '{' implies i + n + 2
                <= t.len() && t.subrange(i, i + n + 2) == placeholder(name) by {
                assert(t[i] == s[i + 1]);
                assert(t.subrange(i, i + n + 2) =~= s.subrange(i + 1, i + n + 3));
            }
            lemma_placeholders_plain(t, name, next_piece_start(s[0], 0, start));
        }
    }
}

/// A simple template is a plain template text.
pub proof fn lemma_simple_is_plain(s: Seq<char>, name: Seq<char>)
    requires
        simple_template(s, name),
    ensures
        template_text(s),
        plain_template(s),
{
    lemma_placeholders_plain(s, name, false);
    assert forall|k: int| 0 <= k < s.len() implies !#[trigger] lone_quote(s, k) by {
        assert(s.contains(s[k]));
    }
}

/// A text without `{` is left as it is by substitution.
pub proof fn lemma_substitute_no_placeholder(s: Seq<char>, name: Seq<char>, value: Seq<char>)
    requires
        !s.contains('{'),
    ensures
        substitute(s, name, value) == s,
    decreases s.len(),
{
    if s.len() > 0 {
        let p = placeholder(name);
        if p.len() <= s.len() && s.subrange(0, p.len() as int) == p {
            assert(s[0] == s.subrange(0, p.len() as int)[0]);
            assert(s.contains(s[0]));
        }
        assert(!s.drop_first().contains('{')) by {
            if s.drop_first().contains('{') {
                let k = choose|k: int| 0 <= k < s.drop_first().len() && s.drop_first()[k] == '{';
                assert(s[k + 1] == '{');
            }
        }
        lemma_substitute_no_placeholder(s.drop_first(), name, value);
        assert(s.drop_first().insert(0, s[0]) =~= s);
    }
}

proof fn lemma_placeholders_rest(s: Seq<char>, name: Seq<char>)
    requires
        s.len() > 0,
        placeholders_only(s, name),
    ensures
        s[0] == '{' ==> placeholder(name).len() <= s.len() && s.subrange(
            0,
            placeholder(name).len() as int,
        ) == placeholder(name) && placeholders_only(
            s.subrange(placeholder(name).len() as int, s.len() as int),
            name,
        ),
        s[0] != '{' ==> !(placeholder(name).len() <= s.len() && s.subrange(
            0,
            placeholder(name).len() as int,
        ) == placeholder(name)) && placeholders_only(s.drop_first(), name),
{
    let n = name.len() as int;
    let p = placeholder(name);
    if s[0] == '{' {
        let rest = s.subrange(n + 2, s.len() as int);
        assert forall|i: int| 0 <= i < rest.len() && #[trigger] rest[i] == '{' implies i + n + 2
            <= rest.len() && rest.subrange(i, i + n + 2) == p by {
            assert(rest[i] == s[i + n + 2]);
            assert(rest.subrange(i, i + n + 2) =~= s.subrange(i + n + 2, i + 2 * n + 4));
        }
    } else {
        if p.len() <= s.len() && s.subrange(0, p.len() as int) == p {
            assert(s[0] == s.subrange(0, p.len() as int)[0]);
        }
        let t = s.drop_first();
        assert forall|i: int| 0 <= i < t.len() && #[trigger] t[i] == '{' implies i + n + 2
            <= t.len() && t.subrange(i, i + n + 2) == p by {
            assert(t[i] == s[i + 1]);
            assert(t.subrange(i, i + n + 2) =~= s.subrange(i + 1, i + n + 3));
        }
    }
}

proof fn lemma_substitute_len(s: Seq<char>, name: Seq<char>, v: Seq<char>, w: Seq<char>)
    requires
        placeholders_only(s, name),
        v.len() < w.len(),
    ensures
        substitute(s, name, v).len() <= substitute(s, name, w).len(),
        s.contains('{') ==> substitute(s, name, v).len() < substitute(s, name, w).len(),
    decreases s.len(),
{
    if s.len() > 0 {
        lemma_placeholders_rest(s, name);
        let p = placeholder(name);
        if s[0] == '{' {
            lemma_substitute_len(s.subrange(p.len() as int, s.len() as int), name, v, w);
        } else {
            lemma_substitute_len(s.drop_first(), name, v, w);
            if s.contains('{') {
                let k = choose|k: int| 0 <= k < s.len() && s[k] == '{';
                assert(s.drop_first()[k - 1] == '{');
            }
        }
    }
}

proof fn lemma_substitute_same_len(s: Seq<char>, name: Seq<char>, v: Seq<char>, w: Seq<char>)
    requires
        placeholders_only(s, name),
        v.len() == w.len(),
        s.contains('{'),
        substitute(s, name, v) == substitute(s, name, w),
    ensures
        v == w,
    decreases s.len(),
{
    lemma_placeholders_rest(s, name);
    let p = placeholder(name);
    if s[0] == '{' {
        let x = substitute(s, name, v);
        assert(x.subrange(0, v.len() as int) =~= v);
        assert(substitute(s, name, w).subrange(0, w.len() as int) =~= w);
    } else {
        let t = s.drop_first();
        let k = choose|k: int| 0 <= k < s.len() && s[k] == '{';
        assert(t[k - 1] == '{');
        assert(substitute(t, name, v) =~= substitute(s, name, v).drop_first());
        assert(substitute(t, name, w) =~= substitute(s, name, w).drop_first());
        lemma_substitute_same_len(t, name, v, w);
    }
}

/// Different episodes give different URLs from a simple template that has
/// a placeholder.
pub proof fn lemma_distinct_episode_urls(s: Seq<char>, a: usize, b: usize)
    requires
        simple_template(s, episode_name()),
        s.contains('{'),
        a != b,
    ensures
        substitute(s, episode_name(), decimal_of(a as nat)) != substitute(
            s,
            episode_name(),
            decimal_of(b as nat),
        ),
{
    let v = decimal_of(a as nat);
    let w = decimal_of(b as nat);
    lemma_decimal_round_trip(a as u64);
    lemma_decimal_round_trip(b as u64);
    assert(v != w);
    if v.len() < w.len() {
        lemma_substitute_len(s, episode_name(), v, w);
    } else if w.len() < v.len() {
        lemma_substitute_len(s, episode_name(), w, v);
    } else if substitute(s, episode_name(), v) == substitute(s, episode_name(), w) {
        lemma_substitute_same_len(s, episode_name(), v, w);
    }
}

/// The URL of a template without `{`, `"`, `\`, `$(` and `=(` is the
/// template itself, whatever the episode.
pub proof fn lemma_url_without_placeholder(s: Seq<char>, eps: usize)
    requires
        is_ascii_chars(s),
        !s.contains('{'),
        !s.contains('"'),
        !s.contains('\\'),
        forall|i: int|
            0 <= i < s.len() - 1 ==> !((#[trigger] s[i] == '$' || s[i] == '=') && s[i + 1] == '('),
    ensures
        simple_template(s, episode_name()),
        substitute(s, episode_name(), decimal_of(eps as nat)) == s,
{
    assert forall|i: int| 0 <= i < s.len() && #[trigger] s[i] == '{' implies false by {
        assert(s.contains(s[i]));
    }
    assert(is_name(episode_name())) by {
        assert forall|k: int| 0 <= k < episode_name().len() implies is_name_char(
            #[trigger] episode_name()[k],
        ) by {
            assert(k == 0 || k == 1 || k == 2 || k == 3 || k == 4 || k == 5 || k == 6);
        }
    }
    lemma_substitute_no_placeholder(s, episode_name(), decimal_of(eps as nat));
}

/// What string_template_plus renders from the template text `src` with the
/// one variable `name` set to `value`; None when it gives an error.
pub uninterp spec fn rendered(src: Seq<char>, name: Seq<char>, value: Seq<char>) -> Option<
    Seq<char>,
>;

/// Relies on `Template::parse_template` and `Render::render` of
/// string_template_plus, with the one variable `name` set to `value` and
/// shell commands off. A plain template has no time part (which reads the
/// clock) and no lisp or transformer part (which may panic), so the result
/// depends on the arguments alone. A text that does not parse gives an
/// error. With `{name}` as its only special text, the tokens are literal
/// text and the variable, which renders as `value`.
#[verifier::external_body]
fn render_template(src: &str, name: &str, value: &str) -> (r: Result<String, anyhow::Error>)
    requires
        template_text(src@),
        plain_template(src@),
    ensures
        match r {
            Ok(u) => rendered(src@, name@, value@) == Some(u@),
            Err(_) => rendered(src@, name@, value@) is None,
        },
        !template_parses(src@) ==> r is Err,
        simple_template(src@, name@) ==> r is Ok && r->Ok_0@ == substitute(src@, name@, value@),
{
    let mut op = RenderOptions::default();
    op.variables.insert(name.to_string(), value.to_string());
    Template::parse_template(src)?.render(&op)
}

pub open spec fn episode_name() -> Seq<char> {
    seq!['e', 'p', 'i', 's', 'o', 'd', 'e']
}

/// Why a line does not describe an entry.
#[derive(Debug, Clone, Copy, PartialEq, Eq, Structural)]
pub enum EntryError {
    /// Fewer than five comma-separated columns.
    MissingColumns,
    /// The URL template is not ASCII, has a brace piece that is a lone `"`,
    /// or is refused by string_template_plus.
    BadTemplate,
    /// The timestamp column is not an unsigned 64-bit decimal number.
    BadTimestamp,
}

/// What an entry holds, as sequences of characters.
pub struct EntryView {
    pub category: Seq<char>,
    pub title: Seq<char>,
    pub url_template: Seq<char>,
    pub watched: Seq<char>,
    pub timestamp: u64,
    pub note: Seq<char>,
}

/// The watch state of one title.
#[derive(Debug)]
pub struct AnimeEntry {
    pub category: String,
    pub title: String,
    /// Template text with an `{episode}` placeholder.
    pub url_template: String,
    /// Watched episodes, as a range text such as `1-5`.
    pub watched: String,
    /// Seconds since the Unix epoch of the last change.
    pub timestamp: u64,
    pub note: String,
}

impl View for AnimeEntry {
    type V = EntryView;

    open spec fn view(&self) -> EntryView {
        EntryView {
            category: self.category@,
            title: self.title@,
            url_template: self.url_template@,
            watched: self.watched@,
            timestamp: self.timestamp,
            note: self.note@,
        }
    }
}

/// Columns of a line: split at commas into at most six pieces, so the note
/// may hold commas.
pub open spec fn line_columns(s: Seq<char>) -> Seq<Seq<char>> {
    splitn(s, 6, ',')
}

/// The entry that line `s` describes, or why it describes none.
pub open spec fn entry_of_line(s: Seq<char>) -> Result<EntryView, EntryError> {
    let cols = line_columns(s);
    if cols.len() < 5 {
        Err(EntryError::MissingColumns)
    } else if !template_ok(cols[2]) {
        Err(EntryError::BadTemplate)
    } else if decimal_u64(cols[4]) is None {
        Err(EntryError::BadTimestamp)
    } else {
        Ok(
            EntryView {
                category: cols[0],
                title: cols[1],
                url_template: cols[2],
                watched: cols[3],
                timestamp: decimal_u64(cols[4])->0,
                note: if cols.len() > 5 {
                    cols[5]
                } else {
                    Seq::empty()
                },
            },
        )
    }
}

/// The line that stores `e`: its six fields joined by commas.
pub open spec fn line_of(e: EntryView) -> Seq<char> {
    e.category + seq![','] + e.title + seq![','] + e.url_template + seq![','] + e.watched + seq![
        ',',
    ] + decimal_of(e.timestamp as nat) + seq![','] + e.note
}

impl AnimeEntry {
    /// Reads an entry from one stored line.
    pub fn from_str(s: &str) -> (r: Result<AnimeEntry, EntryError>)
        ensures
            match entry_of_line(s@) {
                Ok(v) => r is Ok && r->Ok_0@ == v,
                Err(e) => r == Err::<AnimeEntry, EntryError>(e),
            },
    {
        let cs = chars_of(s);
        let cols = split_from(&cs, 0, 6, ',');
        proof {
            assert(cs@.subrange(0, cs@.len() as int) =~= cs@);
        }
        if cols.len() < 5 {
            return Err(EntryError::MissingColumns);
        }
        let url_template = string_of(&cols[2]);
        if !is_template_text(url_template.as_str()) || parse_template(url_template.as_str()).is_err() {
            return Err(EntryError::BadTemplate);
        }
        let timestamp = match parse_decimal(&cols[4]) {
            Some(t) => t,
            None => {
                return Err(EntryError::BadTimestamp);
            },
        };
        let note = if cols.len() > 5 {
            string_of(&cols[5])
        } else {
            string_of(&Vec::new())
        };
        Ok(
            AnimeEntry {
                category: string_of(&cols[0]),
                title: string_of(&cols[1]),
                url_template,
                watched: string_of(&cols[3]),
                timestamp,
                note,
            },
        )
    }

    /// A new entry in category `NA` with an empty note, last changed at
    /// `now`; refused when `url` is not a valid template.
    pub fn new(title: String, url: &str, eps: String, now: u64) -> (r: Result<
        AnimeEntry,
        EntryError,
    >)
        ensures
            r is Ok <==> template_ok(url@),
            !template_ok(url@) ==> r == Err::<AnimeEntry, EntryError>(EntryError::BadTemplate),
            r is Ok ==> r->Ok_0@ == (EntryView {
                category: seq!['N', 'A'],
                title: title@,
                url_template: url@,
                watched: eps@,
                timestamp: now,
                note: Seq::empty(),
            }),
    {
        if !is_template_text(url) || parse_template(url).is_err() {
            return Err(EntryError::BadTemplate);
        }
        let category = string_of(&vec!['N', 'A']);
        proof {
            assert(category@ =~= seq!['N', 'A']);
        }
        Ok(
            AnimeEntry {
                category,
                title,
                url_template: string_of(&chars_of(url)),
                watched: eps,
                timestamp: now,
                note: string_of(&Vec::new()),
            },
        )
    }

    /// A copy of this entry.
    pub fn clone_entry(&self) -> (r: AnimeEntry)
        ensures
            r@ == self@,
    {
        AnimeEntry {
            category: self.category.clone(),
            title: self.title.clone(),
            url_template: self.url_template.clone(),
            watched: self.watched.clone(),
            timestamp: self.timestamp,
            note: self.note.clone(),
        }
    }

    pub fn get_note(&self) -> (r: &str)
        ensures
            r@ == self.note@,
    {
        self.note.as_str()
    }

    /// Records a new watched range and note, changed at `now`.
    pub fn update(&mut self, eps: &str, note: &str, now: u64)
        ensures
            final(self)@ == (EntryView {
                watched: eps@,
                timestamp: now,
                note: note@,
                ..old(self)@
            }),
    {
        self.watched = string_of(&chars_of(eps));
        self.timestamp = now;
        self.note = string_of(&chars_of(note));
    }

    /// The URL of episode `eps`: the template rendered with `episode` set to
    /// the episode's decimal number, for a plain template that renders.
    pub fn get_url(&self, eps: usize) -> (r: String)
        requires
            template_text(self.url_template@),
            plain_template(self.url_template@),
            rendered(self.url_template@, episode_name(), decimal_of(eps as nat)) is Some,
        ensures
            r@ == rendered(self.url_template@, episode_name(), decimal_of(eps as nat))->0,
            simple_template(self.url_template@, episode_name()) ==> r@ == substitute(
                self.url_template@,
                episode_name(),
                decimal_of(eps as nat),
            ),
    {
        let mut number: Vec<char> = Vec::new();
        push_decimal(eps as u64, &mut number);
        assert(number@ =~= decimal_of(eps as nat));
        let name = string_of(&vec!['e', 'p', 'i', 's', 'o', 'd', 'e']);
        assert(name@ =~= episode_name());
        match render_template(self.url_template.as_str(), name.as_str(), string_of(&number).as_str()) {
            Ok(url) => url,
            Err(_) => string_of(&Vec::new()),
        }
    }

    /// The URL of episode `eps`; None when the template is not accepted, is
    /// not plain, or does not render (it names another variable).
    pub fn try_get_url(&self, eps: usize) -> (r: Option<String>)
        ensures
            !template_ok(self.url_template@) ==> r is None,
            !plain_template(self.url_template@) ==> r is None,
            template_text(self.url_template@) && plain_template(self.url_template@) ==> match rendered(
                self.url_template@,
                episode_name(),
                decimal_of(eps as nat),
            ) {
                Some(u) => r is Some && r->0@ == u,
                None => r is None,
            },
            simple_template(self.url_template@, episode_name()) ==> r is Some && r->0@
                == substitute(self.url_template@, episode_name(), decimal_of(eps as nat)),
    {
        proof {
            if simple_template(self.url_template@, episode_name()) {
                lemma_simple_is_plain(self.url_template@, episode_name());
            }
        }
        if !is_template_text(self.url_template.as_str()) || !is_plain_template(
            &chars_of(self.url_template.as_str()),
        ) {
            return None;
        }
        let mut number: Vec<char> = Vec::new();
        push_decimal(eps as u64, &mut number);
        assert(number@ =~= decimal_of(eps as nat));
        let name = string_of(&vec!['e', 'p', 'i', 's', 'o', 'd', 'e']);
        assert(name@ =~= episode_name());
        match render_template(self.url_template.as_str(), name.as_str(), string_of(&number).as_str()) {
            Ok(_) => Some(self.get_url(eps)),
            Err(_) => None,
        }
    }

    /// The line that stores this entry.
    pub fn to_line(&self) -> (r: String)
        ensures
            r@ == line_of(self@),
    {
        let mut out: Vec<char> = Vec::new();
        push_text(&mut out, self.category.as_str());
        out.push(',');
        push_text(&mut out, self.title.as_str());
        out.push(',');
        push_text(&mut out, self.url_template.as_str());
        out.push(',');
        push_text(&mut out, self.watched.as_str());
        out.push(',');
        push_decimal(self.timestamp, &mut out);
        out.push(',');
        push_text(&mut out, self.note.as_str());
        proof {
            assert(out@ =~= line_of(self@));
        }
        string_of(&out)
    }
}

/// Storing an entry as a line and reading the line back gives the same
/// entry, when no field but the note holds a comma and the template is
/// accepted.
pub proof fn lemma_line_round_trip(e: EntryView)
    requires
        !e.category.contains(','),
        !e.title.contains(','),
        !e.url_template.contains(','),
        !e.watched.contains(','),
        template_ok(e.url_template),
    ensures
        entry_of_line(line_of(e)) == Ok::<EntryView, EntryError>(e),
{
    let d = decimal_of(e.timestamp as nat);
    lemma_decimal_round_trip(e.timestamp);
    assert(!d.contains(',')) by {
        if d.contains(',') {
            let k = choose|k: int| 0 <= k < d.len() && d[k] == ',';
            assert(crate::text::is_digit(d[k]));
        }
    }
    let s5 = e.note;
    let s4 = d + seq![','] + s5;
    let s3 = e.watched + seq![','] + s4;
    let s2 = e.url_template + seq![','] + s3;
    let s1 = e.title + seq![','] + s2;
    let s0 = e.category + seq![','] + s1;
    assert(s0 =~= line_of(e));
    lemma_splitn_one(s5, ',');
    lemma_splitn_head(d, s5, 2, ',');
    lemma_splitn_head(e.watched, s4, 3, ',');
    lemma_splitn_head(e.url_template, s3, 4, ',');
    lemma_splitn_head(e.title, s2, 5, ',');
    lemma_splitn_head(e.category, s1, 6, ',');
    let cols = line_columns(line_of(e));
    assert(cols =~= seq![e.category, e.title, e.url_template, e.watched, d, e.note]);
}

} // verus!
