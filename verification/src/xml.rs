//! A forward-only, pull-style XML event scanner over a character sequence.
//!
//! The scanner is tolerant in the way the metadata extraction needs it to
//! be: element names are matched by their literal qualified form, text is
//! whitespace-trimmed, whitespace-only text produces no event, self-closing
//! elements are reported as start events with an `empty` mark, and
//! comments, processing instructions, CDATA sections and document type
//! declarations are skipped. An unterminated construct is a syntax error
//! carried with the position where the construct began.

use vstd::prelude::*;
use crate::chars::{is_xml_space_char, is_xml_space, is_digit_char, digit_val, chars_to_string};
use crate::strings::digits_val;

verus! {

// ---------------------------------------------------------------------------
// Position-finding helpers
// ---------------------------------------------------------------------------

/// The first position at or after `i` holding `c`, or the end of the
/// sequence if there is none.
pub open spec fn find_char(s: Seq<char>, i: int, c: char) -> int
    decreases s.len() - i,
    when 0 <= i <= s.len()
{
    if i >= s.len() {
        s.len() as int
    } else if s[i] == c {
        i
    } else {
        find_char(s, i + 1, c)
    }
}

pub proof fn lemma_find_char(s: Seq<char>, i: int, c: char)
    requires
        0 <= i <= s.len(),
    ensures
        i <= find_char(s, i, c) <= s.len(),
        find_char(s, i, c) < s.len() ==> s[find_char(s, i, c)] == c,
        forall|k: int| i <= k < find_char(s, i, c) ==> s[k] != c,
    decreases s.len() - i,
{
    if i < s.len() && s[i] != c {
        lemma_find_char(s, i + 1, c);
    }
}

/// The first position at or after `i` where the two characters `c1 c2`
/// appear in a row, or the end of the sequence if there is none.
pub open spec fn find_pair(s: Seq<char>, i: int, c1: char, c2: char) -> int
    decreases s.len() - i,
    when 0 <= i <= s.len()
{
    if i + 1 >= s.len() {
        s.len() as int
    } else if s[i] == c1 && s[i + 1] == c2 {
        i
    } else {
        find_pair(s, i + 1, c1, c2)
    }
}

pub proof fn lemma_find_pair(s: Seq<char>, i: int, c1: char, c2: char)
    requires
        0 <= i <= s.len(),
    ensures
        i <= find_pair(s, i, c1, c2) <= s.len(),
        find_pair(s, i, c1, c2) < s.len() ==> find_pair(s, i, c1, c2) + 1 < s.len() && s[find_pair(
            s,
            i,
            c1,
            c2,
        )] == c1 && s[find_pair(s, i, c1, c2) + 1] == c2,
    decreases s.len() - i,
{
    if i + 1 < s.len() && !(s[i] == c1 && s[i + 1] == c2) {
        lemma_find_pair(s, i + 1, c1, c2);
    }
}

/// The first position at or after `i` where the three characters
/// `c1 c2 c3` appear in a row, or the end of the sequence if there is none.
pub open spec fn find_triple(s: Seq<char>, i: int, c1: char, c2: char, c3: char) -> int
    decreases s.len() - i,
    when 0 <= i <= s.len()
{
    if i + 2 >= s.len() {
        s.len() as int
    } else if s[i] == c1 && s[i + 1] == c2 && s[i + 2] == c3 {
        i
    } else {
        find_triple(s, i + 1, c1, c2, c3)
    }
}

pub proof fn lemma_find_triple(s: Seq<char>, i: int, c1: char, c2: char, c3: char)
    requires
        0 <= i <= s.len(),
    ensures
        i <= find_triple(s, i, c1, c2, c3) <= s.len(),
        find_triple(s, i, c1, c2, c3) < s.len() ==> find_triple(s, i, c1, c2, c3) + 2 < s.len(),
    decreases s.len() - i,
{
    if i + 2 < s.len() && !(s[i] == c1 && s[i + 1] == c2 && s[i + 2] == c3) {
        lemma_find_triple(s, i + 1, c1, c2, c3);
    }
}

/// The first position in `[i, j]` that does not hold XML whitespace
/// (or `j` itself).
pub open spec fn ltrim(s: Seq<char>, i: int, j: int) -> int
    decreases j - i,
    when 0 <= i <= j <= s.len()
{
    if i < j && is_xml_space_char(s[i]) {
        ltrim(s, i + 1, j)
    } else {
        i
    }
}

pub proof fn lemma_ltrim(s: Seq<char>, i: int, j: int)
    requires
        0 <= i <= j <= s.len(),
    ensures
        i <= ltrim(s, i, j) <= j,
        ltrim(s, i, j) < j ==> !is_xml_space_char(s[ltrim(s, i, j)]),
    decreases j - i,
{
    if i < j && is_xml_space_char(s[i]) {
        lemma_ltrim(s, i + 1, j);
    }
}

/// The position just past the last non-whitespace character in `[i, j)`
/// (or `i` itself if there is none).
pub open spec fn rtrim(s: Seq<char>, i: int, j: int) -> int
    decreases j - i,
    when 0 <= i <= j <= s.len()
{
    if j > i && is_xml_space_char(s[j - 1]) {
        rtrim(s, i, j - 1)
    } else {
        j
    }
}

pub proof fn lemma_rtrim(s: Seq<char>, i: int, j: int)
    requires
        0 <= i <= j <= s.len(),
    ensures
        i <= rtrim(s, i, j) <= j,
    decreases j - i,
{
    if j > i && is_xml_space_char(s[j - 1]) {
        lemma_rtrim(s, i, j - 1);
    }
}

/// Right-trimming keeps every non-whitespace character of the range.
pub proof fn lemma_rtrim_after(s: Seq<char>, i: int, j: int, t: int)
    requires
        0 <= i <= t < j <= s.len(),
        !is_xml_space_char(s[t]),
    ensures
        t < rtrim(s, i, j) <= j,
    decreases j - i,
{
    if j > i && is_xml_space_char(s[j - 1]) {
        assert(j - 1 != t);
        lemma_rtrim_after(s, i, j - 1, t);
    }
}

/// The end of an element name starting at `i`: the first position holding
/// XML whitespace or `>` (also `/` when `stop_slash` is set), or the end
/// of the sequence.
pub open spec fn name_end(s: Seq<char>, i: int, stop_slash: bool) -> int
    decreases s.len() - i,
    when 0 <= i <= s.len()
{
    if i >= s.len() {
        i
    } else if is_xml_space_char(s[i]) || s[i] == '>' || (stop_slash && s[i] == '/') {
        i
    } else {
        name_end(s, i + 1, stop_slash)
    }
}

pub proof fn lemma_name_end(s: Seq<char>, i: int, stop_slash: bool)
    requires
        0 <= i <= s.len(),
    ensures
        i <= name_end(s, i, stop_slash) <= s.len(),
        forall|k: int|
            i <= k < s.len() && (is_xml_space_char(s[k]) || s[k] == '>' || (stop_slash && s[k]
                == '/')) ==> name_end(s, i, stop_slash) <= k,
    decreases s.len() - i,
{
    if i < s.len() && !(is_xml_space_char(s[i]) || s[i] == '>' || (stop_slash && s[i] == '/')) {
        lemma_name_end(s, i + 1, stop_slash);
    }
}

/// The position of the `>` that closes the tag whose content starts at
/// `i`, skipping over quoted attribute values; the end of the sequence if
/// the tag never closes.
pub open spec fn tag_end(s: Seq<char>, i: int) -> int
    decreases s.len() - i,
    when 0 <= i <= s.len()
    via tag_end_dec
{
    if i >= s.len() {
        s.len() as int
    } else if s[i] == '>' {
        i
    } else if s[i] == '"' || s[i] == '\'' {
        let q = find_char(s, i + 1, s[i]);
        if q >= s.len() {
            s.len() as int
        } else {
            tag_end(s, q + 1)
        }
    } else {
        tag_end(s, i + 1)
    }
}

#[via_fn]
proof fn tag_end_dec(s: Seq<char>, i: int) {
    if 0 <= i < s.len() && (s[i] == '"' || s[i] == '\'') {
        lemma_find_char(s, i + 1, s[i]);
    }
}

pub proof fn lemma_tag_end(s: Seq<char>, i: int)
    requires
        0 <= i <= s.len(),
    ensures
        i <= tag_end(s, i) <= s.len(),
        tag_end(s, i) < s.len() ==> s[tag_end(s, i)] == '>',
    decreases s.len() - i,
{
    if i < s.len() && s[i] != '>' {
        if s[i] == '"' || s[i] == '\'' {
            lemma_find_char(s, i + 1, s[i]);
            let q = find_char(s, i + 1, s[i]);
            if q < s.len() {
                lemma_tag_end(s, q + 1);
            }
        } else {
            lemma_tag_end(s, i + 1);
        }
    }
}

/// The name of a start tag ends no later than the `>` that closes it.
pub proof fn lemma_name_end_le_tag_end(s: Seq<char>, i: int, stop_slash: bool)
    requires
        0 <= i <= s.len(),
    ensures
        name_end(s, i, stop_slash) <= tag_end(s, i),
{
    lemma_tag_end(s, i);
    lemma_name_end(s, i, stop_slash);
    let te = tag_end(s, i);
    if te < s.len() {
        assert(s[te] == '>');
    }
}

// ---------------------------------------------------------------------------
// The next significant event
// ---------------------------------------------------------------------------

/// Whether the text run `[i, j)` trims to nothing.
pub open spec fn trim_empty(s: Seq<char>, i: int, j: int) -> bool {
    ltrim(s, i, j) == j
}

/// The position where the next significant event starts, skipping
/// whitespace-only text, comments, CDATA sections, processing
/// instructions and document type declarations. An unterminated skipped
/// construct is left in place so that classification reports it as a
/// syntax error.
pub open spec fn next_sig(s: Seq<char>, i: int) -> int
    decreases s.len() - i,
    when 0 <= i <= s.len()
    via next_sig_dec
{
    if i >= s.len() {
        i
    } else if s[i] != '<' {
        let lt = find_char(s, i, '<');
        if trim_empty(s, i, lt) {
            next_sig(s, lt)
        } else {
            i
        }
    } else if i + 3 < s.len() && s[i + 1] == '!' && s[i + 2] == '-' && s[i + 3] == '-' {
        let e = find_triple(s, i + 4, '-', '-', '>');
        if e >= s.len() {
            i
        } else {
            next_sig(s, e + 3)
        }
    } else if i + 8 < s.len() && s[i + 1] == '!' && s[i + 2] == '[' && s[i + 3] == 'C' && s[i + 4]
        == 'D' && s[i + 5] == 'A' && s[i + 6] == 'T' && s[i + 7] == 'A' && s[i + 8] == '[' {
        let e = find_triple(s, i + 9, ']', ']', '>');
        if e >= s.len() {
            i
        } else {
            next_sig(s, e + 3)
        }
    } else if i + 1 < s.len() && s[i + 1] == '!' {
        let g = find_char(s, i + 2, '>');
        if g >= s.len() {
            i
        } else {
            next_sig(s, g + 1)
        }
    } else if i + 1 < s.len() && s[i + 1] == '?' {
        let e = find_pair(s, i + 2, '?', '>');
        if e >= s.len() {
            i
        } else {
            next_sig(s, e + 2)
        }
    } else {
        i
    }
}

#[via_fn]
proof fn next_sig_dec(s: Seq<char>, i: int) {
    if 0 <= i < s.len() {
        if s[i] != '<' {
            lemma_find_char(s, i, '<');
            lemma_ltrim(s, i, find_char(s, i, '<'));
        } else if i + 3 < s.len() && s[i + 1] == '!' && s[i + 2] == '-' && s[i + 3] == '-' {
            lemma_find_triple(s, i + 4, '-', '-', '>');
        } else if i + 8 < s.len() && s[i + 1] == '!' && s[i + 2] == '[' && s[i + 3] == 'C' && s[i
            + 4] == 'D' && s[i + 5] == 'A' && s[i + 6] == 'T' && s[i + 7] == 'A' && s[i + 8]
            == '[' {
            lemma_find_triple(s, i + 9, ']', ']', '>');
        } else if i + 1 < s.len() && s[i + 1] == '!' {
            lemma_find_char(s, i + 2, '>');
        } else if i + 1 < s.len() && s[i + 1] == '?' {
            lemma_find_pair(s, i + 2, '?', '>');
        }
    }
}

pub proof fn lemma_next_sig(s: Seq<char>, i: int)
    requires
        0 <= i <= s.len(),
    ensures
        i <= next_sig(s, i) <= s.len(),
    decreases s.len() - i,
{
    if i < s.len() {
        if s[i] != '<' {
            lemma_find_char(s, i, '<');
            let lt = find_char(s, i, '<');
            lemma_ltrim(s, i, lt);
            if trim_empty(s, i, lt) {
                lemma_next_sig(s, lt);
            }
        } else if i + 3 < s.len() && s[i + 1] == '!' && s[i + 2] == '-' && s[i + 3] == '-' {
            lemma_find_triple(s, i + 4, '-', '-', '>');
            let e = find_triple(s, i + 4, '-', '-', '>');
            if e < s.len() {
                lemma_next_sig(s, e + 3);
            }
        } else if i + 8 < s.len() && s[i + 1] == '!' && s[i + 2] == '[' && s[i + 3] == 'C' && s[i
            + 4] == 'D' && s[i + 5] == 'A' && s[i + 6] == 'T' && s[i + 7] == 'A' && s[i + 8]
            == '[' {
            lemma_find_triple(s, i + 9, ']', ']', '>');
            let e = find_triple(s, i + 9, ']', ']', '>');
            if e < s.len() {
                lemma_next_sig(s, e + 3);
            }
        } else if i + 1 < s.len() && s[i + 1] == '!' {
            lemma_find_char(s, i + 2, '>');
            let g = find_char(s, i + 2, '>');
            if g < s.len() {
                lemma_next_sig(s, g + 1);
            }
        } else if i + 1 < s.len() && s[i + 1] == '?' {
            lemma_find_pair(s, i + 2, '?', '>');
            let e = find_pair(s, i + 2, '?', '>');
            if e < s.len() {
                lemma_next_sig(s, e + 2);
            }
        }
    }
}

// ---------------------------------------------------------------------------
// Event classification
// ---------------------------------------------------------------------------

/// A significant scanner event, at the specification level.
pub ghost enum GEv {
    /// A start tag; `empty` marks a self-closing tag.
    GStart { name: Seq<char>, attrs: Seq<char>, after: int, empty: bool },
    /// An end tag.
    GEnd { name: Seq<char>, after: int },
    /// A whitespace-trimmed, non-empty text run, still escaped.
    GText { content: Seq<char>, after: int },
    /// The end of the document.
    GEof,
    /// Malformed markup beginning at `pos`.
    GErr { pos: int },
}

/// The next significant event of the document, scanning from `i`.
pub open spec fn spec_event(s: Seq<char>, i: int) -> GEv {
    let p = next_sig(s, i);
    if p >= s.len() {
        GEv::GEof
    } else if s[p] != '<' {
        let lt = find_char(s, p, '<');
        GEv::GText { content: s.subrange(ltrim(s, p, lt), rtrim(s, p, lt)), after: lt }
    } else if p + 1 >= s.len() {
        GEv::GErr { pos: p }
    } else if s[p + 1] == '/' {
        let g = find_char(s, p + 2, '>');
        if g >= s.len() {
            GEv::GErr { pos: p }
        } else {
            GEv::GEnd { name: s.subrange(p + 2, name_end(s, p + 2, false)), after: g + 1 }
        }
    } else if s[p + 1] == '!' || s[p + 1] == '?' {
        GEv::GErr { pos: p }
    } else {
        let te = tag_end(s, p + 1);
        if te >= s.len() {
            GEv::GErr { pos: p }
        } else {
            let ne = name_end(s, p + 1, true);
            let ae = if s[te - 1] == '/' && te - 1 >= ne {
                te - 1
            } else {
                te
            };
            GEv::GStart {
                name: s.subrange(p + 1, ne),
                attrs: s.subrange(ne, ae),
                after: te + 1,
                empty: (ae == te - 1),
            }
        }
    }
}

/// Every event other than end-of-document and an error strictly advances
/// the scan position, and stays within the document.
pub proof fn lemma_event_advance(s: Seq<char>, i: int)
    requires
        0 <= i <= s.len(),
    ensures
        match spec_event(s, i) {
            GEv::GStart { after, .. } => i < after <= s.len(),
            GEv::GEnd { after, .. } => i < after <= s.len(),
            GEv::GText { after, .. } => i < after <= s.len(),
            GEv::GEof => true,
            GEv::GErr { pos } => i <= pos < s.len(),
        },
{
    lemma_next_sig(s, i);
    let p = next_sig(s, i);
    if p < s.len() {
        if s[p] != '<' {
            lemma_find_char(s, p, '<');
        } else if p + 1 < s.len() && s[p + 1] == '/' {
            lemma_find_char(s, p + 2, '>');
        } else if p + 1 < s.len() && s[p + 1] != '!' && s[p + 1] != '?' {
            lemma_tag_end(s, p + 1);
        }
    }
}

/// An executable scanner event. Positions index into the scanned
/// character sequence.
pub enum Ev {
    Start { name: String, attrs: String, after: usize, empty: bool },
    End { name: String, after: usize },
    Text { content: String, after: usize },
    Eof,
    Error { pos: usize },
}

/// The executable event faithfully reports the specification-level event.
pub open spec fn ev_rel(s: Seq<char>, i: int, r: Ev) -> bool {
    match spec_event(s, i) {
        GEv::GStart { name, attrs, after, empty } => r matches Ev::Start {
            name: n2,
            attrs: a2,
            after: f2,
            empty: e2,
        } && n2@ == name && a2@ == attrs && f2 as int == after && e2 == empty,
        GEv::GEnd { name, after } => r matches Ev::End { name: n2, after: f2 } && n2@ == name && f2
            as int == after,
        GEv::GText { content, after } => r matches Ev::Text { content: c2, after: f2 } && c2@
            == content && f2 as int == after,
        GEv::GEof => r is Eof,
        GEv::GErr { pos } => r matches Ev::Error { pos: p2 } && p2 as int == pos,
    }
}

// ---------------------------------------------------------------------------
// Executable helpers
// ---------------------------------------------------------------------------

pub fn find_char_exec(cs: &Vec<char>, i: usize, c: char) -> (r: usize)
    requires
        i <= cs@.len(),
    ensures
        r as int == find_char(cs@, i as int, c),
        i <= r <= cs@.len(),
{
    let mut r: usize = i;
    while r < cs.len() && cs[r] != c
        invariant
            i <= r <= cs@.len(),
            find_char(cs@, i as int, c) == find_char(cs@, r as int, c),
        decreases cs@.len() - r,
    {
        r = r + 1;
    }
    r
}

fn find_pair_exec(cs: &Vec<char>, i: usize, c1: char, c2: char) -> (r: usize)
    requires
        i <= cs@.len(),
    ensures
        r as int == find_pair(cs@, i as int, c1, c2),
        i <= r <= cs@.len(),
        r < cs@.len() ==> r + 1 < cs@.len(),
{
    let n: usize = cs.len();
    proof {
        lemma_find_pair(cs@, i as int, c1, c2);
    }
    if n < 1 {
        return n;
    }
    let mut r: usize = i;
    while r < n - 1 && !(cs[r] == c1 && cs[r + 1] == c2)
        invariant
            n == cs@.len(),
            n >= 1,
            i <= r <= cs@.len(),
            find_pair(cs@, i as int, c1, c2) == find_pair(cs@, r as int, c1, c2),
        decreases cs@.len() - r,
    {
        r = r + 1;
    }
    if r < n - 1 {
        r
    } else {
        n
    }
}

fn find_triple_exec(cs: &Vec<char>, i: usize, c1: char, c2: char, c3: char) -> (r: usize)
    requires
        i <= cs@.len(),
    ensures
        r as int == find_triple(cs@, i as int, c1, c2, c3),
        i <= r <= cs@.len(),
        r < cs@.len() ==> r + 2 < cs@.len(),
{
    let n: usize = cs.len();
    proof {
        lemma_find_triple(cs@, i as int, c1, c2, c3);
    }
    if n < 2 {
        return n;
    }
    let mut r: usize = i;
    while r < n - 2 && !(cs[r] == c1 && cs[r + 1] == c2 && cs[r + 2] == c3)
        invariant
            n == cs@.len(),
            n >= 2,
            i <= r <= cs@.len(),
            find_triple(cs@, i as int, c1, c2, c3) == find_triple(cs@, r as int, c1, c2, c3),
        decreases cs@.len() - r,
    {
        r = r + 1;
    }
    if r < n - 2 {
        r
    } else {
        n
    }
}

fn ltrim_exec(cs: &Vec<char>, i: usize, j: usize) -> (r: usize)
    requires
        i <= j <= cs@.len(),
    ensures
        r as int == ltrim(cs@, i as int, j as int),
        i <= r <= j,
{
    let mut r: usize = i;
    while r < j && is_xml_space(cs[r])
        invariant
            i <= r <= j <= cs@.len(),
            ltrim(cs@, i as int, j as int) == ltrim(cs@, r as int, j as int),
        decreases j - r,
    {
        r = r + 1;
    }
    r
}

fn rtrim_exec(cs: &Vec<char>, i: usize, j: usize) -> (r: usize)
    requires
        i <= j <= cs@.len(),
    ensures
        r as int == rtrim(cs@, i as int, j as int),
        i <= r <= j,
{
    let mut r: usize = j;
    while r > i && is_xml_space(cs[r - 1])
        invariant
            i <= r <= j <= cs@.len(),
            rtrim(cs@, i as int, j as int) == rtrim(cs@, i as int, r as int),
        decreases r,
    {
        r = r - 1;
    }
    proof {
        lemma_rtrim(cs@, i as int, r as int);
    }
    r
}

fn name_end_exec(cs: &Vec<char>, i: usize, stop_slash: bool) -> (r: usize)
    requires
        i <= cs@.len(),
    ensures
        r as int == name_end(cs@, i as int, stop_slash),
        i <= r <= cs@.len(),
{
    let mut r: usize = i;
    while r < cs.len() && !(is_xml_space(cs[r]) || cs[r] == '>' || (stop_slash && cs[r] == '/'))
        invariant
            i <= r <= cs@.len(),
            name_end(cs@, i as int, stop_slash) == name_end(cs@, r as int, stop_slash),
        decreases cs@.len() - r,
    {
        r = r + 1;
    }
    r
}

fn tag_end_exec(cs: &Vec<char>, i: usize) -> (r: usize)
    requires
        i <= cs@.len(),
    ensures
        r as int == tag_end(cs@, i as int),
        i <= r <= cs@.len(),
{
    let mut cur: usize = i;
    loop
        invariant
            i <= cur <= cs@.len(),
            tag_end(cs@, i as int) == tag_end(cs@, cur as int),
        decreases cs@.len() - cur,
    {
        if cur >= cs.len() {
            proof {
                lemma_tag_end(cs@, i as int);
            }
            return cs.len();
        }
        let c = cs[cur];
        if c == '>' {
            proof {
                lemma_tag_end(cs@, i as int);
            }
            return cur;
        } else if c == '"' || c == '\'' {
            let q = find_char_exec(cs, cur + 1, c);
            if q >= cs.len() {
                proof {
                    lemma_tag_end(cs@, i as int);
                }
                return cs.len();
            }
            cur = q + 1;
        } else {
            cur = cur + 1;
        }
    }
}

/// A string holding the characters `cs[a..b]`.
pub fn range_string(cs: &Vec<char>, a: usize, b: usize) -> (r: String)
    requires
        a <= b <= cs@.len(),
    ensures
        r@ == cs@.subrange(a as int, b as int),
{
    let mut out: Vec<char> = Vec::new();
    let mut k: usize = a;
    while k < b
        invariant
            a <= k <= b <= cs@.len(),
            out@ == cs@.subrange(a as int, k as int),
        decreases b - k,
    {
        out.push(cs[k]);
        k = k + 1;
        proof {
            assert(out@ =~= cs@.subrange(a as int, k as int));
        }
    }
    chars_to_string(&out)
}

// ---------------------------------------------------------------------------
// The executable scanner
// ---------------------------------------------------------------------------

/// Reads the next significant event of the document, scanning from `i`.
pub fn read_event(cs: &Vec<char>, i: usize) -> (r: Ev)
    requires
        i <= cs@.len(),
    ensures
        ev_rel(cs@, i as int, r),
{
    let mut cur: usize = i;
    loop
        invariant
            i <= cur <= cs@.len(),
            next_sig(cs@, i as int) == next_sig(cs@, cur as int),
        decreases cs@.len() - cur,
    {
        if cur >= cs.len() {
            return Ev::Eof;
        }
        if cs[cur] != '<' {
            let lt = find_char_exec(cs, cur, '<');
            proof {
                lemma_find_char(cs@, cur as int, '<');
            }
            let tl = ltrim_exec(cs, cur, lt);
            if tl == lt {
                cur = lt;
            } else {
                proof {
                    lemma_ltrim(cs@, cur as int, lt as int);
                    lemma_rtrim_after(cs@, cur as int, lt as int, tl as int);
                }
                let tr = rtrim_exec(cs, cur, lt);
                let content = range_string(cs, tl, tr);
                return Ev::Text { content, after: lt };
            }
        } else if cs.len() - cur > 3 && cs[cur + 1] == '!' && cs[cur + 2] == '-' && cs[cur + 3]
            == '-' {
            let e = find_triple_exec(cs, cur + 4, '-', '-', '>');
            if e >= cs.len() {
                return Ev::Error { pos: cur };
            }
            cur = e + 3;
        } else if cs.len() - cur > 8 && cs[cur + 1] == '!' && cs[cur + 2] == '[' && cs[cur + 3]
            == 'C' && cs[cur + 4] == 'D' && cs[cur + 5] == 'A' && cs[cur + 6] == 'T' && cs[cur + 7]
            == 'A' && cs[cur + 8] == '[' {
            let e = find_triple_exec(cs, cur + 9, ']', ']', '>');
            if e >= cs.len() {
                return Ev::Error { pos: cur };
            }
            cur = e + 3;
        } else if cs.len() - cur > 1 && cs[cur + 1] == '!' {
            let g = find_char_exec(cs, cur + 2, '>');
            if g >= cs.len() {
                return Ev::Error { pos: cur };
            }
            cur = g + 1;
        } else if cs.len() - cur > 1 && cs[cur + 1] == '?' {
            let e = find_pair_exec(cs, cur + 2, '?', '>');
            if e >= cs.len() {
                return Ev::Error { pos: cur };
            }
            cur = e + 2;
        } else if cs.len() - cur <= 1 {
            return Ev::Error { pos: cur };
        } else if cs[cur + 1] == '/' {
            let g = find_char_exec(cs, cur + 2, '>');
            if g >= cs.len() {
                return Ev::Error { pos: cur };
            }
            let ne = name_end_exec(cs, cur + 2, false);
            proof {
                lemma_find_char(cs@, cur + 2, '>');
                lemma_name_end(cs@, cur + 2, false);
            }
            let name = range_string(cs, cur + 2, ne);
            return Ev::End { name, after: g + 1 };
        } else {
            let te = tag_end_exec(cs, cur + 1);
            if te >= cs.len() {
                return Ev::Error { pos: cur };
            }
            let ne = name_end_exec(cs, cur + 1, true);
            proof {
                lemma_name_end_le_tag_end(cs@, cur + 1, true);
                lemma_tag_end(cs@, cur + 1);
            }
            let ae: usize = if cs[te - 1] == '/' && te - 1 >= ne {
                te - 1
            } else {
                te
            };
            let name = range_string(cs, cur + 1, ne);
            let attrs = range_string(cs, ne, ae);
            return Ev::Start { name, attrs, after: te + 1, empty: (ae == te - 1) };
        }
    }
}

// ---------------------------------------------------------------------------
// Attributes
// ---------------------------------------------------------------------------

/// The end of an attribute name starting at `i`: the first position
/// holding XML whitespace or `=`, or the end of the sequence.
pub open spec fn attr_name_end(s: Seq<char>, i: int) -> int
    decreases s.len() - i,
    when 0 <= i <= s.len()
{
    if i >= s.len() {
        i
    } else if is_xml_space_char(s[i]) || s[i] == '=' {
        i
    } else {
        attr_name_end(s, i + 1)
    }
}

pub proof fn lemma_attr_name_end(s: Seq<char>, i: int)
    requires
        0 <= i <= s.len(),
    ensures
        i <= attr_name_end(s, i) <= s.len(),
    decreases s.len() - i,
{
    if i < s.len() && !(is_xml_space_char(s[i]) || s[i] == '=') {
        lemma_attr_name_end(s, i + 1);
    }
}

/// The raw (still escaped) value of the first attribute called `name` in
/// the attribute region `s`, scanning from `i`. A malformed region —
/// a bare or unquoted attribute, or an unclosed quote — ends the scan
/// with nothing found.
pub open spec fn attr_scan(s: Seq<char>, i: int, name: Seq<char>) -> Option<Seq<char>>
    decreases s.len() - i,
    when 0 <= i <= s.len()
    via attr_scan_dec
{
    let j = ltrim(s, i, s.len() as int);
    if j >= s.len() {
        None
    } else {
        let ne = attr_name_end(s, j);
        if ne == j {
            None
        } else {
            let eq = ltrim(s, ne, s.len() as int);
            if eq >= s.len() || s[eq] != '=' {
                None
            } else {
                let vq = ltrim(s, eq + 1, s.len() as int);
                if vq >= s.len() || (s[vq] != '"' && s[vq] != '\'') {
                    None
                } else {
                    let close = find_char(s, vq + 1, s[vq]);
                    if close >= s.len() {
                        None
                    } else if s.subrange(j, ne) == name {
                        Some(s.subrange(vq + 1, close))
                    } else {
                        attr_scan(s, close + 1, name)
                    }
                }
            }
        }
    }
}

#[via_fn]
proof fn attr_scan_dec(s: Seq<char>, i: int, name: Seq<char>) {
    if 0 <= i <= s.len() {
        lemma_attr_scan_steps(s, i);
    }
}

proof fn lemma_attr_scan_steps(s: Seq<char>, i: int)
    requires
        0 <= i <= s.len(),
    ensures
        i <= ltrim(s, i, s.len() as int) <= s.len(),
        ({
            let j = ltrim(s, i, s.len() as int);
            let ne = attr_name_end(s, j);
            let eq = ltrim(s, ne, s.len() as int);
            &&& j <= ne <= s.len()
            &&& ne <= eq <= s.len()
            &&& eq + 1 <= s.len() ==> eq + 1 <= ltrim(s, eq + 1, s.len() as int) <= s.len()
            &&& (eq + 1 <= s.len() && ltrim(s, eq + 1, s.len() as int) < s.len() ==> {
                let vq = ltrim(s, eq + 1, s.len() as int);
                vq + 1 <= find_char(s, vq + 1, s[vq]) <= s.len()
            })
        }),
{
    lemma_ltrim(s, i, s.len() as int);
    let j = ltrim(s, i, s.len() as int);
    lemma_attr_name_end(s, j);
    let ne = attr_name_end(s, j);
    lemma_ltrim(s, ne, s.len() as int);
    let eq = ltrim(s, ne, s.len() as int);
    if eq + 1 <= s.len() {
        lemma_ltrim(s, eq + 1, s.len() as int);
        let vq = ltrim(s, eq + 1, s.len() as int);
        if vq < s.len() {
            lemma_find_char(s, vq + 1, s[vq]);
        }
    }
}

/// The raw value of the `content` attribute that follows an attribute
/// `name="book-type"`, in the attribute region `s`. `marked` records that
/// the `name="book-type"` attribute has already been seen.
pub open spec fn book_type_scan(s: Seq<char>, i: int, marked: bool) -> Option<Seq<char>>
    decreases s.len() - i,
    when 0 <= i <= s.len()
    via book_type_scan_dec
{
    let j = ltrim(s, i, s.len() as int);
    if j >= s.len() {
        None
    } else {
        let ne = attr_name_end(s, j);
        if ne == j {
            None
        } else {
            let eq = ltrim(s, ne, s.len() as int);
            if eq >= s.len() || s[eq] != '=' {
                None
            } else {
                let vq = ltrim(s, eq + 1, s.len() as int);
                if vq >= s.len() || (s[vq] != '"' && s[vq] != '\'') {
                    None
                } else {
                    let close = find_char(s, vq + 1, s[vq]);
                    if close >= s.len() {
                        None
                    } else if s.subrange(j, ne) == "name"@ && s.subrange(vq + 1, close)
                        == "book-type"@ {
                        book_type_scan(s, close + 1, true)
                    } else if marked && s.subrange(j, ne) == "content"@ {
                        Some(s.subrange(vq + 1, close))
                    } else {
                        book_type_scan(s, close + 1, marked)
                    }
                }
            }
        }
    }
}

#[via_fn]
proof fn book_type_scan_dec(s: Seq<char>, i: int, marked: bool) {
    if 0 <= i <= s.len() {
        lemma_attr_scan_steps(s, i);
    }
}

fn attr_name_end_exec(cs: &Vec<char>, i: usize) -> (r: usize)
    requires
        i <= cs@.len(),
    ensures
        r as int == attr_name_end(cs@, i as int),
        i <= r <= cs@.len(),
{
    let mut r: usize = i;
    while r < cs.len() && !(is_xml_space(cs[r]) || cs[r] == '=')
        invariant
            i <= r <= cs@.len(),
            attr_name_end(cs@, i as int) == attr_name_end(cs@, r as int),
        decreases cs@.len() - r,
    {
        r = r + 1;
    }
    r
}

/// The characters `cs[a..b]` as a vector of their own.
fn copy_range(cs: &Vec<char>, a: usize, b: usize) -> (r: Vec<char>)
    requires
        a <= b <= cs@.len(),
    ensures
        r@ == cs@.subrange(a as int, b as int),
{
    let mut out: Vec<char> = Vec::new();
    let mut k: usize = a;
    while k < b
        invariant
            a <= k <= b <= cs@.len(),
            out@ == cs@.subrange(a as int, k as int),
        decreases b - k,
    {
        out.push(cs[k]);
        k = k + 1;
        proof {
            assert(out@ =~= cs@.subrange(a as int, k as int));
        }
    }
    out
}

/// Whether `cs[a..b]` equals the pattern `p`.
fn range_eq(cs: &Vec<char>, a: usize, b: usize, p: &Vec<char>) -> (r: bool)
    requires
        a <= b <= cs@.len(),
    ensures
        r == (cs@.subrange(a as int, b as int) == p@),
{
    if b - a != p.len() {
        proof {
            assert(cs@.subrange(a as int, b as int).len() != p@.len());
        }
        return false;
    }
    let mut k: usize = 0;
    while k < p.len()
        invariant
            a + p@.len() == b,
            b <= cs@.len(),
            k <= p@.len(),
            forall|m: int| 0 <= m < k ==> cs@[a + m] == p@[m],
        decreases p@.len() - k,
    {
        if cs[a + k] != p[k] {
            proof {
                assert(cs@.subrange(a as int, b as int)[k as int] != p@[k as int]);
            }
            return false;
        }
        k = k + 1;
    }
    proof {
        assert(cs@.subrange(a as int, b as int) =~= p@);
    }
    true
}

/// One parsed attribute of the region `cs`, starting the scan at `i`:
/// the name range, the raw value range, and the position after the value.
struct AttrPiece {
    name_start: usize,
    name_end_pos: usize,
    val_start: usize,
    val_end: usize,
    next: usize,
}

/// Parses the next attribute of the region, mirroring one step of the
/// attribute scan; `None` when the region is exhausted or malformed.
fn next_attr(cs: &Vec<char>, i: usize) -> (r: Option<AttrPiece>)
    requires
        i <= cs@.len(),
    ensures
        match r {
            Some(p) => {
                let j = ltrim(cs@, i as int, cs@.len() as int);
                let ne = attr_name_end(cs@, j);
                let eq = ltrim(cs@, ne, cs@.len() as int);
                let vq = ltrim(cs@, eq + 1, cs@.len() as int);
                let close = find_char(cs@, vq + 1, cs@[vq]);
                &&& j < cs@.len()
                &&& ne > j
                &&& eq < cs@.len() && cs@[eq as int] == '='
                &&& vq < cs@.len() && (cs@[vq as int] == '"' || cs@[vq as int] == '\'')
                &&& close < cs@.len()
                &&& p.name_start as int == j
                &&& p.name_end_pos as int == ne
                &&& p.val_start as int == vq + 1
                &&& p.val_end as int == close
                &&& p.next as int == close + 1
                &&& p.name_start <= p.name_end_pos <= cs@.len()
                &&& p.val_start <= p.val_end <= cs@.len()
                &&& p.next <= cs@.len()
                &&& i < p.next
            },
            None => {
                let j = ltrim(cs@, i as int, cs@.len() as int);
                let ne = attr_name_end(cs@, j);
                let eq = ltrim(cs@, ne, cs@.len() as int);
                let vq = ltrim(cs@, eq + 1, cs@.len() as int);
                j >= cs@.len() || ne == j || eq >= cs@.len() || cs@[eq as int] != '=' || vq
                    >= cs@.len() || (cs@[vq as int] != '"' && cs@[vq as int] != '\'') || find_char(
                    cs@,
                    vq + 1,
                    cs@[vq],
                ) >= cs@.len()
            },
        },
{
    proof {
        lemma_attr_scan_steps(cs@, i as int);
    }
    let j = ltrim_exec(cs, i, cs.len());
    if j >= cs.len() {
        return None;
    }
    let ne = attr_name_end_exec(cs, j);
    if ne == j {
        return None;
    }
    let eq = ltrim_exec(cs, ne, cs.len());
    if eq >= cs.len() {
        return None;
    }
    if cs[eq] != '=' {
        return None;
    }
    let vq = ltrim_exec(cs, eq + 1, cs.len());
    if vq >= cs.len() {
        return None;
    }
    let q = cs[vq];
    if q != '"' && q != '\'' {
        return None;
    }
    let close = find_char_exec(cs, vq + 1, q);
    if close >= cs.len() {
        return None;
    }
    Some(
        AttrPiece {
            name_start: j,
            name_end_pos: ne,
            val_start: vq + 1,
            val_end: close,
            next: close + 1,
        },
    )
}

/// Looks up an attribute by name in an attribute region and hands back its
/// raw (still escaped) value.
pub fn find_attr(attrs: &str, name: &str) -> (r: Option<String>)
    ensures
        match attr_scan(attrs@, 0, name@) {
            Some(v) => r matches Some(v2) && v2@ == v,
            None => r is None,
        },
{
    let cs = crate::chars::str_to_chars(attrs);
    let ns = crate::chars::str_to_chars(name);
    let mut i: usize = 0;
    loop
        invariant
            i <= cs@.len(),
            cs@ == attrs@,
            ns@ == name@,
            attr_scan(attrs@, 0, name@) == attr_scan(cs@, i as int, name@),
        decreases cs@.len() - i,
    {
        match next_attr(&cs, i) {
            None => {
                return None;
            },
            Some(p) => {
                if range_eq(&cs, p.name_start, p.name_end_pos, &ns) {
                    let v = copy_range(&cs, p.val_start, p.val_end);
                    let r = chars_to_string(&v);
                    return Some(r);
                }
                i = p.next;
            },
        }
    }
}

/// The raw value of the `content` attribute that follows a
/// `name="book-type"` attribute in the region, if both are present.
pub fn find_book_type(attrs: &str) -> (r: Option<String>)
    ensures
        match book_type_scan(attrs@, 0, false) {
            Some(v) => r matches Some(v2) && v2@ == v,
            None => r is None,
        },
{
    let cs = crate::chars::str_to_chars(attrs);
    let name_pat = crate::chars::str_to_chars("name");
    let book_pat = crate::chars::str_to_chars("book-type");
    let content_pat = crate::chars::str_to_chars("content");
    let mut marked: bool = false;
    let mut i: usize = 0;
    loop
        invariant
            i <= cs@.len(),
            cs@ == attrs@,
            name_pat@ == "name"@,
            book_pat@ == "book-type"@,
            content_pat@ == "content"@,
            book_type_scan(attrs@, 0, false) == book_type_scan(cs@, i as int, marked),
        decreases cs@.len() - i,
    {
        match next_attr(&cs, i) {
            None => {
                return None;
            },
            Some(p) => {
                if range_eq(&cs, p.name_start, p.name_end_pos, &name_pat) && range_eq(
                    &cs,
                    p.val_start,
                    p.val_end,
                    &book_pat,
                ) {
                    marked = true;
                } else if marked && range_eq(&cs, p.name_start, p.name_end_pos, &content_pat) {
                    let v = copy_range(&cs, p.val_start, p.val_end);
                    let r = chars_to_string(&v);
                    return Some(r);
                }
                i = p.next;
            },
        }
    }
}

// ---------------------------------------------------------------------------
// Unescaping
// ---------------------------------------------------------------------------

pub open spec fn is_hex_char(c: char) -> bool {
    is_digit_char(c) || (0x61 <= c as u32 && c as u32 <= 0x66) || (0x41 <= c as u32 && c as u32
        <= 0x46)
}

pub open spec fn hex_val(c: char) -> nat {
    if is_digit_char(c) {
        digit_val(c)
    } else if 0x61 <= c as u32 && c as u32 <= 0x66 {
        (c as u32 - 0x61 + 10) as nat
    } else {
        (c as u32 - 0x41 + 10) as nat
    }
}

/// The numeric value of the hexadecimal digits `s[c..d]`.
pub open spec fn hex_digits_val(s: Seq<char>, c: int, d: int) -> nat
    decreases d - c,
    when 0 <= c <= d <= s.len()
{
    if c >= d {
        0
    } else {
        hex_digits_val(s, c, d - 1) * 16 + hex_val(s[d - 1])
    }
}

pub open spec fn all_digits(s: Seq<char>, a: int, b: int) -> bool {
    forall|k: int| a <= k < b ==> is_digit_char(s[k])
}

pub open spec fn all_hex(s: Seq<char>, a: int, b: int) -> bool {
    forall|k: int| a <= k < b ==> is_hex_char(s[k])
}

/// The character with scalar value `v`, if `v` is a Unicode scalar value.
pub open spec fn scalar_char(v: nat) -> Option<char> {
    if v < 0xD800 || (0xDFFF < v && v <= 0x10FFFF) {
        Some((v as u32) as char)
    } else {
        None
    }
}

/// The character an entity body (the text between `&` and `;`) stands
/// for: one of the five predefined entities, or a decimal or hexadecimal
/// character reference denoting a Unicode scalar value.
pub open spec fn entity_char(e: Seq<char>) -> Option<char> {
    if e.len() == 2 && e[0] == 'l' && e[1] == 't' {
        Some('<')
    } else if e.len() == 2 && e[0] == 'g' && e[1] == 't' {
        Some('>')
    } else if e.len() == 3 && e[0] == 'a' && e[1] == 'm' && e[2] == 'p' {
        Some('&')
    } else if e.len() == 4 && e[0] == 'a' && e[1] == 'p' && e[2] == 'o' && e[3] == 's' {
        Some('\'')
    } else if e.len() == 4 && e[0] == 'q' && e[1] == 'u' && e[2] == 'o' && e[3] == 't' {
        Some('"')
    } else if e.len() >= 3 && e[0] == '#' && (e[1] == 'x' || e[1] == 'X') && all_hex(
        e,
        2,
        e.len() as int,
    ) {
        scalar_char(hex_digits_val(e, 2, e.len() as int))
    } else if e.len() >= 2 && e[0] == '#' && all_digits(e, 1, e.len() as int) {
        scalar_char(digits_val(e, 1, e.len() as int))
    } else {
        None
    }
}

/// The suffix of `s` from `i` with every character entity replaced by the
/// character it stands for; nothing if an entity is unterminated or
/// unknown.
pub open spec fn unesc_from(s: Seq<char>, i: int) -> Option<Seq<char>>
    decreases s.len() - i,
    when 0 <= i <= s.len()
    via unesc_from_dec
{
    if i >= s.len() {
        Some(Seq::empty())
    } else if s[i] == '&' {
        let semi = find_char(s, i + 1, ';');
        if semi >= s.len() {
            None
        } else {
            match entity_char(s.subrange(i + 1, semi)) {
                Some(c) => match unesc_from(s, semi + 1) {
                    Some(rest) => Some(seq![c] + rest),
                    None => None,
                },
                None => None,
            }
        }
    } else {
        match unesc_from(s, i + 1) {
            Some(rest) => Some(seq![s[i]] + rest),
            None => None,
        }
    }
}

#[via_fn]
proof fn unesc_from_dec(s: Seq<char>, i: int) {
    if 0 <= i < s.len() && s[i] == '&' {
        lemma_find_char(s, i + 1, ';');
    }
}

pub open spec fn spec_unescape(s: Seq<char>) -> Option<Seq<char>> {
    unesc_from(s, 0)
}

/// Relies on `char::from_u32`: the character with the given code point
/// for every Unicode scalar value, and nothing for surrogate values or
/// values past the last code point.
pub assume_specification[ char::from_u32 ](i: u32) -> (r: Option<char>)
    ensures
        (i < 0xD800 || (0xDFFF < i && i <= 0x10FFFF)) ==> r == Some(i as char),
        !(i < 0xD800 || (0xDFFF < i && i <= 0x10FFFF)) ==> r is None,
;

fn parse_scalar(ent: &Vec<char>, start: usize, hex: bool) -> (r: Option<char>)
    requires
        start <= ent@.len(),
    ensures
        hex ==> r == (if all_hex(ent@, start as int, ent@.len() as int) {
            scalar_char(hex_digits_val(ent@, start as int, ent@.len() as int))
        } else {
            None::<char>
        }),
        !hex ==> r == (if all_digits(ent@, start as int, ent@.len() as int) {
            scalar_char(digits_val(ent@, start as int, ent@.len() as int))
        } else {
            None::<char>
        }),
{
    let mut v: u32 = 0;
    let mut big: bool = false;
    let mut j: usize = start;
    while j < ent.len()
        invariant
            start <= j <= ent@.len(),
            hex ==> all_hex(ent@, start as int, j as int),
            !hex ==> all_digits(ent@, start as int, j as int),
            hex ==> (if big {
                hex_digits_val(ent@, start as int, j as int) > 0x10FFFF
            } else {
                v as nat == hex_digits_val(ent@, start as int, j as int) && v <= 0x10FFFF
            }),
            !hex ==> (if big {
                digits_val(ent@, start as int, j as int) > 0x10FFFF
            } else {
                v as nat == digits_val(ent@, start as int, j as int) && v <= 0x10FFFF
            }),
        decreases ent@.len() - j,
    {
        let c = ent[j];
        let u: u32 = c as u32;
        let d: u32 = if hex {
            if 0x30 <= u && u <= 0x39 {
                u - 0x30
            } else if 0x61 <= u && u <= 0x66 {
                u - 0x61 + 10
            } else if 0x41 <= u && u <= 0x46 {
                u - 0x41 + 10
            } else {
                return None;
            }
        } else {
            if 0x30 <= u && u <= 0x39 {
                u - 0x30
            } else {
                return None;
            }
        };
        proof {
            assert(hex ==> is_hex_char(ent@[j as int]));
            assert(!hex ==> is_digit_char(ent@[j as int]));
            assert(hex_digits_val(ent@, start as int, j as int + 1) == hex_digits_val(
                ent@,
                start as int,
                j as int,
            ) * 16 + hex_val(ent@[j as int]));
            assert(digits_val(ent@, start as int, j as int + 1) == digits_val(
                ent@,
                start as int,
                j as int,
            ) * 10 + digit_val(ent@[j as int]));
        }
        if !big {
            let base: u32 = if hex {
                16
            } else {
                10
            };
            let v2: u32 = v * base + d;
            if v2 > 0x10FFFF {
                big = true;
            }
            v = v2;
        } else {
            proof {
                let w = if hex {
                    hex_digits_val(ent@, start as int, j as int)
                } else {
                    digits_val(ent@, start as int, j as int)
                };
                assert(w * 16 >= w && w * 10 >= w) by (nonlinear_arith)
                    requires
                        w >= 0,
                ;
            }
        }
        j = j + 1;
    }
    if big {
        return None;
    }
    char::from_u32(v)
}

fn entity_char_exec(ent: &Vec<char>) -> (r: Option<char>)
    ensures
        r == entity_char(ent@),
{
    let n = ent.len();
    if n == 2 && ent[0] == 'l' && ent[1] == 't' {
        Some('<')
    } else if n == 2 && ent[0] == 'g' && ent[1] == 't' {
        Some('>')
    } else if n == 3 && ent[0] == 'a' && ent[1] == 'm' && ent[2] == 'p' {
        Some('&')
    } else if n == 4 && ent[0] == 'a' && ent[1] == 'p' && ent[2] == 'o' && ent[3] == 's' {
        Some('\'')
    } else if n == 4 && ent[0] == 'q' && ent[1] == 'u' && ent[2] == 'o' && ent[3] == 't' {
        Some('"')
    } else if n >= 3 && ent[0] == '#' && (ent[1] == 'x' || ent[1] == 'X') {
        parse_scalar(ent, 2, true)
    } else if n >= 2 && ent[0] == '#' {
        parse_scalar(ent, 1, false)
    } else {
        None
    }
}

/// Replaces the five predefined character entities and numeric character
/// references by the characters they stand for; fails on an unterminated
/// or unknown entity.
pub fn unescape(s: &str) -> (r: Option<String>)
    ensures
        match spec_unescape(s@) {
            Some(u) => r matches Some(r2) && r2@ == u,
            None => r is None,
        },
{
    let cs = crate::chars::str_to_chars(s);
    let mut out: Vec<char> = Vec::new();
    let mut i: usize = 0;
    while i < cs.len()
        invariant
            i <= cs@.len(),
            cs@ == s@,
            match unesc_from(cs@, i as int) {
                Some(rest) => unesc_from(cs@, 0) == Some(out@ + rest),
                None => unesc_from(cs@, 0) is None,
            },
        decreases cs@.len() - i,
    {
        let ghost prev = out@;
        let ghost pi = i as int;
        let c = cs[i];
        if c == '&' {
            let semi = find_char_exec(&cs, i + 1, ';');
            if semi >= cs.len() {
                return None;
            }
            let ent = copy_range(&cs, i + 1, semi);
            match entity_char_exec(&ent) {
                Some(ch) => {
                    out.push(ch);
                    i = semi + 1;
                    proof {
                        match unesc_from(cs@, i as int) {
                            Some(rest2) => {
                                assert(prev + (seq![ch] + rest2) =~= out@ + rest2);
                            },
                            None => {},
                        }
                    }
                },
                None => {
                    return None;
                },
            }
        } else {
            out.push(c);
            i = i + 1;
            proof {
                match unesc_from(cs@, pi + 1) {
                    Some(rest2) => {
                        assert(prev + (seq![c] + rest2) =~= out@ + rest2);
                    },
                    None => {},
                }
            }
        }
    }
    proof {
        assert(out@ + Seq::<char>::empty() =~= out@);
    }
    Some(chars_to_string(&out))
}

} // verus!
