//! The text-normalization pipeline: an ordered sequence of pure string
//! transforms applied to extracted author and title strings. Later stages
//! assume the normal form produced by earlier ones, so the order in which
//! callers apply them matters.

use vstd::prelude::*;
use crate::chars::{
    is_space_char, is_digit_char, digit_val, is_space, is_digit, str_to_chars, chars_to_string,
};

verus! {

// ---------------------------------------------------------------------------
// Half-width folding
// ---------------------------------------------------------------------------

/// Maps a full-width character (code points 0xFF01..=0xFF5E) to its ASCII
/// equivalent; every other character passes through unchanged.
pub open spec fn fold_char(c: char) -> char {
    if 0xFF01 <= c as u32 && c as u32 <= 0xFF5E {
        ((c as u32 - 0xFF00 + 0x20) as u8) as char
    } else {
        c
    }
}

pub open spec fn fold_seq(s: Seq<char>) -> Seq<char> {
    s.map_values(|c: char| fold_char(c))
}

fn fold_char_exec(c: char) -> (r: char)
    ensures
        r == fold_char(c),
{
    let u: u32 = c as u32;
    if 0xFF01 <= u && u <= 0xFF5E {
        ((u - 0xFF00 + 0x20) as u8) as char
    } else {
        c
    }
}

/// Replaces every full-width ASCII-lookalike character by its ASCII
/// equivalent; all other characters pass through unchanged.
pub fn to_half_width(input: &str) -> (r: String)
    ensures
        r@ == fold_seq(input@),
{
    let cs = str_to_chars(input);
    let mut out: Vec<char> = Vec::new();
    let mut i: usize = 0;
    while i < cs.len()
        invariant
            cs@ == input@,
            i <= cs@.len(),
            out@.len() == i,
            forall|j: int| 0 <= j < i ==> out@[j] == fold_char(cs@[j]),
        decreases cs@.len() - i,
    {
        out.push(fold_char_exec(cs[i]));
        i = i + 1;
    }
    proof {
        assert(out@ =~= fold_seq(input@));
    }
    chars_to_string(&out)
}

/// Half-width folding is idempotent: folding an already folded string
/// changes nothing.
pub proof fn lemma_half_width_idempotent(s: Seq<char>)
    ensures
        fold_seq(fold_seq(s)) == fold_seq(s),
{
    assert forall|i: int| 0 <= i < s.len() implies fold_char(fold_char(s[i])) == fold_char(
        s[i],
    ) by {
        let c = s[i];
        if 0xFF01 <= c as u32 && c as u32 <= 0xFF5E {
            assert((fold_char(c) as u32) < 0xFF01);
        }
    }
    assert(fold_seq(fold_seq(s)) =~= fold_seq(s));
}

// ---------------------------------------------------------------------------
// Unsafe-symbol substitution
// ---------------------------------------------------------------------------

/// The nine filesystem-hostile characters.
pub open spec fn is_unsafe_char(c: char) -> bool {
    c == '<' || c == '>' || c == ':' || c == '"' || c == '/' || c == '\\' || c == '!' || c == '?'
        || c == '*'
}

/// Maps each filesystem-hostile character to a visually similar full-width
/// character; every other character passes through unchanged.
pub open spec fn sub_char(c: char) -> char {
    if c == '<' {
        '\u{FF1C}'
    } else if c == '>' {
        '\u{FF1E}'
    } else if c == ':' {
        '\u{FF1A}'
    } else if c == '"' {
        '\u{FF02}'
    } else if c == '/' {
        '\u{FF0F}'
    } else if c == '\\' {
        '\u{FFE5}'
    } else if c == '!' {
        '\u{FF01}'
    } else if c == '?' {
        '\u{FF1F}'
    } else if c == '*' {
        '\u{FF0A}'
    } else {
        c
    }
}

pub open spec fn sub_seq(s: Seq<char>) -> Seq<char> {
    s.map_values(|c: char| sub_char(c))
}

fn sub_char_exec(c: char) -> (r: char)
    ensures
        r == sub_char(c),
{
    match c {
        '<' => '\u{FF1C}',
        '>' => '\u{FF1E}',
        ':' => '\u{FF1A}',
        '"' => '\u{FF02}',
        '/' => '\u{FF0F}',
        '\\' => '\u{FFE5}',
        '!' => '\u{FF01}',
        '?' => '\u{FF1F}',
        '*' => '\u{FF0A}',
        _ => c,
    }
}

/// Replaces each filesystem-hostile character by a visually similar
/// full-width one, so the result is safe to use as a path component.
pub fn replace_unsafe_symbols(input: &str) -> (r: String)
    ensures
        r@ == sub_seq(input@),
{
    let cs = str_to_chars(input);
    let mut out: Vec<char> = Vec::new();
    let mut i: usize = 0;
    while i < cs.len()
        invariant
            cs@ == input@,
            i <= cs@.len(),
            out@.len() == i,
            forall|j: int| 0 <= j < i ==> out@[j] == sub_char(cs@[j]),
        decreases cs@.len() - i,
    {
        out.push(sub_char_exec(cs[i]));
        i = i + 1;
    }
    proof {
        assert(out@ =~= sub_seq(input@));
    }
    chars_to_string(&out)
}

/// Unsafe-symbol substitution is injective on the nine target characters:
/// distinct hostile characters map to distinct replacements.
pub proof fn lemma_substitution_injective(c1: char, c2: char)
    requires
        is_unsafe_char(c1),
        is_unsafe_char(c2),
        c1 != c2,
    ensures
        sub_char(c1) != sub_char(c2),
{
}

/// Unsafe-symbol substitution is the identity away from the nine target
/// characters: a string containing none of them comes back unchanged.
pub proof fn lemma_substitution_identity(s: Seq<char>)
    requires
        forall|i: int| 0 <= i < s.len() ==> !is_unsafe_char(s[i]),
    ensures
        sub_seq(s) == s,
{
    assert forall|i: int| 0 <= i < s.len() implies sub_char(s[i]) == s[i] by {
        assert(!is_unsafe_char(s[i]));
    }
    assert(sub_seq(s) =~= s);
}

// ---------------------------------------------------------------------------
// Round-bracket normalization
// ---------------------------------------------------------------------------

/// Maps the full-width parentheses to their ASCII forms; every other
/// character passes through unchanged.
pub open spec fn bracket_char(c: char) -> char {
    if c == '\u{FF08}' {
        '('
    } else if c == '\u{FF09}' {
        ')'
    } else {
        c
    }
}

pub open spec fn bracket_seq(s: Seq<char>) -> Seq<char> {
    s.map_values(|c: char| bracket_char(c))
}

fn bracket_char_exec(c: char) -> (r: char)
    ensures
        r == bracket_char(c),
{
    match c {
        '\u{FF08}' => '(',
        '\u{FF09}' => ')',
        _ => c,
    }
}

/// Converts full-width parentheses to ASCII `(` and `)`.
pub fn replace_round_brackets(input: &str) -> (r: String)
    ensures
        r@ == bracket_seq(input@),
{
    let cs = str_to_chars(input);
    let mut out: Vec<char> = Vec::new();
    let mut i: usize = 0;
    while i < cs.len()
        invariant
            cs@ == input@,
            i <= cs@.len(),
            out@.len() == i,
            forall|j: int| 0 <= j < i ==> out@[j] == bracket_char(cs@[j]),
        decreases cs@.len() - i,
    {
        out.push(bracket_char_exec(cs[i]));
        i = i + 1;
    }
    proof {
        assert(out@ =~= bracket_seq(input@));
    }
    chars_to_string(&out)
}

// ---------------------------------------------------------------------------
// Space collapsing
// ---------------------------------------------------------------------------

/// The first position at or after `i` that does not hold a whitespace
/// character (or the end of the string).
pub open spec fn skip_spaces(s: Seq<char>, i: int) -> int
    decreases s.len() - i,
    when 0 <= i <= s.len()
{
    if i < s.len() && is_space_char(s[i]) {
        skip_spaces(s, i + 1)
    } else {
        i
    }
}

pub proof fn lemma_skip_spaces(s: Seq<char>, i: int)
    requires
        0 <= i <= s.len(),
    ensures
        i <= skip_spaces(s, i) <= s.len(),
        skip_spaces(s, i) < s.len() ==> !is_space_char(s[skip_spaces(s, i)]),
        forall|k: int| i <= k < skip_spaces(s, i) ==> is_space_char(s[k]),
        i < s.len() && is_space_char(s[i]) ==> skip_spaces(s, i) > i,
    decreases s.len() - i,
{
    if i < s.len() && is_space_char(s[i]) {
        lemma_skip_spaces(s, i + 1);
    }
}

/// The suffix of `s` from `i` with every whitespace run collapsed to a
/// single ASCII space and a trailing run dropped entirely.
pub open spec fn collapse_from(s: Seq<char>, i: int) -> Seq<char>
    decreases s.len() - i,
    when 0 <= i <= s.len()
    via collapse_from_dec
{
    if i >= s.len() {
        Seq::empty()
    } else if !is_space_char(s[i]) {
        seq![s[i]] + collapse_from(s, i + 1)
    } else {
        if skip_spaces(s, i) >= s.len() {
            Seq::empty()
        } else {
            seq![' '] + collapse_from(s, skip_spaces(s, i))
        }
    }
}

#[via_fn]
proof fn collapse_from_dec(s: Seq<char>, i: int) {
    if 0 <= i < s.len() && is_space_char(s[i]) {
        lemma_skip_spaces(s, i);
    }
}

/// The whole string with whitespace runs collapsed to single spaces and
/// leading/trailing whitespace removed.
pub open spec fn spec_remove_spaces(s: Seq<char>) -> Seq<char> {
    collapse_from(s, skip_spaces(s, 0))
}

fn skip_spaces_exec(cs: &Vec<char>, i: usize) -> (r: usize)
    requires
        i <= cs@.len(),
    ensures
        r == skip_spaces(cs@, i as int),
        i <= r <= cs@.len(),
{
    let mut r: usize = i;
    while r < cs.len() && is_space(cs[r])
        invariant
            i <= r <= cs@.len(),
            skip_spaces(cs@, i as int) == skip_spaces(cs@, r as int),
        decreases cs@.len() - r,
    {
        r = r + 1;
    }
    proof {
        lemma_skip_spaces(cs@, r as int);
    }
    r
}

/// Collapses every run of whitespace to a single ASCII space and trims
/// leading and trailing whitespace.
pub fn remove_spaces(input: &str) -> (r: String)
    ensures
        r@ == spec_remove_spaces(input@),
{
    let cs = str_to_chars(input);
    let mut out: Vec<char> = Vec::new();
    let mut i: usize = skip_spaces_exec(&cs, 0);
    while i < cs.len()
        invariant
            cs@ == input@,
            i <= cs@.len(),
            spec_remove_spaces(cs@) == out@ + collapse_from(cs@, i as int),
        decreases cs@.len() - i,
    {
        if !is_space(cs[i]) {
            out.push(cs[i]);
            i = i + 1;
        } else {
            let j = skip_spaces_exec(&cs, i);
            if j < cs.len() {
                out.push(' ');
            }
            i = j;
        }
        proof {
            assert(spec_remove_spaces(cs@) =~= out@ + collapse_from(cs@, i as int));
        }
    }
    proof {
        assert(spec_remove_spaces(cs@) =~= out@);
    }
    chars_to_string(&out)
}

/// The normal form that space collapsing produces: every whitespace
/// character in the string is a single ASCII space with non-space
/// characters on both sides.
pub open spec fn is_collapsed(t: Seq<char>) -> bool {
    &&& forall|k: int| 0 <= k < t.len() && is_space_char(t[k]) ==> t[k] == ' '
    &&& t.len() > 0 ==> !is_space_char(t[0])
    &&& t.len() > 0 ==> !is_space_char(t[t.len() - 1])
    &&& forall|k: int|
        0 <= k < t.len() - 1 ==> !(is_space_char(#[trigger] t[k]) && is_space_char(t[k + 1]))
}

proof fn lemma_collapse_from_shape(s: Seq<char>, i: int)
    requires
        0 <= i <= s.len(),
    ensures
        ({
            let t = collapse_from(s, i);
            &&& forall|k: int| 0 <= k < t.len() && is_space_char(t[k]) ==> t[k] == ' '
            &&& t.len() > 0 ==> !is_space_char(t[t.len() - 1])
            &&& forall|k: int|
                0 <= k < t.len() - 1 ==> !(is_space_char(#[trigger] t[k]) && is_space_char(t[k + 1]))
            &&& i < s.len() && !is_space_char(s[i]) ==> t.len() > 0 && t[0] == s[i]
            &&& t.len() > 0 && is_space_char(t[0]) ==> t[0] == ' ' && t.len() >= 2
                && !is_space_char(t[1])
        }),
    decreases s.len() - i,
{
    let t = collapse_from(s, i);
    if i >= s.len() {
    } else if !is_space_char(s[i]) {
        lemma_collapse_from_shape(s, i + 1);
        let r = collapse_from(s, i + 1);
        assert(t == seq![s[i]] + r);
        assert(t[0] == s[i]);
        assert forall|k: int| 0 <= k < t.len() && is_space_char(t[k]) implies t[k] == ' ' by {
            if k > 0 {
                assert(t[k] == r[k - 1]);
            }
        }
        assert forall|k: int|
            0 <= k < t.len() - 1 implies !(is_space_char(#[trigger] t[k]) && is_space_char(t[k + 1])) by {
            if k > 0 {
                assert(t[k] == r[k - 1] && t[k + 1] == r[k]);
            } else {
                assert(t[0] == s[i]);
            }
        }
        if t.len() > 0 {
            if r.len() > 0 {
                assert(t[t.len() - 1] == r[r.len() - 1]);
            } else {
                assert(t[t.len() - 1] == s[i]);
            }
        }
    } else {
        lemma_skip_spaces(s, i);
        let j = skip_spaces(s, i);
        if j >= s.len() {
        } else {
            lemma_collapse_from_shape(s, j);
            let r = collapse_from(s, j);
            assert(!is_space_char(s[j]));
            assert(t == seq![' '] + r);
            assert(r.len() > 0 && r[0] == s[j]);
            assert(t[1] == r[0]);
            assert forall|k: int| 0 <= k < t.len() && is_space_char(t[k]) implies t[k] == ' ' by {
                if k > 0 {
                    assert(t[k] == r[k - 1]);
                }
            }
            assert forall|k: int|
                0 <= k < t.len() - 1 implies !(is_space_char(#[trigger] t[k]) && is_space_char(t[k + 1])) by {
                if k > 0 {
                    assert(t[k] == r[k - 1] && t[k + 1] == r[k]);
                }
            }
            assert(t[t.len() - 1] == r[r.len() - 1]);
        }
    }
}

/// Space collapsing never leaves leading or trailing whitespace, maps every
/// whitespace character to a single ASCII space, and never leaves two
/// adjacent spaces.
pub proof fn lemma_remove_spaces_collapsed(s: Seq<char>)
    ensures
        is_collapsed(spec_remove_spaces(s)),
{
    lemma_skip_spaces(s, 0);
    let start = skip_spaces(s, 0);
    lemma_collapse_from_shape(s, start);
    let t = spec_remove_spaces(s);
    if t.len() > 0 {
        if start < s.len() {
            assert(t[0] == s[start]);
        }
    }
}

proof fn lemma_collapse_fixed(t: Seq<char>, i: int)
    requires
        is_collapsed(t),
        0 <= i <= t.len(),
    ensures
        collapse_from(t, i) == t.subrange(i, t.len() as int),
    decreases t.len() - i,
{
    if i >= t.len() {
        assert(collapse_from(t, i) =~= t.subrange(i, t.len() as int));
    } else if !is_space_char(t[i]) {
        lemma_collapse_fixed(t, i + 1);
        assert(seq![t[i]] + t.subrange(i + 1, t.len() as int) =~= t.subrange(i, t.len() as int));
    } else {
        // `t` is collapsed, so t[i] == ' ', i is not the last position, and
        // the next character is not whitespace.
        assert(t[i] == ' ');
        assert(i < t.len() - 1);
        assert(!is_space_char(t[i + 1]));
        assert(skip_spaces(t, i) == skip_spaces(t, i + 1));
        assert(skip_spaces(t, i + 1) == i + 1);
        lemma_collapse_fixed(t, i + 1);
        assert(seq![' '] + t.subrange(i + 1, t.len() as int) =~= t.subrange(i, t.len() as int));
    }
}

/// Space collapsing is idempotent: collapsing an already collapsed string
/// changes nothing.
pub proof fn lemma_remove_spaces_idempotent(s: Seq<char>)
    ensures
        spec_remove_spaces(spec_remove_spaces(s)) == spec_remove_spaces(s),
{
    lemma_remove_spaces_collapsed(s);
    let t = spec_remove_spaces(s);
    if t.len() == 0 {
        assert(skip_spaces(t, 0) == 0);
        assert(spec_remove_spaces(t) =~= t);
    } else {
        assert(!is_space_char(t[0]));
        assert(skip_spaces(t, 0) == 0);
        lemma_collapse_fixed(t, 0);
        assert(t.subrange(0, t.len() as int) =~= t);
    }
}

// ---------------------------------------------------------------------------
// Character-list removal
// ---------------------------------------------------------------------------

/// The literal pattern `p` occurs in `s` starting at position `i`.
pub open spec fn pattern_at(s: Seq<char>, p: Seq<char>, i: int) -> bool {
    i + p.len() <= s.len() && s.subrange(i, i + p.len()) == p
}

/// The suffix of `s` from `i` with every (leftmost, non-overlapping)
/// occurrence of the non-empty pattern `p` removed.
pub open spec fn remove_all_from(s: Seq<char>, p: Seq<char>, i: int) -> Seq<char>
    decreases s.len() - i,
    when 0 <= i <= s.len() && p.len() > 0
{
    if i >= s.len() {
        Seq::empty()
    } else if pattern_at(s, p, i) {
        remove_all_from(s, p, i + p.len())
    } else {
        seq![s[i]] + remove_all_from(s, p, i + 1)
    }
}

/// `s` with every occurrence of the literal `p` removed; an empty pattern
/// removes nothing.
pub open spec fn remove_all(s: Seq<char>, p: Seq<char>) -> Seq<char> {
    if p.len() == 0 {
        s
    } else {
        remove_all_from(s, p, 0)
    }
}

/// `s` with each listed literal removed in turn, in list order.
pub open spec fn remove_list(s: Seq<char>, ps: Seq<Seq<char>>) -> Seq<char>
    decreases ps.len(),
{
    if ps.len() == 0 {
        s
    } else {
        remove_list(remove_all(s, ps[0]), ps.drop_first())
    }
}

fn pattern_at_exec(cs: &Vec<char>, p: &Vec<char>, i: usize) -> (r: bool)
    requires
        i <= cs@.len(),
    ensures
        r == pattern_at(cs@, p@, i as int),
{
    if p.len() > cs.len() - i {
        proof {
            assert(!pattern_at(cs@, p@, i as int));
        }
        return false;
    }
    let n: usize = cs.len();
    let mut k: usize = 0;
    while k < p.len()
        invariant
            n == cs@.len(),
            i + p@.len() <= cs@.len(),
            k <= p@.len(),
            forall|m: int| 0 <= m < k ==> cs@[i + m] == p@[m],
        decreases p@.len() - k,
    {
        if cs[i + k] != p[k] {
            proof {
                assert(cs@.subrange(i as int, i + p@.len())[k as int] != p@[k as int]);
            }
            return false;
        }
        k = k + 1;
    }
    proof {
        assert(cs@.subrange(i as int, i + p@.len()) =~= p@);
    }
    true
}

fn remove_all_exec(cs: &Vec<char>, p: &Vec<char>) -> (r: Vec<char>)
    ensures
        r@ == remove_all(cs@, p@),
{
    if p.len() == 0 {
        let mut out: Vec<char> = Vec::new();
        let mut i: usize = 0;
        while i < cs.len()
            invariant
                i <= cs@.len(),
                out@ == cs@.subrange(0, i as int),
            decreases cs@.len() - i,
        {
            out.push(cs[i]);
            i = i + 1;
            proof {
                assert(out@ =~= cs@.subrange(0, i as int));
            }
        }
        proof {
            assert(out@ =~= cs@);
        }
        return out;
    }
    let mut out: Vec<char> = Vec::new();
    let mut i: usize = 0;
    while i < cs.len()
        invariant
            p@.len() > 0,
            i <= cs@.len(),
            remove_all(cs@, p@) == out@ + remove_all_from(cs@, p@, i as int),
        decreases cs@.len() - i,
    {
        if pattern_at_exec(cs, p, i) {
            i = i + p.len();
        } else {
            out.push(cs[i]);
            i = i + 1;
        }
        proof {
            assert(remove_all(cs@, p@) =~= out@ + remove_all_from(cs@, p@, i as int));
        }
    }
    proof {
        assert(remove_all(cs@, p@) =~= out@);
    }
    out
}

/// The views of a list of owned strings.
pub open spec fn views_of(ps: Seq<String>) -> Seq<Seq<char>> {
    ps.map_values(|p: String| p@)
}

/// Removes every occurrence of each listed literal substring from the
/// input, taking the literals in list order.
pub fn remove_characters(patterns: &Vec<String>, input: &str) -> (r: String)
    ensures
        r@ == remove_list(input@, views_of(patterns@)),
{
    let mut cur: Vec<char> = str_to_chars(input);
    proof {
        assert(views_of(patterns@).skip(0) =~= views_of(patterns@));
    }
    let mut k: usize = 0;
    while k < patterns.len()
        invariant
            k <= patterns@.len(),
            remove_list(input@, views_of(patterns@)) == remove_list(
                cur@,
                views_of(patterns@).skip(k as int),
            ),
        decreases patterns@.len() - k,
    {
        let p = str_to_chars(patterns[k].as_str());
        proof {
            let vs = views_of(patterns@);
            assert(vs.skip(k as int)[0] == vs[k as int]);
            assert(vs.skip(k as int).drop_first() =~= vs.skip(k as int + 1));
        }
        cur = remove_all_exec(&cur, &p);
        k = k + 1;
    }
    proof {
        assert(remove_list(cur@, views_of(patterns@).skip(patterns@.len() as int)) == cur@);
    }
    chars_to_string(&cur)
}

/// The suffix of `s` from `i` with every (leftmost, non-overlapping)
/// occurrence of the non-empty pattern `p` replaced by `r`.
pub open spec fn replace_all_from(s: Seq<char>, p: Seq<char>, r: Seq<char>, i: int) -> Seq<char>
    decreases s.len() - i,
    when 0 <= i <= s.len() && p.len() > 0
{
    if i >= s.len() {
        Seq::empty()
    } else if pattern_at(s, p, i) {
        r + replace_all_from(s, p, r, i + p.len())
    } else {
        seq![s[i]] + replace_all_from(s, p, r, i + 1)
    }
}

/// `s` with every occurrence of the literal `p` replaced by `r`; an empty
/// pattern replaces nothing.
pub open spec fn spec_replace_all(s: Seq<char>, p: Seq<char>, r: Seq<char>) -> Seq<char> {
    if p.len() == 0 {
        s
    } else {
        replace_all_from(s, p, r, 0)
    }
}

/// Replaces every occurrence of the literal `pat` by `repl`.
pub fn replace_literal(input: &str, pat: &str, repl: &str) -> (r: String)
    ensures
        r@ == spec_replace_all(input@, pat@, repl@),
{
    let cs = str_to_chars(input);
    let p = str_to_chars(pat);
    let rv = str_to_chars(repl);
    if p.len() == 0 {
        let copy = str_to_chars(input);
        return chars_to_string(&copy);
    }
    let mut out: Vec<char> = Vec::new();
    let mut i: usize = 0;
    while i < cs.len()
        invariant
            p@.len() > 0,
            i <= cs@.len(),
            cs@ == input@,
            p@ == pat@,
            rv@ == repl@,
            spec_replace_all(cs@, p@, rv@) == out@ + replace_all_from(cs@, p@, rv@, i as int),
        decreases cs@.len() - i,
    {
        if pattern_at_exec(&cs, &p, i) {
            let mut k: usize = 0;
            let ghost mid = out@;
            while k < rv.len()
                invariant
                    k <= rv@.len(),
                    out@ == mid + rv@.subrange(0, k as int),
                decreases rv@.len() - k,
            {
                out.push(rv[k]);
                k = k + 1;
                proof {
                    assert(out@ =~= mid + rv@.subrange(0, k as int));
                }
            }
            proof {
                assert(mid + rv@.subrange(0, rv@.len() as int) =~= mid + rv@);
            }
            i = i + p.len();
        } else {
            out.push(cs[i]);
            i = i + 1;
        }
        proof {
            assert(spec_replace_all(cs@, p@, rv@) =~= out@ + replace_all_from(
                cs@,
                p@,
                rv@,
                i as int,
            ));
        }
    }
    proof {
        assert(spec_replace_all(cs@, p@, rv@) =~= out@);
    }
    chars_to_string(&out)
}

/// The patch applied to each XHTML content entry when repairing an
/// archive: the non-breaking-space entity is rewritten to its numeric
/// form, and a bare `<html>` opening tag is rewritten to a full XHTML
/// prologue.
pub fn fix_xhtml_content(input: &str) -> (r: String)
    ensures
        r@ == spec_replace_all(
            spec_replace_all(input@, "&nbsp;"@, "&#160;"@),
            "<html>"@,
            "<?xml version=\"1.0\" encoding=\"utf-8\"?><!DOCTYPE html><html xmlns=\"http://www.w3.org/1999/xhtml\" xmlns:epub=\"http://www.idpf.org/2007/ops\" xml:lang=\"ja\" lang=\"ja\">"@,
        ),
{
    let step = replace_literal(input, "&nbsp;", "&#160;");
    replace_literal(
        step.as_str(),
        "<html>",
        "<?xml version=\"1.0\" encoding=\"utf-8\"?><!DOCTYPE html><html xmlns=\"http://www.w3.org/1999/xhtml\" xmlns:epub=\"http://www.idpf.org/2007/ops\" xml:lang=\"ja\" lang=\"ja\">",
    )
}

// ---------------------------------------------------------------------------
// Volume-number padding
// ---------------------------------------------------------------------------

/// The first position at or after `i` that does not hold a decimal digit
/// (or the end of the string).
pub open spec fn skip_digits(s: Seq<char>, i: int) -> int
    decreases s.len() - i,
    when 0 <= i <= s.len()
{
    if i < s.len() && is_digit_char(s[i]) {
        skip_digits(s, i + 1)
    } else {
        i
    }
}

pub proof fn lemma_skip_digits(s: Seq<char>, i: int)
    requires
        0 <= i <= s.len(),
    ensures
        i <= skip_digits(s, i) <= s.len(),
        skip_digits(s, i) < s.len() ==> !is_digit_char(s[skip_digits(s, i)]),
        forall|k: int| i <= k < skip_digits(s, i) ==> is_digit_char(s[k]),
    decreases s.len() - i,
{
    if i < s.len() && is_digit_char(s[i]) {
        lemma_skip_digits(s, i + 1);
    }
}

/// The numeric value of the decimal digits `s[c..d]`.
pub open spec fn digits_val(s: Seq<char>, c: int, d: int) -> nat
    decreases d - c,
    when 0 <= c <= d <= s.len()
{
    if c >= d {
        0
    } else {
        digits_val(s, c, d - 1) * 10 + digit_val(s[d - 1])
    }
}

pub open spec fn pow10(k: nat) -> nat
    decreases k,
{
    if k == 0 {
        1
    } else {
        10 * pow10((k - 1) as nat)
    }
}

/// The decimal digit character for a value below ten.
pub open spec fn digit_char(n: nat) -> char {
    ((0x30 + n) as u8) as char
}

/// The decimal rendering of `n`, without leading zeros.
pub open spec fn dec_digits(n: nat) -> Seq<char>
    decreases n,
{
    if n < 10 {
        seq![digit_char(n)]
    } else {
        dec_digits(n / 10).push(digit_char(n % 10))
    }
}

/// The canonical volume-number rendering: at least two digits, zero-padded.
pub open spec fn two_digit(n: nat) -> Seq<char> {
    if n < 10 {
        seq!['0', digit_char(n)]
    } else {
        dec_digits(n)
    }
}

/// A volume-number candidate anywhere in the string: optional whitespace,
/// an optionally parenthesized digit run, then at least one whitespace
/// character, all starting at `i`. Yields the position just past the match
/// and the numeric value. A run of more than nine digits, or one that is
/// the tail of a longer run, is not a volume number.
pub open spec fn match_ws(s: Seq<char>, i: int) -> Option<(int, nat)> {
    let a = skip_spaces(s, i);
    let b = if a < s.len() && s[a] == '(' {
        a + 1
    } else {
        a
    };
    let c = skip_spaces(s, b);
    let d = skip_digits(s, c);
    if d == c || d - c > 9 || !(c == 0 || !is_digit_char(s[c - 1])) {
        None
    } else {
        let v = digits_val(s, c, d);
        let e = skip_spaces(s, d);
        if e < s.len() && s[e] == ')' && skip_spaces(s, e + 1) > e + 1 {
            Some((skip_spaces(s, e + 1), v))
        } else if e > d {
            Some((e, v))
        } else {
            None
        }
    }
}

proof fn lemma_match_ws_bounds(s: Seq<char>, i: int)
    requires
        0 <= i <= s.len(),
    ensures
        match match_ws(s, i) {
            Some((end, v)) => i < end <= s.len(),
            None => true,
        },
{
    lemma_skip_spaces(s, i);
    let a = skip_spaces(s, i);
    let b = if a < s.len() && s[a] == '(' {
        a + 1
    } else {
        a
    };
    lemma_skip_spaces(s, b);
    let c = skip_spaces(s, b);
    lemma_skip_digits(s, c);
    let d = skip_digits(s, c);
    lemma_skip_spaces(s, d);
    let e = skip_spaces(s, d);
    if e < s.len() && s[e] == ')' {
        lemma_skip_spaces(s, e + 1);
    }
}

/// The string from `i` on, with every volume-number candidate rewritten to
/// a single space, the zero-padded value, and a single trailing space.
pub open spec fn pass1_from(s: Seq<char>, i: int) -> Seq<char>
    decreases s.len() - i,
    when 0 <= i <= s.len()
    via pass1_from_dec
{
    if i >= s.len() {
        Seq::empty()
    } else {
        match match_ws(s, i) {
            Some((end, v)) => seq![' '] + two_digit(v) + seq![' '] + pass1_from(s, end),
            None => seq![s[i]] + pass1_from(s, i + 1),
        }
    }
}

#[via_fn]
proof fn pass1_from_dec(s: Seq<char>, i: int) {
    if 0 <= i < s.len() {
        lemma_match_ws_bounds(s, i);
    }
}

pub open spec fn pass1(s: Seq<char>) -> Seq<char> {
    pass1_from(s, 0)
}

/// A volume-number candidate that closes the string: optional whitespace,
/// an optionally parenthesized digit run, then only whitespace up to the
/// end of the string.
pub open spec fn match_end_at(s: Seq<char>, i: int) -> Option<nat> {
    let a = skip_spaces(s, i);
    let b = if a < s.len() && s[a] == '(' {
        a + 1
    } else {
        a
    };
    let c = skip_spaces(s, b);
    let d = skip_digits(s, c);
    if d == c || d - c > 9 || !(c == 0 || !is_digit_char(s[c - 1])) {
        None
    } else {
        let e = skip_spaces(s, d);
        if e < s.len() && s[e] == ')' && skip_spaces(s, e + 1) == s.len() {
            Some(digits_val(s, c, d))
        } else if e == s.len() {
            Some(digits_val(s, c, d))
        } else {
            None
        }
    }
}

/// The leftmost position at or after `i` where a string-closing
/// volume-number candidate starts, with its value.
pub open spec fn first_end_match(s: Seq<char>, i: int) -> Option<(int, nat)>
    decreases s.len() - i,
    when 0 <= i <= s.len()
{
    if i >= s.len() {
        None
    } else {
        match match_end_at(s, i) {
            Some(v) => Some((i, v)),
            None => first_end_match(s, i + 1),
        }
    }
}

pub open spec fn pass2(s: Seq<char>) -> Seq<char> {
    match first_end_match(s, 0) {
        Some((i, v)) => s.subrange(0, i) + seq![' '] + two_digit(v),
        None => s,
    }
}

/// A trailing Japanese volume marker: an optional volume prefix character,
/// optional whitespace, a digit run, an optional counter suffix character,
/// then only whitespace up to the end of the string.
pub open spec fn match_vol_at(s: Seq<char>, i: int) -> Option<nat> {
    let j = if i < s.len() && s[i] == '\u{7B2C}' {
        i + 1
    } else {
        i
    };
    let k = skip_spaces(s, j);
    let d = skip_digits(s, k);
    if d == k || d - k > 9 || !(k == 0 || !is_digit_char(s[k - 1])) {
        None
    } else {
        let m = if d < s.len() && s[d] == '\u{5DFB}' {
            d + 1
        } else {
            d
        };
        if skip_spaces(s, m) == s.len() {
            Some(digits_val(s, k, d))
        } else {
            None
        }
    }
}

pub open spec fn first_vol_match(s: Seq<char>, i: int) -> Option<(int, nat)>
    decreases s.len() - i,
    when 0 <= i <= s.len()
{
    if i >= s.len() {
        None
    } else {
        match match_vol_at(s, i) {
            Some(v) => Some((i, v)),
            None => first_vol_match(s, i + 1),
        }
    }
}

pub open spec fn pass3(s: Seq<char>) -> Seq<char> {
    match first_vol_match(s, 0) {
        Some((i, v)) => s.subrange(0, i) + seq![' '] + two_digit(v),
        None => s,
    }
}

/// The full volume-number padding transform: the whitespace-delimited pass,
/// then the end-of-string pass on its result, then the volume-marker pass
/// on that result.
pub open spec fn spec_pad_volume(s: Seq<char>) -> Seq<char> {
    pass3(pass2(pass1(s)))
}

fn skip_digits_exec(cs: &Vec<char>, i: usize) -> (r: usize)
    requires
        i <= cs@.len(),
    ensures
        r == skip_digits(cs@, i as int),
        i <= r <= cs@.len(),
{
    let mut r: usize = i;
    while r < cs.len() && is_digit(cs[r])
        invariant
            i <= r <= cs@.len(),
            skip_digits(cs@, i as int) == skip_digits(cs@, r as int),
        decreases cs@.len() - r,
    {
        r = r + 1;
    }
    proof {
        lemma_skip_digits(cs@, r as int);
    }
    r
}

fn digits_val_exec(cs: &Vec<char>, c: usize, d: usize) -> (v: u32)
    requires
        c <= d <= cs@.len(),
        d - c <= 9,
        forall|k: int| c <= k < d ==> is_digit_char(cs@[k]),
    ensures
        v as nat == digits_val(cs@, c as int, d as int),
{
    let mut v: u32 = 0;
    let mut j: usize = c;
    while j < d
        invariant
            c <= j <= d <= cs@.len(),
            d - c <= 9,
            forall|k: int| c <= k < d ==> is_digit_char(cs@[k]),
            v as nat == digits_val(cs@, c as int, j as int),
            (v as nat) < pow10((j - c) as nat),
        decreases d - j,
    {
        proof {
            reveal_with_fuel(pow10, 10);
            assert(pow10((j - c) as nat) <= pow10(8)) by {
                lemma_pow10_mono((j - c) as nat, 8);
            }
            assert(is_digit_char(cs@[j as int]));
        }
        let u: u32 = cs[j] as u32;
        v = v * 10 + (u - 0x30);
        j = j + 1;
    }
    v
}

proof fn lemma_pow10_mono(a: nat, b: nat)
    requires
        a <= b,
    ensures
        pow10(a) <= pow10(b),
    decreases b,
{
    if a < b {
        lemma_pow10_mono(a, (b - 1) as nat);
        assert(pow10(b) == 10 * pow10((b - 1) as nat));
        assert(pow10((b - 1) as nat) >= 1) by {
            lemma_pow10_pos((b - 1) as nat);
        }
    }
}

proof fn lemma_pow10_pos(k: nat)
    ensures
        pow10(k) >= 1,
    decreases k,
{
    if k > 0 {
        lemma_pow10_pos((k - 1) as nat);
    }
}

fn push_dec_digits(out: &mut Vec<char>, n: u32)
    ensures
        final(out)@ == old(out)@ + dec_digits(n as nat),
    decreases n,
{
    if n < 10 {
        out.push(((0x30 + n) as u8) as char);
        proof {
            assert(out@ =~= old(out)@ + dec_digits(n as nat));
        }
    } else {
        proof {
            assert(n / 10 < n) by (nonlinear_arith)
                requires
                    n >= 10,
            ;
        }
        push_dec_digits(out, n / 10);
        out.push(((0x30 + n % 10) as u8) as char);
        proof {
            assert((n % 10) < 10);
            assert(((0x30 + n % 10) as u8) as char == digit_char((n as nat) % 10));
            assert(out@ =~= old(out)@ + dec_digits(n as nat));
        }
    }
}

/// Appends the decimal rendering of `n`, for the wider values that byte
/// positions can take.
pub fn push_dec_digits_wide(out: &mut Vec<char>, n: u64)
    ensures
        final(out)@ == old(out)@ + dec_digits(n as nat),
    decreases n,
{
    if n < 10 {
        out.push(((0x30 + n) as u8) as char);
        proof {
            assert(out@ =~= old(out)@ + dec_digits(n as nat));
        }
    } else {
        proof {
            assert(n / 10 < n) by (nonlinear_arith)
                requires
                    n >= 10,
            ;
        }
        push_dec_digits_wide(out, n / 10);
        out.push(((0x30 + n % 10) as u8) as char);
        proof {
            assert((n % 10) < 10);
            assert(((0x30 + n % 10) as u8) as char == digit_char((n as nat) % 10));
            assert(out@ =~= old(out)@ + dec_digits(n as nat));
        }
    }
}

fn push_two_digit(out: &mut Vec<char>, n: u32)
    ensures
        final(out)@ == old(out)@ + two_digit(n as nat),
{
    if n < 10 {
        out.push('0');
        out.push(((0x30 + n) as u8) as char);
        proof {
            assert(out@ =~= old(out)@ + two_digit(n as nat));
        }
    } else {
        push_dec_digits(out, n);
    }
}

fn match_ws_exec(cs: &Vec<char>, i: usize) -> (r: Option<(usize, u32)>)
    requires
        i <= cs@.len(),
    ensures
        match match_ws(cs@, i as int) {
            Some((end, v)) => r matches Some((e2, v2)) && e2 as int == end && v2 as nat == v,
            None => r is None,
        },
{
    let a = skip_spaces_exec(cs, i);
    let b = if a < cs.len() && cs[a] == '(' {
        a + 1
    } else {
        a
    };
    let c = skip_spaces_exec(cs, b);
    let d = skip_digits_exec(cs, c);
    if d == c || d - c > 9 || !(c == 0 || !is_digit(cs[c - 1])) {
        None
    } else {
        proof {
            lemma_skip_digits(cs@, c as int);
        }
        let v = digits_val_exec(cs, c, d);
        let e = skip_spaces_exec(cs, d);
        if e < cs.len() && cs[e] == ')' {
            let f = skip_spaces_exec(cs, e + 1);
            if f > e + 1 {
                Some((f, v))
            } else if e > d {
                Some((e, v))
            } else {
                None
            }
        } else if e > d {
            Some((e, v))
        } else {
            None
        }
    }
}

fn match_end_exec(cs: &Vec<char>, i: usize) -> (r: Option<u32>)
    requires
        i <= cs@.len(),
    ensures
        match match_end_at(cs@, i as int) {
            Some(v) => r matches Some(v2) && v2 as nat == v,
            None => r is None,
        },
{
    let a = skip_spaces_exec(cs, i);
    let b = if a < cs.len() && cs[a] == '(' {
        a + 1
    } else {
        a
    };
    let c = skip_spaces_exec(cs, b);
    let d = skip_digits_exec(cs, c);
    if d == c || d - c > 9 || !(c == 0 || !is_digit(cs[c - 1])) {
        None
    } else {
        proof {
            lemma_skip_digits(cs@, c as int);
        }
        let e = skip_spaces_exec(cs, d);
        if e < cs.len() && cs[e] == ')' && skip_spaces_exec(cs, e + 1) == cs.len() {
            Some(digits_val_exec(cs, c, d))
        } else if e == cs.len() {
            Some(digits_val_exec(cs, c, d))
        } else {
            None
        }
    }
}

fn match_vol_exec(cs: &Vec<char>, i: usize) -> (r: Option<u32>)
    requires
        i <= cs@.len(),
    ensures
        match match_vol_at(cs@, i as int) {
            Some(v) => r matches Some(v2) && v2 as nat == v,
            None => r is None,
        },
{
    let j = if i < cs.len() && cs[i] == '\u{7B2C}' {
        i + 1
    } else {
        i
    };
    let k = skip_spaces_exec(cs, j);
    let d = skip_digits_exec(cs, k);
    if d == k || d - k > 9 || !(k == 0 || !is_digit(cs[k - 1])) {
        None
    } else {
        proof {
            lemma_skip_digits(cs@, k as int);
        }
        let m = if d < cs.len() && cs[d] == '\u{5DFB}' {
            d + 1
        } else {
            d
        };
        if skip_spaces_exec(cs, m) == cs.len() {
            Some(digits_val_exec(cs, k, d))
        } else {
            None
        }
    }
}

fn copy_prefix(cs: &Vec<char>, n: usize) -> (r: Vec<char>)
    requires
        n <= cs@.len(),
    ensures
        r@ == cs@.subrange(0, n as int),
{
    let mut out: Vec<char> = Vec::new();
    let mut i: usize = 0;
    while i < n
        invariant
            i <= n <= cs@.len(),
            out@ == cs@.subrange(0, i as int),
        decreases n - i,
    {
        out.push(cs[i]);
        i = i + 1;
        proof {
            assert(out@ =~= cs@.subrange(0, i as int));
        }
    }
    out
}

fn pass1_exec(cs: &Vec<char>) -> (r: Vec<char>)
    ensures
        r@ == pass1(cs@),
{
    let mut out: Vec<char> = Vec::new();
    let mut i: usize = 0;
    while i < cs.len()
        invariant
            i <= cs@.len(),
            pass1(cs@) == out@ + pass1_from(cs@, i as int),
        decreases cs@.len() - i,
    {
        proof {
            lemma_match_ws_bounds(cs@, i as int);
        }
        match match_ws_exec(cs, i) {
            Some((end, v)) => {
                out.push(' ');
                push_two_digit(&mut out, v);
                out.push(' ');
                i = end;
            },
            None => {
                out.push(cs[i]);
                i = i + 1;
            },
        }
        proof {
            assert(pass1(cs@) =~= out@ + pass1_from(cs@, i as int));
        }
    }
    proof {
        assert(pass1(cs@) =~= out@);
    }
    out
}

fn pass2_exec(cs: &Vec<char>) -> (r: Vec<char>)
    ensures
        r@ == pass2(cs@),
{
    let mut i: usize = 0;
    while i < cs.len()
        invariant
            i <= cs@.len(),
            first_end_match(cs@, 0) == first_end_match(cs@, i as int),
        decreases cs@.len() - i,
    {
        match match_end_exec(cs, i) {
            Some(v) => {
                let mut out = copy_prefix(cs, i);
                out.push(' ');
                push_two_digit(&mut out, v);
                proof {
                    assert(out@ =~= pass2(cs@));
                }
                return out;
            },
            None => {
                i = i + 1;
            },
        }
    }
    let out = copy_prefix(cs, cs.len());
    proof {
        assert(out@ =~= pass2(cs@));
    }
    out
}

fn pass3_exec(cs: &Vec<char>) -> (r: Vec<char>)
    ensures
        r@ == pass3(cs@),
{
    let mut i: usize = 0;
    while i < cs.len()
        invariant
            i <= cs@.len(),
            first_vol_match(cs@, 0) == first_vol_match(cs@, i as int),
        decreases cs@.len() - i,
    {
        match match_vol_exec(cs, i) {
            Some(v) => {
                let mut out = copy_prefix(cs, i);
                out.push(' ');
                push_two_digit(&mut out, v);
                proof {
                    assert(out@ =~= pass3(cs@));
                }
                return out;
            },
            None => {
                i = i + 1;
            },
        }
    }
    let out = copy_prefix(cs, cs.len());
    proof {
        assert(out@ =~= pass3(cs@));
    }
    out
}

// ---------------------------------------------------------------------------
// Idempotence of padding on its canonical output
// ---------------------------------------------------------------------------

proof fn lemma_dec_digits_shape(n: nat)
    ensures
        dec_digits(n).len() >= 1,
        forall|k: int| 0 <= k < dec_digits(n).len() ==> is_digit_char(#[trigger] dec_digits(n)[k]),
    decreases n,
{
    if n >= 10 {
        lemma_dec_digits_shape(n / 10);
        assert forall|k: int|
            0 <= k < dec_digits(n).len() implies is_digit_char(#[trigger] dec_digits(n)[k]) by {
            if k < dec_digits(n).len() - 1 {
                assert(dec_digits(n)[k] == dec_digits(n / 10)[k]);
            } else {
                assert(dec_digits(n)[k] == digit_char(n % 10));
            }
        }
    }
}

proof fn lemma_two_digit_shape(n: nat)
    ensures
        two_digit(n).len() >= 2,
        forall|k: int| 0 <= k < two_digit(n).len() ==> is_digit_char(#[trigger] two_digit(n)[k]),
{
    lemma_dec_digits_shape(n);
    if n < 10 {
        assert(two_digit(n)[0] == '0');
        assert(two_digit(n)[1] == digit_char(n));
    } else {
        lemma_dec_digits_shape(n / 10);
        assert(dec_digits(n).len() == dec_digits(n / 10).len() + 1);
    }
}

proof fn lemma_digits_val_render(s: Seq<char>, c: int, d: int, n: nat)
    requires
        0 <= c <= d <= s.len(),
        s.subrange(c, d) == dec_digits(n),
    ensures
        digits_val(s, c, d) == n,
    decreases n,
{
    lemma_dec_digits_shape(n);
    if n < 10 {
        assert(d - c == 1);
        assert(s[c] == dec_digits(n)[0]);
        assert(digits_val(s, c, d) == digits_val(s, c, d - 1) * 10 + digit_val(s[d - 1]));
    } else {
        assert(n / 10 < n) by (nonlinear_arith)
            requires
                n >= 10,
        ;
        assert(d - c == dec_digits(n).len());
        assert(s.subrange(c, d - 1) =~= dec_digits(n / 10)) by {
            assert forall|k: int| 0 <= k < d - 1 - c implies #[trigger] s.subrange(c, d - 1)[k]
                == dec_digits(n / 10)[k] by {
                assert(s.subrange(c, d)[k] == dec_digits(n)[k]);
                assert(dec_digits(n)[k] == dec_digits(n / 10)[k]);
            }
        }
        lemma_digits_val_render(s, c, d - 1, n / 10);
        assert(s[d - 1] == dec_digits(n)[d - 1 - c]);
        assert(s[d - 1] == digit_char(n % 10));
        assert(digit_val(digit_char(n % 10)) == n % 10);
        assert((n / 10) * 10 + n % 10 == n) by (nonlinear_arith);
    }
}

proof fn lemma_digits_val_render_two(s: Seq<char>, c: int, d: int, n: nat)
    requires
        0 <= c <= d <= s.len(),
        s.subrange(c, d) == two_digit(n),
    ensures
        digits_val(s, c, d) == n,
{
    if n < 10 {
        assert(two_digit(n).len() == 2);
        assert(d - c == 2);
        assert(s[c] == two_digit(n)[0]);
        assert(s[c + 1] == two_digit(n)[1]);
        assert(s[c] == '0');
        assert(s[c + 1] == digit_char(n));
        assert(digits_val(s, c, c) == 0);
        assert(digits_val(s, c, c + 1) == digits_val(s, c, c) * 10 + digit_val(s[c]));
        assert(digit_val('0') == 0);
        assert(digits_val(s, c, c + 2) == digits_val(s, c, c + 1) * 10 + digit_val(s[c + 1]));
        assert(digit_val(digit_char(n)) == n);
    } else {
        lemma_digits_val_render(s, c, d, n);
    }
}

/// The shape facts about `' ' + two_digit(n)` that the three passes see:
/// every skip lands where the canonical form dictates.
proof fn lemma_canonical_skips(t: Seq<char>, n: nat)
    requires
        t == seq![' '] + two_digit(n),
    ensures
        t.len() >= 3,
        is_space_char(t[0]),
        !is_digit_char(t[0]),
        t[0] != '(',
        forall|k: int| 1 <= k < t.len() ==> is_digit_char(#[trigger] t[k]),
        forall|k: int| 1 <= k < t.len() ==> !is_space_char(#[trigger] t[k]),
        forall|k: int| 1 <= k < t.len() ==> #[trigger] t[k] != '(' && t[k] != ')',
        forall|i: int| 1 <= i <= t.len() ==> #[trigger] skip_spaces(t, i) == i,
        skip_spaces(t, 0) == 1,
        forall|i: int| 1 <= i <= t.len() ==> #[trigger] skip_digits(t, i) == t.len(),
        skip_digits(t, 0) == 0,
        t.subrange(1, t.len() as int) == two_digit(n),
{
    lemma_two_digit_shape(n);
    assert forall|k: int| 1 <= k < t.len() implies is_digit_char(#[trigger] t[k]) by {
        assert(t[k] == two_digit(n)[k - 1]);
    }
    assert forall|k: int| 1 <= k < t.len() implies !is_space_char(#[trigger] t[k]) by {
        assert(is_digit_char(t[k]));
    }
    assert forall|k: int| 1 <= k < t.len() implies #[trigger] t[k] != '(' && t[k] != ')' by {
        assert(is_digit_char(t[k]));
    }
    assert forall|i: int| 1 <= i <= t.len() implies #[trigger] skip_spaces(t, i) == i by {
        if i < t.len() {
            assert(!is_space_char(t[i]));
        }
    }
    assert forall|i: int| 1 <= i <= t.len() implies #[trigger] skip_digits(t, i) == t.len() by {
        lemma_skip_digits(t, i);
        if skip_digits(t, i) < t.len() {
            assert(is_digit_char(t[skip_digits(t, i)]));
        }
    }
    assert(t[0] == ' ');
    assert(is_space_char(t[0]));
    assert(skip_spaces(t, 0) == skip_spaces(t, 1));
    assert(skip_spaces(t, 1) == 1);
    assert(t.subrange(1, t.len() as int) =~= two_digit(n));
}

proof fn lemma_canonical_no_match_ws(t: Seq<char>, n: nat, i: int)
    requires
        t == seq![' '] + two_digit(n),
        0 <= i <= t.len(),
    ensures
        match_ws(t, i) is None,
{
    lemma_canonical_skips(t, n);
    let a = skip_spaces(t, i);
    let b = if a < t.len() && t[a] == '(' {
        a + 1
    } else {
        a
    };
    let c = skip_spaces(t, b);
    let d = skip_digits(t, c);
    if i == 0 {
        assert(a == 1);
        assert(b == 1);
        assert(c == 1);
    }
    assert(c >= 1);
    assert(d == t.len());
    if !(d == c || d - c > 9 || !(c == 0 || !is_digit_char(t[c - 1]))) {
        let e = skip_spaces(t, d);
        assert(e == t.len());
    }
}

proof fn lemma_canonical_pass1_fixed(t: Seq<char>, n: nat, i: int)
    requires
        t == seq![' '] + two_digit(n),
        0 <= i <= t.len(),
    ensures
        pass1_from(t, i) == t.subrange(i, t.len() as int),
    decreases t.len() - i,
{
    lemma_canonical_no_match_ws(t, n, i);
    if i >= t.len() {
        assert(pass1_from(t, i) =~= t.subrange(i, t.len() as int));
    } else {
        lemma_canonical_pass1_fixed(t, n, i + 1);
        assert(seq![t[i]] + t.subrange(i + 1, t.len() as int) =~= t.subrange(i, t.len() as int));
    }
}

proof fn lemma_canonical_end_matches(t: Seq<char>, n: nat)
    requires
        t == seq![' '] + two_digit(n),
    ensures
        two_digit(n).len() <= 9 ==> match_end_at(t, 0) == Some(n) && match_vol_at(t, 0) == Some(n),
        two_digit(n).len() > 9 ==> forall|i: int|
            0 <= i <= t.len() ==> #[trigger] match_end_at(t, i) is None && match_vol_at(t, i)
                is None,
{
    lemma_canonical_skips(t, n);
    if two_digit(n).len() <= 9 {
        assert(skip_spaces(t, 0) == 1);
        assert(skip_digits(t, 1) == t.len());
        lemma_digits_val_render_two(t, 1, t.len() as int, n);
        assert(match_end_at(t, 0) == Some(n));
        assert(t[0] != '\u{7B2C}');
        assert(match_vol_at(t, 0) == Some(n));
    } else {
        assert forall|i: int|
            0 <= i <= t.len() implies #[trigger] match_end_at(t, i) is None && match_vol_at(t, i)
            is None by {
            let a = skip_spaces(t, i);
            let b = if a < t.len() && t[a] == '(' {
                a + 1
            } else {
                a
            };
            let c = skip_spaces(t, b);
            let d = skip_digits(t, c);
            if i == 0 {
                assert(c == 1);
            }
            assert(c >= 1);
            if c < t.len() {
                assert(d - c > 9 || !(c == 0 || !is_digit_char(t[c - 1])));
            }
            let j = if i < t.len() && t[i] == '\u{7B2C}' {
                i + 1
            } else {
                i
            };
            let k = skip_spaces(t, j);
            if i == 0 {
                assert(t[0] == ' ');
                assert(j == 0);
                assert(k == 1);
            }
            assert(k >= 1);
            if k < t.len() {
                assert(skip_digits(t, k) - k > 9 || !(k == 0 || !is_digit_char(t[k - 1])));
            }
        }
    }
}

proof fn lemma_canonical_first_matches(t: Seq<char>, n: nat)
    requires
        t == seq![' '] + two_digit(n),
    ensures
        two_digit(n).len() <= 9 ==> first_end_match(t, 0) == Some((0int, n)) && first_vol_match(
            t,
            0,
        ) == Some((0int, n)),
        two_digit(n).len() > 9 ==> first_end_match(t, 0) is None && first_vol_match(t, 0) is None,
{
    lemma_canonical_end_matches(t, n);
    if two_digit(n).len() > 9 {
        lemma_first_end_none(t, n, 0);
        lemma_first_vol_none(t, n, 0);
    }
}

proof fn lemma_first_end_none(t: Seq<char>, n: nat, i: int)
    requires
        t == seq![' '] + two_digit(n),
        two_digit(n).len() > 9,
        0 <= i <= t.len(),
    ensures
        first_end_match(t, i) is None,
    decreases t.len() - i,
{
    lemma_canonical_end_matches(t, n);
    if i < t.len() {
        lemma_first_end_none(t, n, i + 1);
    }
}

proof fn lemma_first_vol_none(t: Seq<char>, n: nat, i: int)
    requires
        t == seq![' '] + two_digit(n),
        two_digit(n).len() > 9,
        0 <= i <= t.len(),
    ensures
        first_vol_match(t, i) is None,
    decreases t.len() - i,
{
    lemma_canonical_end_matches(t, n);
    assert(match_end_at(t, i) is None);
    if i < t.len() {
        lemma_first_vol_none(t, n, i + 1);
    }
}

/// Volume-number padding is idempotent on its own canonical output:
/// a string of the form `" NN"` — a single space followed by the
/// zero-padded rendering of a number — comes back unchanged.
pub proof fn lemma_pad_volume_idempotent_on_canonical(n: nat)
    ensures
        spec_pad_volume(seq![' '] + two_digit(n)) == seq![' '] + two_digit(n),
{
    let t = seq![' '] + two_digit(n);
    lemma_canonical_skips(t, n);
    lemma_canonical_pass1_fixed(t, n, 0);
    assert(t.subrange(0, t.len() as int) =~= t);
    assert(pass1(t) == t);
    lemma_canonical_first_matches(t, n);
    if two_digit(n).len() <= 9 {
        assert(pass2(t) == t.subrange(0, 0) + seq![' '] + two_digit(n));
        assert(t.subrange(0, 0) + seq![' '] + two_digit(n) =~= t);
        assert(pass2(t) == t);
        assert(pass3(t) == t.subrange(0, 0) + seq![' '] + two_digit(n));
        assert(pass3(t) == t);
    } else {
        assert(pass2(t) == t);
        assert(pass3(t) == t);
    }
}

// ---------------------------------------------------------------------------
// The pipeline compositions
// ---------------------------------------------------------------------------

/// The full author normalization: half-width folding, unsafe-symbol
/// substitution, then space collapsing.
pub open spec fn author_norm(s: Seq<char>) -> Seq<char> {
    spec_remove_spaces(sub_seq(fold_seq(s)))
}

/// The full title normalization: half-width folding, unsafe-symbol
/// substitution, round-bracket normalization, character-list removal,
/// volume-number padding, then space collapsing.
pub open spec fn title_norm(s: Seq<char>, ps: Seq<Seq<char>>) -> Seq<char> {
    spec_remove_spaces(spec_pad_volume(remove_list(bracket_seq(sub_seq(fold_seq(s))), ps)))
}

/// Detects a volume or sequence number (a whitespace-delimited or trailing,
/// optionally parenthesized digit run, or a trailing Japanese volume
/// marker) and rewrites it to a single leading space followed by the
/// two-digit zero-padded value.
pub fn pad_volume_number(input: &str) -> (r: String)
    ensures
        r@ == spec_pad_volume(input@),
{
    let cs = str_to_chars(input);
    let p1 = pass1_exec(&cs);
    let p2 = pass2_exec(&p1);
    let p3 = pass3_exec(&p2);
    chars_to_string(&p3)
}

} // verus!

