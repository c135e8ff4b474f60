//! EPUB metadata extraction and the rename suggestion.
//!
//! The container document is scanned for the first `rootfile` element's
//! `full-path` attribute; the package document it names is scanned for
//! the first `dc:creator` and `dc:title` text values. Both scans are
//! forward-only and namespace-agnostic: element names are compared by
//! their literal qualified form, tolerating documents that never bind
//! the `dc` prefix.

use vstd::prelude::*;
use vstd::string::StringExecFns;
use vstd::string::StrSliceExecFns;
use crate::chars::{str_to_chars, str_eq, byte_offset_sat, byte_offset_exec};
use crate::xml::{
    GEv, Ev, spec_event, read_event, lemma_event_advance, attr_scan, find_attr, book_type_scan,
    find_book_type, spec_unescape, unescape, find_char, lemma_find_char,
};
use crate::strings::{
    views_of, author_norm, title_norm, to_half_width, replace_unsafe_symbols,
    replace_round_brackets, remove_characters, pad_volume_number, remove_spaces,
};
use crate::error::AppError;

verus! {

// ---------------------------------------------------------------------------
// Rootfile resolution
// ---------------------------------------------------------------------------

/// The outcome of scanning a container document for the `rootfile`
/// element's `full-path` attribute.
pub ghost enum RootOut {
    /// The unescaped attribute value of the first `rootfile` element.
    RFound(Seq<char>),
    /// The document ended without a `rootfile` start element.
    RNoRoot,
    /// Malformed markup at the given character position.
    RSyntax(int),
    /// A `rootfile` element without a usable `full-path` attribute.
    RNoAttr,
    /// A `full-path` attribute whose value does not unescape.
    RBadEscape,
}

/// Scans for the first `rootfile` start element and resolves its
/// `full-path` attribute; the first such element wins, later ones are
/// never looked at.
pub open spec fn root_scan(s: Seq<char>, i: int) -> RootOut
    decreases s.len() - i,
    when 0 <= i <= s.len()
    via root_scan_dec
{
    match spec_event(s, i) {
        GEv::GErr { pos } => RootOut::RSyntax(pos),
        GEv::GEof => RootOut::RNoRoot,
        GEv::GStart { name, attrs, after, empty } => {
            if name == "rootfile"@ {
                match attr_scan(attrs, 0, "full-path"@) {
                    Some(raw) => match spec_unescape(raw) {
                        Some(v) => RootOut::RFound(v),
                        None => RootOut::RBadEscape,
                    },
                    None => RootOut::RNoAttr,
                }
            } else {
                root_scan(s, after)
            }
        },
        GEv::GEnd { name, after } => root_scan(s, after),
        GEv::GText { content, after } => root_scan(s, after),
    }
}

#[via_fn]
proof fn root_scan_dec(s: Seq<char>, i: int) {
    if 0 <= i <= s.len() {
        lemma_event_advance(s, i);
    }
}

/// Resolves the path of the package document from the contents of the
/// `META-INF/container.xml` entry.
pub fn get_rootfile_path(container_xml: &str) -> (r: Result<String, AppError>)
    ensures
        match root_scan(container_xml@, 0) {
            RootOut::RFound(v) => r matches Ok(p) && p@ == v,
            RootOut::RNoRoot => r matches Err(e) && (e matches AppError::BadMetadataStructure {
                reason,
            } && reason@ == "Cannot find rootfile"@),
            RootOut::RSyntax(pos) => r matches Err(e) && (e matches AppError::XMLSyntaxError {
                position,
                path,
            } && position as int == byte_offset_sat(container_xml@, pos) && path@
                == "META-INF/container.xml"@),
            RootOut::RNoAttr => r matches Err(e) && (e matches AppError::BadMetadataStructure {
                reason,
            } && reason@ == "Cannot find full-path attribute"@),
            RootOut::RBadEscape => r matches Err(e) && (e matches AppError::BadMetadataStructure {
                reason,
            } && reason@ == "Failed to unescape full-path attribute"@),
        },
{
    let cs = str_to_chars(container_xml);
    let mut i: usize = 0;
    loop
        invariant
            i <= cs@.len(),
            cs@ == container_xml@,
            root_scan(container_xml@, 0) == root_scan(cs@, i as int),
        decreases cs@.len() - i,
    {
        proof {
            lemma_event_advance(cs@, i as int);
        }
        match read_event(&cs, i) {
            Ev::Error { pos } => {
                return Err(
                    AppError::XMLSyntaxError {
                        position: byte_offset_exec(&cs, pos),
                        path: String::from_str("META-INF/container.xml"),
                    },
                );
            },
            Ev::Eof => {
                return Err(
                    AppError::BadMetadataStructure {
                        reason: String::from_str("Cannot find rootfile"),
                    },
                );
            },
            Ev::Start { name, attrs, after, empty } => {
                if str_eq(name.as_str(), "rootfile") {
                    match find_attr(attrs.as_str(), "full-path") {
                        Some(raw) => match unescape(raw.as_str()) {
                            Some(v) => {
                                return Ok(v);
                            },
                            None => {
                                return Err(
                                    AppError::BadMetadataStructure {
                                        reason: String::from_str(
                                            "Failed to unescape full-path attribute",
                                        ),
                                    },
                                );
                            },
                        },
                        None => {
                            return Err(
                                AppError::BadMetadataStructure {
                                    reason: String::from_str("Cannot find full-path attribute"),
                                },
                            );
                        },
                    }
                }
                i = after;
            },
            Ev::End { name, after } => {
                i = after;
            },
            Ev::Text { content, after } => {
                i = after;
            },
        }
    }
}

// ---------------------------------------------------------------------------
// Metadata extraction
// ---------------------------------------------------------------------------

/// The outcome of collecting the text content of one element.
pub ghost enum InnerOut {
    /// The raw (still escaped) text, and the position to resume from.
    IContent { raw: Seq<char>, after: int },
    /// Malformed markup at the given character position.
    ISyntax(int),
}

/// Collects the text content immediately inside an element named `name`,
/// scanning from `i`: the first text run wins; reaching the matching end
/// element (or the end of the document) first yields the empty string.
pub open spec fn inner_scan(s: Seq<char>, i: int, name: Seq<char>) -> InnerOut
    decreases s.len() - i,
    when 0 <= i <= s.len()
    via inner_scan_dec
{
    match spec_event(s, i) {
        GEv::GErr { pos } => InnerOut::ISyntax(pos),
        GEv::GEof => InnerOut::IContent { raw: Seq::empty(), after: s.len() as int },
        GEv::GText { content, after } => InnerOut::IContent { raw: content, after },
        GEv::GEnd { name: n2, after } => {
            if n2 == name {
                InnerOut::IContent { raw: Seq::empty(), after }
            } else {
                inner_scan(s, after, name)
            }
        },
        GEv::GStart { name: n2, attrs, after, empty } => {
            if empty && n2 == name {
                InnerOut::IContent { raw: Seq::empty(), after }
            } else {
                inner_scan(s, after, name)
            }
        },
    }
}

#[via_fn]
proof fn inner_scan_dec(s: Seq<char>, i: int, name: Seq<char>) {
    if 0 <= i <= s.len() {
        lemma_event_advance(s, i);
    }
}

pub proof fn lemma_inner_scan(s: Seq<char>, i: int, name: Seq<char>)
    requires
        0 <= i <= s.len(),
    ensures
        match inner_scan(s, i, name) {
            InnerOut::IContent { raw, after } => i <= after <= s.len(),
            InnerOut::ISyntax(pos) => 0 <= pos < s.len(),
        },
    decreases s.len() - i,
{
    lemma_event_advance(s, i);
    match spec_event(s, i) {
        GEv::GEnd { name: n2, after } => {
            if n2 != name {
                lemma_inner_scan(s, after, name);
            }
        },
        GEv::GStart { name: n2, attrs, after, empty } => {
            if !(empty && n2 == name) {
                lemma_inner_scan(s, after, name);
            }
        },
        _ => {},
    }
}

/// The outcome of scanning a package document for its first `dc:creator`
/// and `dc:title` values.
pub ghost enum MetaOut {
    /// The fields collected by the end of the scan (or by the early exit
    /// once both were seen), unescaped.
    MDone { author: Option<Seq<char>>, title: Option<Seq<char>> },
    /// Malformed markup at the given character position.
    MSyntax(int),
    /// Element text that does not unescape; the position is where the
    /// scan had advanced to.
    MUnesc(int),
}

/// Scans for the first `dc:creator` and `dc:title` elements, collecting
/// each one's immediate text content; a field once set is never
/// overwritten, and the scan stops as soon as both are set.
pub open spec fn meta_scan(
    s: Seq<char>,
    i: int,
    a: Option<Seq<char>>,
    t: Option<Seq<char>>,
) -> MetaOut
    decreases s.len() - i,
    when 0 <= i <= s.len()
    via meta_scan_dec
{
    if a is Some && t is Some {
        MetaOut::MDone { author: a, title: t }
    } else {
        match spec_event(s, i) {
            GEv::GErr { pos } => MetaOut::MSyntax(pos),
            GEv::GEof => MetaOut::MDone { author: a, title: t },
            GEv::GStart { name, attrs, after, empty } => {
                if name == "dc:creator"@ && a is None {
                    if empty {
                        meta_scan(s, after, Some(Seq::empty()), t)
                    } else {
                        match inner_scan(s, after, name) {
                            InnerOut::IContent { raw, after: j } => match spec_unescape(raw) {
                                Some(u) => meta_scan(s, j, Some(u), t),
                                None => MetaOut::MUnesc(j),
                            },
                            InnerOut::ISyntax(pos) => MetaOut::MSyntax(pos),
                        }
                    }
                } else if name == "dc:title"@ && t is None {
                    if empty {
                        meta_scan(s, after, a, Some(Seq::empty()))
                    } else {
                        match inner_scan(s, after, name) {
                            InnerOut::IContent { raw, after: j } => match spec_unescape(raw) {
                                Some(u) => meta_scan(s, j, a, Some(u)),
                                None => MetaOut::MUnesc(j),
                            },
                            InnerOut::ISyntax(pos) => MetaOut::MSyntax(pos),
                        }
                    }
                } else {
                    meta_scan(s, after, a, t)
                }
            },
            GEv::GEnd { name, after } => meta_scan(s, after, a, t),
            GEv::GText { content, after } => meta_scan(s, after, a, t),
        }
    }
}

#[via_fn]
proof fn meta_scan_dec(s: Seq<char>, i: int, a: Option<Seq<char>>, t: Option<Seq<char>>) {
    if 0 <= i <= s.len() && !(a is Some && t is Some) {
        lemma_event_advance(s, i);
        match spec_event(s, i) {
            GEv::GStart { name, attrs, after, empty } => {
                lemma_inner_scan(s, after, name);
            },
            _ => {},
        }
    }
}

/// The collected bibliographic identity of one book: the first
/// `dc:creator` and `dc:title` values of its package document, either of
/// which may be missing.
pub struct BookMetadata {
    pub author: Option<String>,
    pub title: Option<String>,
}

/// The specification view of an optional owned string.
pub open spec fn opt_view(o: Option<String>) -> Option<Seq<char>> {
    match o {
        Some(x) => Some(x@),
        None => None,
    }
}

/// Collects the text content of one element, mirroring the inner scan.
fn collect_text(cs: &Vec<char>, start: usize, tag: &str) -> (r: Result<(String, usize), usize>)
    requires
        start <= cs@.len(),
    ensures
        match inner_scan(cs@, start as int, tag@) {
            InnerOut::IContent { raw, after } => r matches Ok((c2, a2)) && c2@ == raw && a2 as int
                == after && start <= a2 <= cs@.len(),
            InnerOut::ISyntax(pos) => r matches Err(p2) && p2 as int == pos,
        },
{
    let mut i: usize = start;
    loop
        invariant
            start <= i <= cs@.len(),
            inner_scan(cs@, start as int, tag@) == inner_scan(cs@, i as int, tag@),
        decreases cs@.len() - i,
    {
        proof {
            lemma_event_advance(cs@, i as int);
        }
        match read_event(cs, i) {
            Ev::Error { pos } => {
                return Err(pos);
            },
            Ev::Eof => {
                return Ok((String::new(), cs.len()));
            },
            Ev::Text { content, after } => {
                return Ok((content, after));
            },
            Ev::End { name, after } => {
                if str_eq(name.as_str(), tag) {
                    return Ok((String::new(), after));
                }
                i = after;
            },
            Ev::Start { name, attrs, after, empty } => {
                if empty && str_eq(name.as_str(), tag) {
                    return Ok((String::new(), after));
                }
                i = after;
            },
        }
    }
}

/// Extracts the book's metadata from the contents of the package
/// document found at `rootfile_path`. A document that ends with either
/// field still unset is not an error; the field stays unset.
pub fn get_book_metadata(opf_xml: &str, rootfile_path: &str) -> (r: Result<BookMetadata, AppError>)
    ensures
        match meta_scan(opf_xml@, 0, None, None) {
            MetaOut::MDone { author, title } => r matches Ok(md) && opt_view(md.author) == author
                && opt_view(md.title) == title,
            MetaOut::MSyntax(pos) => r matches Err(e) && (e matches AppError::XMLSyntaxError {
                position,
                path,
            } && position as int == byte_offset_sat(opf_xml@, pos) && path@ == rootfile_path@),
            MetaOut::MUnesc(pos) => r matches Err(e) && (e matches AppError::XMLSyntaxError {
                position,
                path,
            } && position as int == byte_offset_sat(opf_xml@, pos) && path@ == rootfile_path@),
        },
{
    let cs = str_to_chars(opf_xml);
    let mut author: Option<String> = None;
    let mut title: Option<String> = None;
    let mut i: usize = 0;
    loop
        invariant
            i <= cs@.len(),
            cs@ == opf_xml@,
            meta_scan(opf_xml@, 0, None, None) == meta_scan(
                cs@,
                i as int,
                opt_view(author),
                opt_view(title),
            ),
        decreases cs@.len() - i,
    {
        if author.is_some() && title.is_some() {
            return Ok(BookMetadata { author, title });
        }
        proof {
            lemma_event_advance(cs@, i as int);
        }
        match read_event(&cs, i) {
            Ev::Error { pos } => {
                return Err(
                    AppError::XMLSyntaxError {
                        position: byte_offset_exec(&cs, pos),
                        path: String::from_str(rootfile_path),
                    },
                );
            },
            Ev::Eof => {
                return Ok(BookMetadata { author, title });
            },
            Ev::Start { name, attrs, after, empty } => {
                if str_eq(name.as_str(), "dc:creator") && author.is_none() {
                    if empty {
                        author = Some(String::new());
                        i = after;
                    } else {
                        proof {
                            lemma_inner_scan(cs@, after as int, name@);
                        }
                        match collect_text(&cs, after, "dc:creator") {
                            Ok((content, j)) => {
                                match unescape(content.as_str()) {
                                    Some(u) => {
                                        author = Some(u);
                                        i = j;
                                    },
                                    None => {
                                        return Err(
                                            AppError::XMLSyntaxError {
                                                position: byte_offset_exec(&cs, j),
                                                path: String::from_str(rootfile_path),
                                            },
                                        );
                                    },
                                }
                            },
                            Err(pos) => {
                                return Err(
                                    AppError::XMLSyntaxError {
                                        position: byte_offset_exec(&cs, pos),
                                        path: String::from_str(rootfile_path),
                                    },
                                );
                            },
                        }
                    }
                } else if str_eq(name.as_str(), "dc:title") && title.is_none() {
                    if empty {
                        title = Some(String::new());
                        i = after;
                    } else {
                        proof {
                            lemma_inner_scan(cs@, after as int, name@);
                        }
                        match collect_text(&cs, after, "dc:title") {
                            Ok((content, j)) => {
                                match unescape(content.as_str()) {
                                    Some(u) => {
                                        title = Some(u);
                                        i = j;
                                    },
                                    None => {
                                        return Err(
                                            AppError::XMLSyntaxError {
                                                position: byte_offset_exec(&cs, j),
                                                path: String::from_str(rootfile_path),
                                            },
                                        );
                                    },
                                }
                            },
                            Err(pos) => {
                                return Err(
                                    AppError::XMLSyntaxError {
                                        position: byte_offset_exec(&cs, pos),
                                        path: String::from_str(rootfile_path),
                                    },
                                );
                            },
                        }
                    }
                } else {
                    i = after;
                }
            },
            Ev::End { name, after } => {
                i = after;
            },
            Ev::Text { content, after } => {
                i = after;
            },
        }
    }
}

// ---------------------------------------------------------------------------
// Book type lookup
// ---------------------------------------------------------------------------

/// The outcome of scanning a package document for a
/// `<meta name="book-type" content="...">` element.
pub ghost enum TypeOut {
    /// The raw `content` attribute value of the first such element.
    TFound(Seq<char>),
    /// The document ended without one.
    TNone,
    /// Malformed markup at the given character position.
    TSyntax(int),
}

pub open spec fn type_scan(s: Seq<char>, i: int) -> TypeOut
    decreases s.len() - i,
    when 0 <= i <= s.len()
    via type_scan_dec
{
    match spec_event(s, i) {
        GEv::GErr { pos } => TypeOut::TSyntax(pos),
        GEv::GEof => TypeOut::TNone,
        GEv::GStart { name, attrs, after, empty } => {
            if name == "meta"@ {
                match book_type_scan(attrs, 0, false) {
                    Some(v) => TypeOut::TFound(v),
                    None => type_scan(s, after),
                }
            } else {
                type_scan(s, after)
            }
        },
        GEv::GEnd { name, after } => type_scan(s, after),
        GEv::GText { content, after } => type_scan(s, after),
    }
}

#[via_fn]
proof fn type_scan_dec(s: Seq<char>, i: int) {
    if 0 <= i <= s.len() {
        lemma_event_advance(s, i);
    }
}

/// Reports the book type declared by the package document found at
/// `rootfile_path`, if any.
pub fn get_book_type(opf_xml: &str, rootfile_path: &str) -> (r: Result<Option<String>, AppError>)
    ensures
        match type_scan(opf_xml@, 0) {
            TypeOut::TFound(v) => r matches Ok(o) && o matches Some(b) && b@ == v,
            TypeOut::TNone => r matches Ok(o) && o is None,
            TypeOut::TSyntax(pos) => r matches Err(e) && (e matches AppError::XMLSyntaxError {
                position,
                path,
            } && position as int == byte_offset_sat(opf_xml@, pos) && path@ == rootfile_path@),
        },
{
    let cs = str_to_chars(opf_xml);
    let mut i: usize = 0;
    loop
        invariant
            i <= cs@.len(),
            cs@ == opf_xml@,
            type_scan(opf_xml@, 0) == type_scan(cs@, i as int),
        decreases cs@.len() - i,
    {
        proof {
            lemma_event_advance(cs@, i as int);
        }
        match read_event(&cs, i) {
            Ev::Error { pos } => {
                return Err(
                    AppError::XMLSyntaxError {
                        position: byte_offset_exec(&cs, pos),
                        path: String::from_str(rootfile_path),
                    },
                );
            },
            Ev::Eof => {
                return Ok(None);
            },
            Ev::Start { name, attrs, after, empty } => {
                if str_eq(name.as_str(), "meta") {
                    match find_book_type(attrs.as_str()) {
                        Some(v) => {
                            return Ok(Some(v));
                        },
                        None => {
                            i = after;
                        },
                    }
                } else {
                    i = after;
                }
            },
            Ev::End { name, after } => {
                i = after;
            },
            Ev::Text { content, after } => {
                i = after;
            },
        }
    }
}

// ---------------------------------------------------------------------------
// Normalization of the collected metadata
// ---------------------------------------------------------------------------

impl BookMetadata {
    /// A record with neither field collected yet.
    pub fn new() -> (r: Self)
        ensures
            r.author is None,
            r.title is None,
    {
        BookMetadata { author: None, title: None }
    }

    /// Whether both fields have been collected.
    pub fn is_filled(&self) -> (r: bool)
        ensures
            r == (self.author is Some && self.title is Some),
    {
        self.author.is_some() && self.title.is_some()
    }

    /// Normalizes the author field in place: half-width folding,
    /// unsafe-symbol substitution, space collapsing. A missing field
    /// stays missing.
    pub fn format_author(&mut self)
        ensures
            final(self).title == old(self).title,
            match old(self).author {
                Some(a) => final(self).author matches Some(x) && x@ == author_norm(a@),
                None => final(self).author is None,
            },
    {
        let mut formatted: Option<String> = None;
        match &self.author {
            Some(a) => {
                let t1 = to_half_width(a.as_str());
                let t2 = replace_unsafe_symbols(t1.as_str());
                let t3 = remove_spaces(t2.as_str());
                formatted = Some(t3);
            },
            None => {},
        }
        self.author = formatted;
    }

    /// Normalizes the title field in place: half-width folding,
    /// unsafe-symbol substitution, round-bracket normalization, removal
    /// of the listed substrings, volume-number padding, space collapsing.
    /// A missing field stays missing.
    pub fn format_title(&mut self, patterns: &Vec<String>)
        ensures
            final(self).author == old(self).author,
            match old(self).title {
                Some(t) => final(self).title matches Some(x) && x@ == title_norm(
                    t@,
                    views_of(patterns@),
                ),
                None => final(self).title is None,
            },
    {
        let mut formatted: Option<String> = None;
        match &self.title {
            Some(t) => {
                let t1 = to_half_width(t.as_str());
                let t2 = replace_unsafe_symbols(t1.as_str());
                let t3 = replace_round_brackets(t2.as_str());
                let t4 = remove_characters(patterns, t3.as_str());
                let t5 = pad_volume_number(t4.as_str());
                let t6 = remove_spaces(t5.as_str());
                formatted = Some(t6);
            },
            None => {},
        }
        self.title = formatted;
    }

    /// Normalizes both fields in place.
    pub fn format(&mut self, patterns: &Vec<String>)
        ensures
            match old(self).author {
                Some(a) => final(self).author matches Some(x) && x@ == author_norm(a@),
                None => final(self).author is None,
            },
            match old(self).title {
                Some(t) => final(self).title matches Some(x) && x@ == title_norm(
                    t@,
                    views_of(patterns@),
                ),
                None => final(self).title is None,
            },
    {
        self.format_author();
        self.format_title(patterns);
    }
}

// ---------------------------------------------------------------------------
// The rename suggestion
// ---------------------------------------------------------------------------

/// The suggested destination name for a book.
pub open spec fn suggested_name_spec(author: Seq<char>, title: Seq<char>) -> Seq<char> {
    "["@ + author + "]"@ + title + ".epub"@
}

/// The reported line for a successfully processed file.
pub open spec fn rename_line_spec(
    original: Seq<char>,
    author: Seq<char>,
    title: Seq<char>,
) -> Seq<char> {
    "rename \""@ + original + "\" \""@ + suggested_name_spec(author, title) + "\""@
}

/// The suggested destination name `[<author>]<title>.epub`.
pub fn suggested_name(author: &str, title: &str) -> (r: String)
    ensures
        r@ == suggested_name_spec(author@, title@),
{
    let mut out = String::from_str("[");
    out.append(author);
    out.append("]");
    out.append(title);
    out.append(".epub");
    proof {
        assert(out@ =~= suggested_name_spec(author@, title@));
    }
    out
}

/// The rename command line for the book, or nothing when either field is
/// missing — such a book is a reportable per-file failure, not a crash.
pub fn rename_line(original_filename: &str, md: &BookMetadata) -> (r: Option<String>)
    ensures
        match md.author {
            Some(a) => match md.title {
                Some(t) => r matches Some(line) && line@ == rename_line_spec(
                    original_filename@,
                    a@,
                    t@,
                ),
                None => r is None,
            },
            None => r is None,
        },
{
    match (&md.author, &md.title) {
        (Some(a), Some(t)) => {
            let sug = suggested_name(a.as_str(), t.as_str());
            let mut out = String::from_str("rename \"");
            out.append(original_filename);
            out.append("\" \"");
            out.append(sug.as_str());
            out.append("\"");
            proof {
                assert(out@ =~= rename_line_spec(original_filename@, a@, t@));
            }
            Some(out)
        },
        _ => None,
    }
}

// ---------------------------------------------------------------------------
// The character list and file naming
// ---------------------------------------------------------------------------

/// The lines of the character-list file: split at line feeds, a trailing
/// carriage return stripped from each line, blank lines dropped.
pub open spec fn char_list_lines(s: Seq<char>, i: int) -> Seq<Seq<char>>
    decreases s.len() - i,
    when 0 <= i <= s.len()
    via char_list_lines_dec
{
    if i >= s.len() {
        Seq::empty()
    } else {
        let nl = find_char(s, i, '\n');
        let line0 = s.subrange(i, nl);
        let line = if line0.len() > 0 && line0[line0.len() - 1] == '\r' {
            line0.drop_last()
        } else {
            line0
        };
        let rest = if nl >= s.len() {
            Seq::empty()
        } else {
            char_list_lines(s, nl + 1)
        };
        if line.len() == 0 {
            rest
        } else {
            seq![line] + rest
        }
    }
}

#[via_fn]
proof fn char_list_lines_dec(s: Seq<char>, i: int) {
    if 0 <= i < s.len() {
        lemma_find_char(s, i, '\n');
    }
}

/// Parses the character-list file's text: one literal substring per
/// line, blank lines ignored.
pub fn parse_char_list(text: &str) -> (r: Vec<String>)
    ensures
        views_of(r@) == char_list_lines(text@, 0),
{
    let cs = str_to_chars(text);
    let mut out: Vec<String> = Vec::new();
    let mut i: usize = 0;
    proof {
        assert(views_of(out@) + char_list_lines(cs@, 0) =~= char_list_lines(cs@, 0));
    }
    while i < cs.len()
        invariant
            i <= cs@.len(),
            cs@ == text@,
            char_list_lines(text@, 0) == views_of(out@) + char_list_lines(cs@, i as int),
        decreases cs@.len() - i,
    {
        let ghost prev = out@;
        let nl = crate::xml::find_char_exec(&cs, i, '\n');
        proof {
            lemma_find_char(cs@, i as int, '\n');
        }
        let end: usize = if nl > i && cs[nl - 1] == '\r' {
            nl - 1
        } else {
            nl
        };
        proof {
            let line0 = cs@.subrange(i as int, nl as int);
            if line0.len() > 0 && line0[line0.len() - 1] == '\r' {
                assert(line0.drop_last() =~= cs@.subrange(i as int, end as int));
            } else {
                assert(line0 =~= cs@.subrange(i as int, end as int));
            }
        }
        if end > i {
            let piece = crate::xml::range_string(&cs, i, end);
            out.push(piece);
            proof {
                assert(views_of(out@) =~= views_of(prev).push(cs@.subrange(i as int, end as int)));
            }
        }
        if nl >= cs.len() {
            i = cs.len();
        } else {
            i = nl + 1;
        }
        proof {
            assert(char_list_lines(text@, 0) =~= views_of(out@) + char_list_lines(cs@, i as int));
        }
    }
    proof {
        assert(views_of(out@) =~= char_list_lines(text@, 0));
    }
    out
}

/// The lower-case form of an ASCII letter; every other character passes
/// through unchanged.
pub open spec fn lower_ascii(c: char) -> char {
    if 0x41 <= c as u32 && c as u32 <= 0x5A {
        ((c as u32 + 0x20) as u8) as char
    } else {
        c
    }
}

/// Whether the file name ends in `.epub`, compared without regard to
/// ASCII case.
pub open spec fn spec_is_epub_name(s: Seq<char>) -> bool {
    s.len() >= 5 && s.subrange(s.len() - 5, s.len() as int).map_values(|c: char| lower_ascii(c))
        == ".epub"@
}

fn lower_ascii_exec(c: char) -> (r: char)
    ensures
        r == lower_ascii(c),
{
    let u: u32 = c as u32;
    if 0x41 <= u && u <= 0x5A {
        ((u + 0x20) as u8) as char
    } else {
        c
    }
}

/// Whether the file name names an EPUB: a `.epub` extension, matched
/// without regard to ASCII case.
pub fn is_epub_name(name: &str) -> (r: bool)
    ensures
        r == spec_is_epub_name(name@),
{
    let n: usize = name.unicode_len();
    if n < 5 {
        return false;
    }
    let suffix = str_to_chars(".epub");
    proof {
        reveal_strlit(".epub");
    }
    let mut k: usize = 0;
    while k < 5
        invariant
            n == name@.len(),
            n >= 5,
            suffix@ == ".epub"@,
            suffix@.len() == 5,
            k <= 5,
            forall|j: int|
                0 <= j < k ==> lower_ascii(name@[n - 5 + j]) == ".epub"@[j],
        decreases 5 - k,
    {
        if lower_ascii_exec(name.get_char(n - 5 + k)) != suffix[k] {
            proof {
                let tail = name@.subrange(n - 5, n as int).map_values(|c: char| lower_ascii(c));
                assert(tail[k as int] == lower_ascii(name@[n - 5 + k]));
                assert(tail[k as int] != ".epub"@[k as int]);
            }
            return false;
        }
        k = k + 1;
    }
    proof {
        let tail = name@.subrange(n - 5, n as int).map_values(|c: char| lower_ascii(c));
        assert(tail =~= ".epub"@);
    }
    true
}

} // verus!
