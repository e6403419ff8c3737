//! The diagnostic model, its renderings, line indexing, and the
//! allow-comment escape hatch.
//!
//! Two renderings exist and both are part of the contract:
//! [`Diagnostic::summary`], one stable line per finding, and
//! [`Diagnostic::render`], the rustc-style snippet a human reads.
//!
//! The escape hatch is `# triglint: allow(<lint>, ...)`, honoured on the
//! finding's own line, on a standalone comment line directly above it, or on
//! the `def`/`class` header line of an enclosing definition.

use vstd::prelude::*;

use vstd::string::StringSliceAdditionalSpecFns;
use vstd::utf8::is_continuation_byte;

use crate::syntax::{Stmt, StmtKind, TextRange, Child};
use crate::text::{
    chars_of, chars_start_with, find_char_from, index_of, lines_chars, lines_spec, push_char,
    push_str, seq_starts_with, slice_chars, split_chars, split_spec, string_of, trim_chars,
    trim_spec, trim_start_chars, trim_start_spec, views,
};

verus! {

broadcast use vstd::string::group_string_axioms;

/// Whether a finding fails the run.
#[derive(Debug, Clone, Copy, PartialEq, Eq, Structural, PartialOrd, Ord)]
pub enum Level {
    /// Fails the run.
    Deny,
    /// Reported, does not fail the run.
    Warn,
}

pub open spec fn level_str(l: Level) -> Seq<char> {
    match l {
        Level::Deny => "deny"@,
        Level::Warn => "warn"@,
    }
}

impl Level {
    pub fn as_str(self) -> (r: &'static str)
        ensures
            r@ == level_str(self),
    {
        match self {
            Level::Deny => "deny",
            Level::Warn => "warn",
        }
    }
}

/// The lints this crate emits. The level is a property of the lint.
#[derive(Debug, Clone, Copy, PartialEq, Eq, Structural, PartialOrd, Ord)]
pub enum Lint {
    /// Prod mode: a sink named outside a covering shim implementation.
    ShimNondeterminism,
    /// Sim mode: a sink named anywhere in the import closure of a sim root.
    SimNondeterminism,
    /// Something the analysis cannot see through.
    Unresolved,
}

pub open spec fn lint_name(l: Lint) -> Seq<char> {
    match l {
        Lint::ShimNondeterminism => "shim-nondeterminism"@,
        Lint::SimNondeterminism => "sim-nondeterminism"@,
        Lint::Unresolved => "unresolved"@,
    }
}

pub open spec fn lint_level(l: Lint) -> Level {
    match l {
        Lint::ShimNondeterminism | Lint::SimNondeterminism => Level::Deny,
        Lint::Unresolved => Level::Warn,
    }
}

/// The position of a lint in the declaration order, which orders diagnostics.
pub open spec fn lint_rank(l: Lint) -> int {
    match l {
        Lint::ShimNondeterminism => 0,
        Lint::SimNondeterminism => 1,
        Lint::Unresolved => 2,
    }
}

impl Lint {
    pub fn name(self) -> (r: &'static str)
        ensures
            r@ == lint_name(self),
    {
        match self {
            Lint::ShimNondeterminism => "shim-nondeterminism",
            Lint::SimNondeterminism => "sim-nondeterminism",
            Lint::Unresolved => "unresolved",
        }
    }

    pub fn level(self) -> (r: Level)
        ensures
            r == lint_level(self),
    {
        match self {
            Lint::ShimNondeterminism | Lint::SimNondeterminism => Level::Deny,
            Lint::Unresolved => Level::Warn,
        }
    }

    pub fn rank(self) -> (r: u8)
        ensures
            r == lint_rank(self),
    {
        match self {
            Lint::ShimNondeterminism => 0,
            Lint::SimNondeterminism => 1,
            Lint::Unresolved => 2,
        }
    }
}

pub open spec fn digit_char(d: int) -> char {
    if d == 0 { '0' } else if d == 1 { '1' } else if d == 2 { '2' } else if d == 3 { '3' }
    else if d == 4 { '4' } else if d == 5 { '5' } else if d == 6 { '6' } else if d == 7 { '7' }
    else if d == 8 { '8' } else { '9' }
}

/// The decimal digits of `n`.
pub open spec fn decimal_spec(n: nat) -> Seq<char>
    decreases n,
{
    if n < 10 {
        seq![digit_char(n as int)]
    } else {
        decimal_spec(n / 10).push(digit_char((n % 10) as int))
    }
}

fn digit(d: u64) -> (r: char)
    requires
        d < 10,
    ensures
        r == digit_char(d as int),
{
    if d == 0 { '0' } else if d == 1 { '1' } else if d == 2 { '2' } else if d == 3 { '3' }
    else if d == 4 { '4' } else if d == 5 { '5' } else if d == 6 { '6' } else if d == 7 { '7' }
    else if d == 8 { '8' } else { '9' }
}

/// The decimal rendering of `n`.
pub fn decimal(n: u64) -> (r: String)
    ensures
        r@ == decimal_spec(n as nat),
    decreases n,
{
    if n < 10 {
        let mut s = String::new();
        push_char(&mut s, digit(n));
        s
    } else {
        let mut s = decimal(n / 10);
        push_char(&mut s, digit(n % 10));
        s
    }
}

#[derive(Debug)]
pub struct Diagnostic {
    pub lint: Lint,
    /// Absolute path of the file.
    pub path: String,
    /// Path as shown to the user, relative to the config directory.
    pub display_path: String,
    pub range: TextRange,
    /// 1-based line of `range.start`.
    pub line: u32,
    /// 1-based character column of `range.start`.
    pub column: u32,
    /// Headline of the rendered report.
    pub title: String,
    /// Inline label under the highlighted span.
    pub label: String,
    /// Trailing notes: witness chains, blessing context, fix guidance.
    pub notes: Vec<String>,
    /// Stable machine-comparable tail, used by the golden files.
    pub detail: String,
}

/// `<level> <lint> <file>:<line>:<col> <detail>`.
pub open spec fn summary_spec(d: Diagnostic) -> Seq<char> {
    level_str(lint_level(d.lint)) + " "@ + lint_name(d.lint) + " "@ + d.display_path@ + ":"@
        + decimal_spec(d.line as nat) + ":"@ + decimal_spec(d.column as nat) + " "@ + d.detail@
}

/// `i` starts a character of the UTF-8 text `bytes`, or is its end.
pub open spec fn byte_boundary(bytes: Seq<u8>, i: int) -> bool {
    i == bytes.len() || (0 <= i < bytes.len() && !is_continuation_byte(bytes[i]))
}

/// What annotate-snippets' plain renderer produces for one report: a primary
/// title at error (or warning) level with an id, one snippet of `source`
/// under `path`, folded, with a primary annotation over `start..end` carrying
/// `label`, followed by one note per entry of `notes`.
pub uninterp spec fn snippet_report(
    error: bool,
    title: Seq<char>,
    id: Seq<char>,
    source: Seq<char>,
    path: Seq<char>,
    start: usize,
    end: usize,
    label: Seq<char>,
    notes: Seq<Seq<char>>,
) -> Seq<char>;

/// Renders one report through `annotate_snippets::annotate_snippets::Renderer::plain().render`.
/// The renderer panics on an annotation past the end of the source and when
/// slicing the source inside a character, so the span must lie within
/// `source` on character boundaries. Nothing is claimed about the text beyond
/// its being determined by the arguments.
#[verifier::external_body]
fn render_snippet(
    error: bool,
    title: &str,
    id: &str,
    source: &str,
    path: &str,
    start: usize,
    end: usize,
    label: &str,
    notes: &Vec<String>,
) -> (r: String)
    requires
        start <= end <= source.spec_bytes().len(),
        byte_boundary(source.spec_bytes(), start as int),
        byte_boundary(source.spec_bytes(), end as int),
    ensures
        r@ == snippet_report(error, title@, id@, source@, path@, start, end, label@, views(notes@)),
{
    let level = if error { annotate_snippets::Level::ERROR } else { annotate_snippets::Level::WARNING };
    let snippet = annotate_snippets::Snippet::source(source).path(path).fold(true).annotation(
        annotate_snippets::AnnotationKind::Primary.span(start..end).label(label),
    );
    let group = level.primary_title(title).id(id).element(snippet).elements(
        notes.iter().map(|note| annotate_snippets::Level::NOTE.message(note.as_str())),
    );
    annotate_snippets::Renderer::plain().render(&[group])
}

impl Diagnostic {
    pub fn level(&self) -> (r: Level)
        ensures
            r == lint_level(self.lint),
    {
        self.lint.level()
    }

    /// One line, stable across renderer versions: the golden-file format.
    pub fn summary(&self) -> (r: String)
        ensures
            r@ == summary_spec(*self),
    {
        let mut out = String::new();
        push_str(&mut out, self.level().as_str());
        push_str(&mut out, " ");
        push_str(&mut out, self.lint.name());
        push_str(&mut out, " ");
        push_str(&mut out, self.display_path.as_str());
        push_str(&mut out, ":");
        let line = decimal(self.line as u64);
        push_str(&mut out, line.as_str());
        push_str(&mut out, ":");
        let column = decimal(self.column as u64);
        push_str(&mut out, column.as_str());
        push_str(&mut out, " ");
        push_str(&mut out, self.detail.as_str());
        out
    }

    /// The human-facing snippet. `source` must be the file this diagnostic
    /// points into.
    pub fn render(&self, source: &str) -> (r: String)
        requires
            self.range.start <= self.range.end <= source.spec_bytes().len(),
            byte_boundary(source.spec_bytes(), self.range.start as int),
            byte_boundary(source.spec_bytes(), self.range.end as int),
        ensures
            r@ == snippet_report(
                lint_level(self.lint) == Level::Deny,
                self.title@,
                lint_name(self.lint),
                source@,
                self.display_path@,
                self.range.start as usize,
                self.range.end as usize,
                self.label@,
                views(self.notes@),
            ),
    {
        let error = match self.level() {
            Level::Deny => true,
            Level::Warn => false,
        };
        render_snippet(
            error,
            self.title.as_str(),
            self.lint.name(),
            source,
            self.display_path.as_str(),
            self.range.start as usize,
            self.range.end as usize,
            self.label.as_str(),
            &self.notes,
        )
    }
}


/// The number of entries of `s` that are at most `x`.
pub open spec fn count_le(s: Seq<u32>, x: u32) -> nat
    decreases s.len(),
{
    if s.len() == 0 {
        0
    } else {
        count_le(s.drop_last(), x) + if s.last() <= x { 1nat } else { 0nat }
    }
}

/// Byte offsets at which a line starts after a `\n` in `b`.
pub open spec fn newline_starts(b: Seq<u8>) -> Seq<u32>
    decreases b.len(),
{
    if b.len() == 0 {
        Seq::empty()
    } else if b.last() == 10u8 {
        newline_starts(b.drop_last()).push(b.len() as u32)
    } else {
        newline_starts(b.drop_last())
    }
}

/// The byte offset of every line start of `b`.
pub open spec fn line_starts_spec(b: Seq<u8>) -> Seq<u32> {
    seq![0u32] + newline_starts(b)
}

pub open spec fn sorted_u32(s: Seq<u32>) -> bool {
    forall|i: int, j: int| 0 <= i <= j < s.len() ==> s[i] <= s[j]
}

/// The number of bytes of `b` that begin a character.
pub open spec fn char_count(b: Seq<u8>) -> nat
    decreases b.len(),
{
    if b.len() == 0 {
        0
    } else {
        char_count(b.drop_last()) + if is_continuation_byte(b.last()) { 0nat } else { 1nat }
    }
}

/// The number of `\n` bytes in `b`.
pub open spec fn newline_count(b: Seq<u8>) -> nat
    decreases b.len(),
{
    if b.len() == 0 {
        0
    } else {
        newline_count(b.drop_last()) + if b.last() == 10u8 { 1nat } else { 0nat }
    }
}

proof fn lemma_newline_starts_count(b: Seq<u8>, o: u32)
    requires
        b.len() < u32::MAX,
    ensures
        count_le(newline_starts(b), o) == newline_count(b.take(if o <= b.len() { o as int } else { b.len() as int })),
    decreases b.len(),
{
    if b.len() == 0 {
        assert(b.take(0) =~= b);
    } else {
        let n = b.len() as int;
        let init = b.drop_last();
        lemma_newline_starts_count(init, o);
        let earlier = newline_starts(init);
        if b.last() == 10u8 {
            assert(earlier.push(n as u32).drop_last() =~= earlier);
        }
        if (o as int) < n {
            assert(init.take(o as int) =~= b.take(o as int));
        } else {
            assert(init.take(n - 1) =~= init);
            assert(b.take(n) =~= b);
        }
    }
}

/// A line number counts the newlines before the offset: the line that
/// byte offset `o` of a source lies on is one more than the number of `\n`
/// bytes before it; so the first byte is on line 1.
pub proof fn law_line_counts_newlines(index: LineIndex, source: &str, o: u32)
    requires
        source.spec_bytes().len() < u32::MAX,
        index.starts_view() == line_starts_spec(source.spec_bytes()),
        o <= source.spec_bytes().len(),
    ensures
        count_le(index.starts_view(), o) == 1 + newline_count(source.spec_bytes().take(o as int)),
{
    let b = source.spec_bytes();
    lemma_newline_starts_count(b, o);
    lemma_count_le_prepend(newline_starts(b), 0u32, o);
    assert(line_starts_spec(b) == seq![0u32] + newline_starts(b));
}

/// Line numbers never decrease as the offset grows.
pub proof fn law_lines_never_decrease(index: LineIndex, a: u32, b: u32)
    requires
        a <= b,
    ensures
        count_le(index.starts_view(), a) <= count_le(index.starts_view(), b),
{
    lemma_count_le_mono(index.starts_view(), a, b);
}

proof fn lemma_count_le_mono(s: Seq<u32>, a: u32, b: u32)
    requires
        a <= b,
    ensures
        count_le(s, a) <= count_le(s, b),
    decreases s.len(),
{
    if s.len() > 0 {
        lemma_count_le_mono(s.drop_last(), a, b);
    }
}

proof fn lemma_count_le_prepend(s: Seq<u32>, first: u32, x: u32)
    requires
        first <= x,
    ensures
        count_le(seq![first] + s, x) == 1 + count_le(s, x),
    decreases s.len(),
{
    let t = seq![first] + s;
    assert(t.len() == s.len() + 1);
    assert(count_le(t, x) == count_le(t.drop_last(), x) + if t.last() <= x { 1nat } else { 0nat });
    if s.len() > 0 {
        lemma_count_le_prepend(s.drop_last(), first, x);
        assert(t.drop_last() =~= seq![first] + s.drop_last());
        assert(t.last() == s.last());
    } else {
        assert(t.drop_last() =~= Seq::<u32>::empty());
        assert(t.last() == first);
    }
}

/// Byte offset to 1-based (line, column).
#[derive(Debug)]
pub struct LineIndex {
    starts: Vec<u32>,
}

proof fn lemma_count_le_sorted(s: Seq<u32>, x: u32, p: int)
    requires
        sorted_u32(s),
        0 <= p <= s.len(),
        forall|k: int| 0 <= k < p ==> s[k] <= x,
        forall|k: int| p <= k < s.len() ==> s[k] > x,
    ensures
        count_le(s, x) == p,
    decreases s.len(),
{
    if s.len() > 0 {
        if p == s.len() {
            lemma_count_le_sorted(s.drop_last(), x, p - 1);
        } else {
            lemma_count_le_sorted(s.drop_last(), x, p);
        }
    }
}

impl LineIndex {
    #[verifier::type_invariant]
    closed spec fn well_formed(&self) -> bool {
        &&& self.starts@.len() >= 1
        &&& self.starts@[0] == 0
        &&& sorted_u32(self.starts@)
        &&& self.starts@.len() <= u32::MAX
    }

    /// The byte offset of every line start.
    pub closed spec fn starts_view(&self) -> Seq<u32> {
        self.starts@
    }

    pub fn new(source: &str) -> (r: LineIndex)
        requires
            source.spec_bytes().len() < u32::MAX,
        ensures
            r.starts_view() == line_starts_spec(source.spec_bytes()),
    {
        let bytes = source.as_bytes();
        let mut starts: Vec<u32> = Vec::new();
        starts.push(0);
        let mut offset: usize = 0;
        while offset < bytes.len()
            invariant
                bytes@ == source.spec_bytes(),
                bytes@.len() < u32::MAX,
                offset <= bytes@.len(),
                starts@ == line_starts_spec(bytes@.take(offset as int)),
                starts@.len() <= offset + 1,
                sorted_u32(starts@),
                forall|k: int| 0 <= k < starts@.len() ==> starts@[k] <= offset,
            decreases bytes@.len() - offset,
        {
            let ghost before = bytes@.take(offset as int);
            assert(bytes@.take(offset + 1).drop_last() =~= before);
            if bytes[offset] == 10u8 {
                starts.push((offset + 1) as u32);
                assert(line_starts_spec(bytes@.take(offset + 1)) =~= line_starts_spec(before).push((offset + 1) as u32));
            } else {
                assert(line_starts_spec(bytes@.take(offset + 1)) =~= line_starts_spec(before));
            }
            offset = offset + 1;
        }
        assert(bytes@.take(offset as int) =~= bytes@);
        LineIndex { starts }
    }

    /// The 1-based line containing `offset`: the number of line starts at or
    /// before it.
    pub fn line(&self, offset: u32) -> (r: u32)
        ensures
            r == count_le(self.starts_view(), offset),
            1 <= r <= self.starts_view().len(),
    {
        proof { use_type_invariant(self); }
        let mut lo: usize = 0;
        let mut hi: usize = self.starts.len();
        while lo < hi
            invariant
                0 <= lo <= hi <= self.starts@.len(),
                sorted_u32(self.starts@),
                forall|k: int| 0 <= k < lo ==> self.starts@[k] <= offset,
                forall|k: int| hi <= k < self.starts@.len() ==> self.starts@[k] > offset,
            decreases hi - lo,
        {
            let mid = lo + (hi - lo) / 2;
            if self.starts[mid] <= offset {
                lo = mid + 1;
            } else {
                hi = mid;
            }
        }
        proof {
            lemma_count_le_sorted(self.starts@, offset, lo as int);
        }
        assert(self.starts@[0] <= offset);
        lo as u32
    }

    /// 1-based (line, column), the column counted in characters from the
    /// start of the line; 1 when `offset` does not fall on a character
    /// boundary of `source`.
    pub fn line_column(&self, source: &str, offset: u32) -> (r: (u32, u32))
        requires
            source.spec_bytes().len() < u32::MAX,
        ensures
            r.0 == count_le(self.starts_view(), offset),
            ({
                let b = source.spec_bytes();
                let start = self.starts_view()[r.0 - 1] as int;
                let end = if offset as int <= b.len() { offset as int } else { b.len() as int };
                r.1 == 1 + if start <= end && byte_boundary(b, start) && byte_boundary(b, end) {
                    char_count(b.subrange(start, end))
                } else {
                    0
                }
            }),
    {
        proof { use_type_invariant(self); }
        let line = self.line(offset);
        let bytes = source.as_bytes();
        let start = self.starts[(line - 1) as usize] as usize;
        let end: usize = if (offset as usize) <= bytes.len() { offset as usize } else { bytes.len() };
        let boundary_start = start == bytes.len() || (start < bytes.len() && !(0x80 <= bytes[start] && bytes[start] <= 0xbf));
        let boundary_end = end == bytes.len() || (end < bytes.len() && !(0x80 <= bytes[end] && bytes[end] <= 0xbf));
        let mut column: u32 = 0;
        if start <= end && boundary_start && boundary_end {
            let mut k: usize = start;
            while k < end
                invariant
                    bytes@ == source.spec_bytes(),
                    start <= k <= end <= bytes@.len() < u32::MAX,
                    column == char_count(bytes@.subrange(start as int, k as int)),
                    column <= k - start,
                decreases end - k,
            {
                assert(bytes@.subrange(start as int, k + 1).drop_last() =~= bytes@.subrange(start as int, k as int));
                if !(0x80 <= bytes[k] && bytes[k] <= 0xbf) {
                    column = column + 1;
                }
                k = k + 1;
            }
        }
        (line, column + 1)
    }
}

/// The lint names allowed by a `# triglint: allow(a, b)` marker on a source
/// line: the comma-separated names between `allow(` and the next `)`,
/// trimmed, empty ones dropped; `None` when the line has no such marker or it
/// names nothing.
pub open spec fn parse_allow_spec(text: Seq<char>) -> Option<Seq<Seq<char>>> {
    match index_of(text, '#') {
        None => None,
        Some(c) => {
            let body = trim_spec(text.skip(c + 1));
            if !seq_starts_with(body, "triglint:"@) {
                None
            } else {
                let rest = trim_start_spec(body.skip("triglint:"@.len() as int));
                if !seq_starts_with(rest, "allow("@) {
                    None
                } else {
                    let inner = rest.skip("allow("@.len() as int);
                    match index_of(inner, ')') {
                        None => None,
                        Some(e) => {
                            let names = trimmed_names(split_spec(inner.take(e), ','));
                            if names.len() == 0 { None } else { Some(names) }
                        },
                    }
                }
            }
        },
    }
}

/// Each piece trimmed, empty ones dropped.
pub open spec fn trimmed_names(pieces: Seq<Seq<char>>) -> Seq<Seq<char>>
    decreases pieces.len(),
{
    if pieces.len() == 0 {
        Seq::empty()
    } else {
        let earlier = trimmed_names(pieces.drop_last());
        let t = trim_spec(pieces.last());
        if t.len() > 0 { earlier.push(t) } else { earlier }
    }
}

pub open spec fn opt_views(o: Option<Vec<String>>) -> Option<Seq<Seq<char>>> {
    match o {
        Some(v) => Some(views(v@)),
        None => None,
    }
}

/// Parses `# triglint: allow(a, b)` out of a source line, if present.
pub fn parse_allow(text: &str) -> (r: Option<Vec<String>>)
    ensures
        opt_views(r) == parse_allow_spec(text@),
{
    let t = chars_of(text);
    let comment = match find_char_from(t.as_slice(), '#', 0) {
        Some(c) => c,
        None => {
            assert(t@.skip(0) =~= t@);
            return None;
        },
    };
    assert(t@.skip(0) =~= t@);
    let n = t.len();
    assert(comment < n);
    let after = slice_chars(t.as_slice(), comment + 1, t.len());
    assert(after@ =~= text@.skip(comment + 1));
    let body = trim_chars(after.as_slice());
    let prefix = chars_of("triglint:");
    if !chars_start_with(body.as_slice(), prefix.as_slice()) {
        return None;
    }
    let tail = slice_chars(body.as_slice(), prefix.len(), body.len());
    assert(tail@ =~= body@.skip(prefix@.len() as int));
    let rest = trim_start_chars(tail.as_slice());
    let allow = chars_of("allow(");
    if !chars_start_with(rest.as_slice(), allow.as_slice()) {
        return None;
    }
    let inner = slice_chars(rest.as_slice(), allow.len(), rest.len());
    assert(inner@ =~= rest@.skip(allow@.len() as int));
    let end = match find_char_from(inner.as_slice(), ')', 0) {
        Some(e) => e,
        None => {
            assert(inner@.skip(0) =~= inner@);
            return None;
        },
    };
    assert(inner@.skip(0) =~= inner@);
    let list = slice_chars(inner.as_slice(), 0, end);
    assert(list@ =~= inner@.take(end as int));
    let pieces = split_chars(list.as_slice(), ',');
    let ghost ps = split_spec(list@, ',');
    let mut names: Vec<String> = Vec::new();
    let mut i: usize = 0;
    while i < pieces.len()
        invariant
            i <= pieces@.len(),
            pieces@.len() == ps.len(),
            forall|k: int| 0 <= k < pieces@.len() ==> #[trigger] pieces@[k]@ == ps[k],
            views(names@) == trimmed_names(ps.take(i as int)),
        decreases pieces@.len() - i,
    {
        assert(ps.take(i + 1).drop_last() =~= ps.take(i as int));
        let trimmed = trim_chars(pieces[i].as_slice());
        if trimmed.len() > 0 {
            let ghost before = names@;
            let s = string_of(trimmed.as_slice());
            names.push(s);
            assert(views(names@) =~= views(before).push(s@));
        }
        i = i + 1;
    }
    assert(ps.take(i as int) =~= ps);
    if names.len() == 0 {
        None
    } else {
        Some(names)
    }
}


/// The `def`/`class` statements of a body, nested ones included, in source
/// order: each statement's range and the offset of its name.
pub open spec fn def_headers(body: Seq<Stmt>) -> Seq<(TextRange, u32)>
    decreases body,
{
    if body.len() == 0 {
        Seq::empty()
    } else {
        def_headers(body.drop_last()) + stmt_headers(body.last())
    }
}

pub open spec fn stmt_headers(s: Stmt) -> Seq<(TextRange, u32)>
    decreases s,
{
    match s.kind {
        StmtKind::FunctionDef { name_start, body, .. } => seq![(s.range, name_start)] + def_headers(body@),
        StmtKind::ClassDef { name_start, body, .. } => seq![(s.range, name_start)] + def_headers(body@),
        StmtKind::Other { children } => child_headers(children@),
        _ => Seq::empty(),
    }
}

pub open spec fn child_headers(children: Seq<Child>) -> Seq<(TextRange, u32)>
    decreases children,
{
    if children.len() == 0 {
        Seq::empty()
    } else {
        child_headers(children.drop_last()) + match children.last() {
            Child::Stmt(st) => stmt_headers(st),
            Child::Expr(_) => Seq::empty(),
        }
    }
}

/// `d` is one of the statements of `body`, or nested inside one of them
/// (in a function or class body, or among another statement's children).
pub open spec fn body_holds(body: Seq<Stmt>, d: Stmt) -> bool
    decreases body,
{
    body.len() > 0 && (body_holds(body.drop_last(), d) || stmt_holds(body.last(), d))
}

/// `d` is `s` or is nested inside it.
pub open spec fn stmt_holds(s: Stmt, d: Stmt) -> bool
    decreases s,
{
    s == d || match s.kind {
        StmtKind::FunctionDef { body, .. } => body_holds(body@, d),
        StmtKind::ClassDef { body, .. } => body_holds(body@, d),
        StmtKind::Other { children } => children_hold(children@, d),
        _ => false,
    }
}

/// `d` is among the statement children or nested inside one.
pub open spec fn children_hold(children: Seq<Child>, d: Stmt) -> bool
    decreases children,
{
    children.len() > 0 && (children_hold(children.drop_last(), d) || match children.last() {
        Child::Stmt(st) => stmt_holds(st, d),
        Child::Expr(_) => false,
    })
}

/// The header of a function or class definition: its range and the offset
/// of its name.
pub open spec fn header_of(d: Stmt) -> Option<(TextRange, u32)> {
    match d.kind {
        StmtKind::FunctionDef { name_start, .. } => Some((d.range, name_start)),
        StmtKind::ClassDef { name_start, .. } => Some((d.range, name_start)),
        _ => None,
    }
}

proof fn lemma_body_headers(body: Seq<Stmt>, d: Stmt)
    requires
        body_holds(body, d),
        header_of(d) is Some,
    ensures
        def_headers(body).contains(header_of(d)->Some_0),
    decreases body,
{
    let h = header_of(d)->Some_0;
    let init = body.drop_last();
    let a = def_headers(init);
    let b = stmt_headers(body.last());
    if body_holds(init, d) {
        lemma_body_headers(init, d);
        let j = choose|j: int| 0 <= j < a.len() && a[j] == h;
        assert((a + b)[j] == h);
    } else {
        lemma_stmt_headers(body.last(), d);
        let j = choose|j: int| 0 <= j < b.len() && b[j] == h;
        assert((a + b)[a.len() + j] == h);
    }
}

proof fn lemma_stmt_headers(s: Stmt, d: Stmt)
    requires
        stmt_holds(s, d),
        header_of(d) is Some,
    ensures
        stmt_headers(s).contains(header_of(d)->Some_0),
    decreases s,
{
    let h = header_of(d)->Some_0;
    if s == d {
        assert(stmt_headers(s)[0] == h);
    } else {
        match s.kind {
            StmtKind::FunctionDef { body, .. } => {
                lemma_body_headers(body@, d);
                let a = def_headers(body@);
                let j = choose|j: int| 0 <= j < a.len() && a[j] == h;
                assert((seq![(s.range, s.kind->FunctionDef_name_start)] + a)[j + 1] == h);
            },
            StmtKind::ClassDef { body, .. } => {
                lemma_body_headers(body@, d);
                let a = def_headers(body@);
                let j = choose|j: int| 0 <= j < a.len() && a[j] == h;
                assert((seq![(s.range, s.kind->ClassDef_name_start)] + a)[j + 1] == h);
            },
            StmtKind::Other { children } => {
                lemma_children_headers(children@, d);
            },
            _ => {},
        }
    }
}

proof fn lemma_children_headers(children: Seq<Child>, d: Stmt)
    requires
        children_hold(children, d),
        header_of(d) is Some,
    ensures
        child_headers(children).contains(header_of(d)->Some_0),
    decreases children,
{
    let h = header_of(d)->Some_0;
    let init = children.drop_last();
    let a = child_headers(init);
    let b = match children.last() {
        Child::Stmt(st) => stmt_headers(st),
        Child::Expr(_) => Seq::empty(),
    };
    if children_hold(init, d) {
        lemma_children_headers(init, d);
        let j = choose|j: int| 0 <= j < a.len() && a[j] == h;
        assert((a + b)[j] == h);
    } else {
        match children.last() {
            Child::Stmt(st) => {
                lemma_stmt_headers(st, d);
                let j = choose|j: int| 0 <= j < b.len() && b[j] == h;
                assert((a + b)[a.len() + j] == h);
            },
            Child::Expr(_) => {},
        }
    }
}

/// Every function and class definition of a module, at any depth, is a
/// definition an allow marker on its header line can cover: its range and
/// the offset of its name are among the module's definition headers.
pub proof fn law_every_definition_has_a_header(body: Seq<Stmt>, d: Stmt)
    requires
        body_holds(body, d),
    ensures
        d.kind is FunctionDef ==> def_headers(body).contains((d.range, d.kind->FunctionDef_name_start)),
        d.kind is ClassDef ==> def_headers(body).contains((d.range, d.kind->ClassDef_name_start)),
{
    if header_of(d) is Some {
        lemma_body_headers(body, d);
    }
}

proof fn lemma_allowed_defs_include(headers: Seq<(TextRange, u32)>, lines: Seq<Seq<char>>, starts: Seq<u32>, h: (TextRange, u32))
    requires
        headers.contains(h),
        allowed_on(lines, count_le(starts, h.1) as int) is Some,
    ensures
        allowed_defs(headers, lines, starts).contains((h.0, allowed_on(lines, count_le(starts, h.1) as int)->Some_0)),
    decreases headers.len(),
{
    let e = (h.0, allowed_on(lines, count_le(starts, h.1) as int)->Some_0);
    let init = headers.drop_last();
    let earlier = allowed_defs(init, lines, starts);
    if headers.last() == h {
        assert(allowed_defs(headers, lines, starts) == earlier.push(e));
        assert(earlier.push(e)[earlier.len() as int] == e);
    } else {
        let j = choose|j: int| 0 <= j < headers.len() && headers[j] == h;
        assert(init[j] == h);
        lemma_allowed_defs_include(init, lines, starts, h);
        let q = choose|q: int| 0 <= q < earlier.len() && earlier[q] == e;
        match allowed_on(lines, count_le(starts, headers.last().1) as int) {
            Some(names) => assert(earlier.push((headers.last().0, names))[q] == e),
            None => {},
        }
    }
}

/// An allow marker on the header line of a function or class definition,
/// at any depth, covers the whole definition: the definition's range is
/// among the allowed ranges with the names the marker allows.
pub proof fn law_header_marker_covers_the_definition(body: Seq<Stmt>, lines: Seq<Seq<char>>, starts: Seq<u32>, d: Stmt)
    requires
        body_holds(body, d),
        header_of(d) is Some,
        allowed_on(lines, count_le(starts, header_of(d)->Some_0.1) as int) is Some,
    ensures
        allowed_defs(def_headers(body), lines, starts).contains(
            (d.range, allowed_on(lines, count_le(starts, header_of(d)->Some_0.1) as int)->Some_0),
        ),
{
    lemma_body_headers(body, d);
    lemma_allowed_defs_include(def_headers(body), lines, starts, header_of(d)->Some_0);
}

fn collect_headers(body: &Vec<Stmt>, out: &mut Vec<(TextRange, u32)>)
    ensures
        final(out)@ == old(out)@ + def_headers(body@),
    decreases body@,
{
    let ghost start = out@;
    let mut i: usize = 0;
    while i < body.len()
        invariant
            i <= body@.len(),
            out@ == start + def_headers(body@.take(i as int)),
        decreases body@.len() - i,
    {
        assert(body@.take(i + 1).drop_last() =~= body@.take(i as int));
        assert(body@.take(i + 1).last() == body@[i as int]);
        collect_stmt_headers(&body[i], out);
        assert(out@ =~= start + def_headers(body@.take(i + 1)));
        i = i + 1;
    }
    assert(body@.take(i as int) =~= body@);
}

fn collect_stmt_headers(s: &Stmt, out: &mut Vec<(TextRange, u32)>)
    ensures
        final(out)@ == old(out)@ + stmt_headers(*s),
    decreases *s,
{
    let ghost start = out@;
    match &s.kind {
        StmtKind::FunctionDef { name_start, body, .. } => {
            out.push((s.range, *name_start));
            collect_headers(body, out);
            assert(out@ =~= start + stmt_headers(*s));
        },
        StmtKind::ClassDef { name_start, body, .. } => {
            out.push((s.range, *name_start));
            collect_headers(body, out);
            assert(out@ =~= start + stmt_headers(*s));
        },
        StmtKind::Other { children } => {
            let mut i: usize = 0;
            while i < children.len()
                invariant
                    s.kind is Other,
                    s.kind->Other_children == *children,
                    i <= children@.len(),
                    out@ == start + child_headers(children@.take(i as int)),
                decreases children@.len() - i,
            {
                assert(children@.take(i + 1).drop_last() =~= children@.take(i as int));
                assert(children@.take(i + 1).last() == children@[i as int]);
                match &children[i] {
                    Child::Stmt(st) => {
                        proof {
                            assert(decreases_to!(*s => *st)) by {
                                assert(decreases_to!(s.kind => children@[i as int]));
                            }
                        }
                        collect_stmt_headers(st, out)
                    },
                    Child::Expr(_) => {},
                }
                assert(out@ =~= start + child_headers(children@.take(i + 1)));
                i = i + 1;
            }
            assert(children@.take(i as int) =~= children@);
        },
        _ => {
            assert(out@ =~= start + stmt_headers(*s));
        },
    }
}

/// The names a marker on 1-based line `line` of `lines` allows.
pub open spec fn own_marker(lines: Seq<Seq<char>>, line: int) -> Option<Seq<Seq<char>>> {
    if 1 <= line <= lines.len() {
        parse_allow_spec(lines[line - 1])
    } else {
        None
    }
}

/// A marker line holding nothing but the comment.
pub open spec fn standalone_marker(lines: Seq<Seq<char>>, line: int) -> bool {
    own_marker(lines, line) is Some && seq_starts_with(trim_start_spec(lines[line - 1]), seq!['#'])
}

/// The names the standalone marker line directly above `line` allows.
pub open spec fn marker_above(lines: Seq<Seq<char>>, line: int) -> Option<Seq<Seq<char>>> {
    if standalone_marker(lines, line - 1) {
        own_marker(lines, line - 1)
    } else {
        None
    }
}

/// The names allowed on a line: those of its own marker together with those
/// of a standalone marker line directly above it.
pub open spec fn allowed_on(lines: Seq<Seq<char>>, line: int) -> Option<Seq<Seq<char>>> {
    match (own_marker(lines, line), marker_above(lines, line)) {
        (Some(a), Some(b)) => Some(a + b),
        (Some(a), None) => Some(a),
        (None, Some(b)) => Some(b),
        (None, None) => None,
    }
}

/// Definitions whose header line carries allowed names, with those names.
pub open spec fn allowed_defs(headers: Seq<(TextRange, u32)>, lines: Seq<Seq<char>>, starts: Seq<u32>) -> Seq<(TextRange, Seq<Seq<char>>)>
    decreases headers.len(),
{
    if headers.len() == 0 {
        Seq::empty()
    } else {
        let earlier = allowed_defs(headers.drop_last(), lines, starts);
        let h = headers.last();
        match allowed_on(lines, count_le(starts, h.1) as int) {
            Some(names) => earlier.push((h.0, names)),
            None => earlier,
        }
    }
}

/// The `# triglint: allow(...)` markers found in one file.
#[derive(Debug)]
pub struct AllowComments {
    /// Entry `k` holds the names allowed on line `k + 1`.
    by_line: Vec<Option<Vec<String>>>,
    /// Definition ranges whose header line carried a marker.
    by_range: Vec<(TextRange, Vec<String>)>,
}

/// Line `line` (1-based) allows `name`.
pub open spec fn line_allows(by_line: Seq<Option<Seq<Seq<char>>>>, line: int, name: Seq<char>) -> bool {
    1 <= line <= by_line.len() && match by_line[line - 1] {
        Some(names) => names.contains(name),
        None => false,
    }
}

fn copy_names(v: &Vec<String>) -> (r: Vec<String>)
    ensures
        views(r@) == views(v@),
{
    crate::text::copy_strings(v)
}

fn join_names(a: &Vec<String>, b: &Vec<String>) -> (r: Vec<String>)
    ensures
        views(r@) == views(a@) + views(b@),
{
    let mut out = copy_names(a);
    let mut i: usize = 0;
    while i < b.len()
        invariant
            i <= b@.len(),
            views(out@) == views(a@) + views(b@).take(i as int),
        decreases b@.len() - i,
    {
        let ghost before = out@;
        out.push(b[i].clone());
        proof {
            crate::text::lemma_views_push(before, out@.last());
            crate::text::lemma_views_take_push(b@, i as int);
        }
        i = i + 1;
    }
    assert(views(b@).take(b@.len() as int) =~= views(b@));
    out
}

fn contains_name(v: &Vec<String>, name: &str) -> (r: bool)
    ensures
        r == views(v@).contains(name@),
{
    let r = crate::text::contains_str(v, name);
    proof {
        if r {
            let i = choose|i: int| 0 <= i < v@.len() && #[trigger] v@[i]@ == name@;
            assert(views(v@)[i] == name@);
        }
        if views(v@).contains(name@) {
            let i = choose|i: int| 0 <= i < views(v@).len() && views(v@)[i] == name@;
            assert(v@[i]@ == name@);
        }
    }
    r
}

proof fn lemma_lines_len(s: Seq<char>)
    ensures
        lines_spec(s).len() <= s.len(),
    decreases s.len(),
{
    if s.len() > 0 {
        match index_of(s, '\n') {
            None => {},
            Some(i) => {
                if 0 <= i < s.len() {
                    lemma_lines_len(s.skip(i + 1));
                }
            },
        }
    }
}

impl AllowComments {
    /// Names allowed on each line, entry `k` for line `k + 1`.
    pub closed spec fn by_line_view(&self) -> Seq<Option<Seq<Seq<char>>>> {
        self.by_line@.map_values(|o: Option<Vec<String>>| opt_views(o))
    }

    /// Marked definitions: their ranges and allowed names.
    pub closed spec fn by_range_view(&self) -> Seq<(TextRange, Seq<Seq<char>>)> {
        self.by_range@.map_values(|e: (TextRange, Vec<String>)| (e.0, views(e.1@)))
    }

    pub fn scan(source: &str, module: &Vec<Stmt>, index: &LineIndex) -> (r: AllowComments)
        requires
            source@.len() < u32::MAX,
        ensures
            r.by_line_view().len() == lines_spec(source@).len() + 1,
            forall|k: int| 0 <= k < r.by_line_view().len() ==> #[trigger] r.by_line_view()[k]
                == allowed_on(lines_spec(source@), k + 1),
            r.by_range_view() == allowed_defs(def_headers(module@), lines_spec(source@), index.starts_view()),
    {
        let chars = chars_of(source);
        let lines = lines_chars(chars.as_slice());
        let ghost ls = lines_spec(source@);
        proof { lemma_lines_len(source@); }
        let n = lines.len();
        let mut own: Vec<Option<Vec<String>>> = Vec::new();
        let mut standalone: Vec<bool> = Vec::new();
        let hash = chars_of("#");
        assert(hash@ == seq!['#']) by {
            reveal_strlit("#");
        }
        let mut i: usize = 0;
        while i < n
            invariant
                n == lines@.len() == ls.len(),
                forall|k: int| 0 <= k < n ==> #[trigger] lines@[k]@ == ls[k],
                hash@ == seq!['#'],
                i <= n,
                own@.len() == i,
                standalone@.len() == i,
                forall|k: int| 0 <= k < i ==> opt_views(#[trigger] own@[k]) == own_marker(ls, k + 1),
                forall|k: int| 0 <= k < i ==> #[trigger] standalone@[k] == standalone_marker(ls, k + 1),
            decreases n - i,
        {
            let text = string_of(lines[i].as_slice());
            let names = parse_allow(text.as_str());
            let lead = trim_start_chars(lines[i].as_slice());
            let alone = names.is_some() && chars_start_with(lead.as_slice(), hash.as_slice());
            own.push(names);
            standalone.push(alone);
            i = i + 1;
        }
        let mut by_line: Vec<Option<Vec<String>>> = Vec::new();
        let mut idx: usize = 0;
        while idx <= n
            invariant
                n == own@.len() == standalone@.len() == ls.len(),
                n < u32::MAX,
                forall|k: int| 0 <= k < n ==> opt_views(#[trigger] own@[k]) == own_marker(ls, k + 1),
                forall|k: int| 0 <= k < n ==> #[trigger] standalone@[k] == standalone_marker(ls, k + 1),
                0 <= idx <= n + 1,
                by_line@.len() == idx,
                forall|k: int| 0 <= k < idx ==> opt_views(#[trigger] by_line@[k]) == allowed_on(ls, k + 1),
            decreases n + 1 - idx,
        {
            let line = idx + 1;
            let mut entry: Option<Vec<String>> = None;
            if line <= n {
                if let Some(names) = &own[line - 1] {
                    entry = Some(copy_names(names));
                }
            }
            assert(opt_views(entry) == own_marker(ls, line as int));
            if line >= 2 && standalone[line - 2] {
                if let Some(names) = &own[line - 2] {
                    entry = match entry {
                        Some(mine) => Some(join_names(&mine, names)),
                        None => Some(copy_names(names)),
                    };
                }
            }
            by_line.push(entry);
            idx = idx + 1;
        }
        let mut headers: Vec<(TextRange, u32)> = Vec::new();
        collect_headers(module, &mut headers);
        assert(headers@ =~= def_headers(module@));
        let mut by_range: Vec<(TextRange, Vec<String>)> = Vec::new();
        let mut h: usize = 0;
        while h < headers.len()
            invariant
                headers@ == def_headers(module@),
                n == ls.len(),
                by_line@.len() == n + 1,
                forall|k: int| 0 <= k < n + 1 ==> opt_views(#[trigger] by_line@[k]) == allowed_on(ls, k + 1),
                h <= headers@.len(),
                by_range@.map_values(|e: (TextRange, Vec<String>)| (e.0, views(e.1@)))
                    == allowed_defs(headers@.take(h as int), ls, index.starts_view()),
            decreases headers@.len() - h,
        {
            assert(headers@.take(h + 1).drop_last() =~= headers@.take(h as int));
            let (range, name_start) = headers[h];
            let line_no = index.line(name_start) as usize;
            let ghost before = by_range@;
            if line_no - 1 <= n {
                if let Some(names) = &by_line[line_no - 1] {
                    let copy = copy_names(names);
                    by_range.push((range, copy));
                    assert(by_range@.map_values(|e: (TextRange, Vec<String>)| (e.0, views(e.1@)))
                        =~= before.map_values(|e: (TextRange, Vec<String>)| (e.0, views(e.1@))).push((range, views(copy@))));
                } else {
                    assert(by_range@ == before);
                }
            } else {
                assert(allowed_on(ls, line_no as int) is None);
            }
            h = h + 1;
        }
        assert(headers@.take(h as int) =~= headers@);
        let r = AllowComments { by_line, by_range };
        assert forall|k: int| 0 <= k < r.by_line_view().len() implies #[trigger] r.by_line_view()[k]
            == allowed_on(ls, k + 1) by {
            assert(r.by_line_view()[k] == opt_views(r.by_line@[k]));
        }
        r
    }

    /// Whether a finding of `lint` on `line` at byte `offset` is allowed.
    pub fn suppresses(&self, lint: Lint, line: u32, offset: u32) -> (r: bool)
        ensures
            r == (line_allows(self.by_line_view(), line as int, lint_name(lint))
                || exists|k: int| 0 <= k < self.by_range_view().len()
                    && (#[trigger] self.by_range_view()[k]).0.start <= offset && offset < self.by_range_view()[k].0.end
                    && self.by_range_view()[k].1.contains(lint_name(lint))),
    {
        let name = lint.name();
        if line >= 1 && (line as usize) <= self.by_line.len() {
            if let Some(names) = &self.by_line[(line - 1) as usize] {
                assert(self.by_line_view()[line - 1] == opt_views(self.by_line@[line - 1]));
                if contains_name(names, name) {
                    return true;
                }
            }
        }
        let mut k: usize = 0;
        while k < self.by_range.len()
            invariant
                name@ == lint_name(lint),
                k <= self.by_range@.len(),
                forall|j: int| 0 <= j < k ==> !((#[trigger] self.by_range_view()[j]).0.start <= offset
                    && offset < self.by_range_view()[j].0.end && self.by_range_view()[j].1.contains(lint_name(lint))),
            decreases self.by_range@.len() - k,
        {
            let entry = &self.by_range[k];
            assert(self.by_range_view()[k as int] == (entry.0, views(entry.1@)));
            let inside = entry.0.contains(offset);
            let named = contains_name(&entry.1, name);
            assert(self.by_range_view()[k as int].1 == views(entry.1@));
            assert(self.by_range_view()[k as int].0 == entry.0);
            if inside && named {
                assert(self.by_range_view()[k as int].1.contains(lint_name(lint)));
                return true;
            }
            k = k + 1;
        }
        false
    }
}

} // verus!
