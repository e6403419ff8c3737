//! Module collection: source files to dotted module paths.
//!
//! `src/myproj/sim/harness.py` under the source root `src` becomes
//! `myproj.sim.harness`; `src/myproj/__init__.py` becomes `myproj` and is
//! flagged as a package, which is what relative-import resolution keys on.
//! Directories without `__init__.py` still contribute packages (namespace
//! packages), so the flag records what a file *is*.
//!
//! Walking directories and reading files happens at the edge; the decisions
//! about each directory entry, the choice among files mapping to the same
//! module, and the table itself are made here.

use vstd::prelude::*;
use vstd::string::StringSliceAdditionalSpecFns;

use crate::order::{Named, lex_lt, sort_by_name, sorted_by_name, strictly_ascending};
use crate::syntax::Stmt;
use crate::text::{
    chars_of, copy_str, opt_str_ref_view, opt_str_view, push_char, push_str, split_chars,
    split_spec, str_eq, string_of, views,
};

verus! {

broadcast use vstd::string::group_string_axioms;

/// A source root or a file that could not be read.
pub enum CollectError {
    ReadDir { path: String, source: String },
    ReadFile { path: String, source: String },
}

impl CollectError {
    pub open spec fn message_spec(&self) -> Seq<char> {
        match self {
            CollectError::ReadDir { path, source } => "failed to read source root "@ + path@ + ": "@ + source@,
            CollectError::ReadFile { path, source } => "failed to read "@ + path@ + ": "@ + source@,
        }
    }

    /// The message shown for the error.
    pub fn message(&self) -> (r: String)
        ensures
            r@ == self.message_spec(),
    {
        match self {
            CollectError::ReadDir { path, source } => {
                let mut m = copy_str("failed to read source root ");
                push_str(&mut m, path.as_str());
                push_str(&mut m, ": ");
                push_str(&mut m, source.as_str());
                m
            },
            CollectError::ReadFile { path, source } => {
                let mut m = copy_str("failed to read ");
                push_str(&mut m, path.as_str());
                push_str(&mut m, ": ");
                push_str(&mut m, source.as_str());
                m
            },
        }
    }
}

/// Index into a [`ModuleTable`]. Only the table hands these out.
#[derive(Debug, Clone, Copy, PartialEq, Eq, Structural, PartialOrd, Ord, Hash)]
pub struct ModuleId(usize);

impl ModuleId {
    pub closed spec fn spec_index(self) -> usize {
        self.0
    }

    /// Ids at the same position are the same id.
    pub proof fn lemma_same_index(a: ModuleId, b: ModuleId)
        requires
            a.spec_index() == b.spec_index(),
        ensures
            a == b,
    {
    }

    pub fn index(self) -> (r: usize)
        ensures
            r == self.spec_index(),
    {
        self.0
    }
}

/// Whether `c` has the Unicode `Alphabetic` property.
pub uninterp spec fn char_alphabetic(c: char) -> bool;

/// Whether `c` is alphabetic or has a Unicode numeric general category.
pub uninterp spec fn char_alphanumeric(c: char) -> bool;

pub open spec fn ascii_letter(c: char) -> bool {
    ('a' <= c && c <= 'z') || ('A' <= c && c <= 'Z')
}

pub open spec fn ascii_digit(c: char) -> bool {
    '0' <= c && c <= '9'
}

/// `char::is_alphabetic`. Among ASCII characters exactly the letters have
/// the `Alphabetic` property; beyond ASCII only the name is claimed.
#[verifier::external_body]
fn is_alphabetic(c: char) -> (r: bool)
    ensures
        r == char_alphabetic(c),
        (c as u32) < 128 ==> (r <==> ascii_letter(c)),
{
    c.is_alphabetic()
}

/// `char::is_alphanumeric`. Among ASCII characters exactly the letters and
/// the digits qualify; beyond ASCII only the name is claimed.
#[verifier::external_body]
fn is_alphanumeric(c: char) -> (r: bool)
    ensures
        r == char_alphanumeric(c),
        (c as u32) < 128 ==> (r <==> ascii_letter(c) || ascii_digit(c)),
{
    c.is_alphanumeric()
}

/// A Python identifier as far as module names go: a letter or `_`, then
/// letters, digits and `_`.
pub open spec fn identifier_spec(t: Seq<char>) -> bool {
    &&& t.len() > 0
    &&& (t[0] == '_' || char_alphabetic(t[0]))
    &&& forall|i: int| 1 <= i < t.len() ==> (#[trigger] t[i] == '_' || char_alphanumeric(t[i]))
}

pub fn is_identifier(text: &str) -> (r: bool)
    ensures
        r == identifier_spec(text@),
{
    let t = chars_of(text);
    if t.len() == 0 {
        return false;
    }
    if !(t[0] == '_' || is_alphabetic(t[0])) {
        assert(!(t@[0] == '_' || char_alphabetic(t@[0])));
        return false;
    }
    let mut i: usize = 1;
    while i < t.len()
        invariant
            1 <= i <= t@.len(),
            t@ == text@,
            t@[0] == '_' || char_alphabetic(t@[0]),
            forall|k: int| 1 <= k < i ==> (#[trigger] t@[k] == '_' || char_alphanumeric(t@[k])),
        decreases t@.len() - i,
    {
        if !(t[i] == '_' || is_alphanumeric(t[i])) {
            assert(!(t@[i as int] == '_' || char_alphanumeric(t@[i as int])));
            return false;
        }
        i = i + 1;
    }
    true
}

/// The segments joined with `sep` between them.
pub open spec fn join_spec(parts: Seq<Seq<char>>, sep: Seq<char>) -> Seq<char>
    decreases parts.len(),
{
    if parts.len() == 0 {
        Seq::empty()
    } else if parts.len() == 1 {
        parts[0]
    } else {
        join_spec(parts.drop_last(), sep) + sep + parts.last()
    }
}

/// Joins strings with `sep` between them.
pub fn join_strings(parts: &Vec<String>, sep: &str) -> (r: String)
    ensures
        r@ == join_spec(views(parts@), sep@),
{
    let mut out = String::new();
    let mut i: usize = 0;
    while i < parts.len()
        invariant
            i <= parts@.len(),
            out@ == join_spec(views(parts@).take(i as int), sep@),
        decreases parts@.len() - i,
    {
        assert(views(parts@).take(i + 1).drop_last() =~= views(parts@).take(i as int));
        if i > 0 {
            push_str(&mut out, sep);
        }
        push_str(&mut out, parts[i].as_str());
        proof {
            if i == 0 {
                assert(out@ =~= views(parts@).take(1)[0]);
            }
        }
        i = i + 1;
    }
    assert(views(parts@).take(i as int) =~= views(parts@));
    out
}

/// The dotted segments of a package name; none for the empty name.
pub open spec fn package_parts(package: Seq<char>) -> Seq<Seq<char>> {
    if package.len() == 0 {
        Seq::empty()
    } else {
        split_spec(package, '.')
    }
}

/// A relative import resolved against `package`: one leading dot means the
/// package itself and each further dot one level up; `None` when there are
/// more dots than the package name has components (the dots walk past the
/// top-level package) or nothing is left to name.
pub open spec fn resolve_relative_spec(
    package: Seq<char>,
    level: nat,
    tail: Option<Seq<char>>,
) -> Option<Seq<char>> {
    let parts = package_parts(package);
    let pops: int = if level > 0 { level - 1 } else { 0 };
    if level > parts.len() {
        None
    } else {
        let base = join_spec(parts.take(parts.len() - pops), seq!['.']);
        let full = match tail {
            None => base,
            Some(t) => if base.len() == 0 {
                t
            } else {
                base.push('.') + t
            },
        };
        if full.len() == 0 {
            None
        } else {
            Some(full)
        }
    }
}

/// Resolves a relative import to an absolute dotted module path.
///
/// `package` is the importing module's package (see [`Module::package`]),
/// `level` the number of leading dots, `tail` the dotted name after them.
pub fn resolve_relative(package: &str, level: u32, tail: Option<&str>) -> (r: Option<String>)
    ensures
        opt_str_view(r) == resolve_relative_spec(package@, level as nat, opt_str_ref_view(tail)),
{
    let pkg = chars_of(package);
    let pieces: Vec<Vec<char>> = if pkg.len() == 0 {
        Vec::new()
    } else {
        split_chars(pkg.as_slice(), '.')
    };
    let ghost parts = package_parts(package@);
    let mut names: Vec<String> = Vec::new();
    let mut i: usize = 0;
    while i < pieces.len()
        invariant
            i <= pieces@.len(),
            parts == package_parts(package@),
            pieces@.len() == parts.len(),
            forall|k: int| 0 <= k < pieces@.len() ==> #[trigger] pieces@[k]@ == parts[k],
            views(names@) == parts.take(i as int),
        decreases pieces@.len() - i,
    {
        let ghost before = names@;
        names.push(string_of(pieces[i].as_slice()));
        proof {
            crate::text::lemma_views_push(before, names@.last());
            assert(parts.take(i + 1) =~= parts.take(i as int).push(parts[i as int]));
        }
        i = i + 1;
    }
    assert(parts.take(pieces@.len() as int) =~= parts);
    let mut popped: u32 = 1;
    while popped < level
        invariant
            1 <= popped,
            popped <= level || level == 0,
            level == 0 ==> popped == 1,
            parts == package_parts(package@),
            names@.len() + (popped - 1) == parts.len(),
            views(names@) == parts.take(names@.len() as int),
        decreases level - popped,
    {
        if names.len() == 0 {
            return None;
        }
        let ghost before = names@;
        names.pop();
        proof {
            assert(before =~= names@.push(before.last()));
            crate::text::lemma_views_push(names@, before.last());
            assert(parts.take(names@.len() as int) =~= parts.take(before.len() as int).drop_last());
        }
        popped = popped + 1;
    }
    if level > 0 && names.len() == 0 {
        return None;
    }
    let ghost kept = parts.take(parts.len() - (if level > 0 { level - 1 } else { 0int }));
    assert(views(names@) == kept);
    let mut base = join_strings(&names, ".");
    proof {
        reveal_strlit(".");
        assert(".".view() =~= seq!['.']);
    }
    match tail {
        Some(t) => {
            if base.as_str().is_empty() {
                base = copy_str(t);
            } else {
                push_char(&mut base, '.');
                push_str(&mut base, t);
            }
        },
        None => {},
    }
    if base.as_str().is_empty() {
        None
    } else {
        Some(base)
    }
}

/// A piece between separators that names something: neither empty nor `.`.
pub open spec fn names_component(piece: Seq<char>) -> bool {
    piece.len() > 0 && piece != seq!['.']
}

/// The pieces that name something, in order.
pub open spec fn named_pieces(pieces: Seq<Seq<char>>) -> Seq<Seq<char>>
    decreases pieces.len(),
{
    if pieces.len() == 0 {
        Seq::empty()
    } else if names_component(pieces.last()) {
        named_pieces(pieces.drop_last()).push(pieces.last())
    } else {
        named_pieces(pieces.drop_last())
    }
}

/// The components of a path as `Path::components` yields them on Unix, each
/// as its text: `/` for the root, `.` for a leading current-directory mark,
/// then the names between separators. Repeated separators, a trailing
/// separator and `.` pieces after the first leave no component.
pub open spec fn path_components(p: Seq<char>) -> Seq<Seq<char>> {
    let pieces = split_spec(p, '/');
    if p.len() == 0 {
        Seq::empty()
    } else if p[0] == '/' {
        seq![seq!['/']] + named_pieces(pieces)
    } else if pieces[0] == seq!['.'] {
        seq![seq!['.']] + named_pieces(pieces.drop_first())
    } else {
        named_pieces(pieces)
    }
}

/// Components joined by `/`, a leading root component standing for the one
/// leading slash of an absolute path.
pub open spec fn join_components(shown: Seq<Seq<char>>) -> Seq<char> {
    if shown.len() > 0 && shown[0] == seq!['/'] {
        seq!['/'] + join_spec(shown.drop_first(), seq!['/'])
    } else {
        join_spec(shown, seq!['/'])
    }
}

/// `path` relative to `base` when `base`'s components begin it, else
/// `path` itself (an absolute path keeps its one leading slash).
pub open spec fn display_path_spec(base: Seq<char>, path: Seq<char>) -> Seq<char> {
    let b = path_components(base);
    let c = path_components(path);
    let shown = if b.len() <= c.len() && c.take(b.len() as int) == b {
        c.skip(b.len() as int)
    } else {
        c
    };
    join_components(shown)
}

/// The components of `p`, each as a string.
fn components_of(p: &str) -> (r: Vec<String>)
    ensures
        views(r@) == path_components(p@),
{
    let t = chars_of(p);
    let mut out: Vec<String> = Vec::new();
    if t.len() == 0 {
        assert(views(out@) =~= path_components(p@));
        return out;
    }
    let pieces = split_chars(t.as_slice(), '/');
    let ghost ps = split_spec(p@, '/');
    proof {
        crate::text::lemma_split_nonempty(p@, '/');
    }
    let mut i: usize = 0;
    let ghost lead: Seq<Seq<char>> = Seq::empty();
    if t[0] == '/' {
        out.push(crate::text::char_string('/'));
        proof {
            lead = seq![seq!['/']];
        }
    } else if chars_is_dot(pieces[0].as_slice()) {
        out.push(crate::text::char_string('.'));
        i = 1;
        proof {
            lead = seq![seq!['.']];
        }
    }
    proof {
        assert(views(out@) =~= lead);
    }
    let start = i;
    while i < pieces.len()
        invariant
            start <= i <= pieces@.len(),
            start <= 1,
            pieces@.len() == ps.len(),
            forall|k: int| 0 <= k < pieces@.len() ==> #[trigger] pieces@[k]@ == ps[k],
            views(out@) == lead + named_pieces(ps.subrange(start as int, i as int)),
        decreases pieces@.len() - i,
    {
        let ghost before = out@;
        assert(ps.subrange(start as int, i + 1).drop_last() =~= ps.subrange(start as int, i as int));
        assert(ps.subrange(start as int, i + 1).last() == ps[i as int]);
        if pieces[i].len() > 0 && !chars_is_dot(pieces[i].as_slice()) {
            out.push(string_of(pieces[i].as_slice()));
            proof {
                crate::text::lemma_views_push(before, out@.last());
            }
        }
        i = i + 1;
    }
    proof {
        if t@[0] == '/' {
            assert(ps.subrange(0, ps.len() as int) =~= ps);
        } else if ps[0] == seq!['.'] {
            assert(ps.subrange(1, ps.len() as int) =~= ps.drop_first());
        } else {
            assert(ps.subrange(0, ps.len() as int) =~= ps);
        }
    }
    out
}

/// Whether the characters are exactly `.`.
fn chars_is_dot(c: &[char]) -> (r: bool)
    ensures
        r == (c@ == seq!['.']),
{
    if c.len() == 1 && c[0] == '.' {
        assert(c@ =~= seq!['.']);
        true
    } else {
        false
    }
}

/// Renders `path` relative to `base` with forward slashes, falling back to
/// the path itself when it lies outside `base`.
pub fn display_path(base: &str, path: &str) -> (r: String)
    ensures
        r@ == display_path_spec(base@, path@),
{
    let b = components_of(base);
    let c = components_of(path);
    let mut prefix = b.len() <= c.len();
    let mut i: usize = 0;
    while prefix && i < b.len()
        invariant
            i <= b@.len(),
            prefix ==> b@.len() <= c@.len(),
            prefix ==> forall|k: int| 0 <= k < i ==> #[trigger] c@[k]@ == b@[k]@,
            !prefix ==> !(b@.len() <= c@.len() && views(c@).take(b@.len() as int) == views(b@)),
        decreases b@.len() - i,
    {
        if !str_eq(c[i].as_str(), b[i].as_str()) {
            proof {
                if b@.len() <= c@.len() && views(c@).take(b@.len() as int) == views(b@) {
                    assert(views(c@).take(b@.len() as int)[i as int] == c@[i as int]@);
                }
            }
            prefix = false;
        }
        i = i + 1;
    }
    if prefix {
        assert(views(c@).take(b@.len() as int) =~= views(b@));
    }
    let ghost shown_all = if prefix { views(c@).skip(b@.len() as int) } else { views(c@) };
    let first: usize = if prefix { b.len() } else { 0 };
    let rooted = first < c.len() && str_eq(c[first].as_str(), "/");
    proof {
        reveal_strlit("/");
        assert("/".view() =~= seq!['/']);
        assert(views(c@).skip(0) =~= views(c@));
        if first < c@.len() {
            assert(shown_all[0] == c@[first as int]@);
        }
    }
    let start: usize = if rooted { first + 1 } else { first };
    let mut shown: Vec<String> = Vec::new();
    let mut j: usize = start;
    while j < c.len()
        invariant
            start <= j <= c@.len(),
            views(shown@) == views(c@).subrange(start as int, j as int),
        decreases c@.len() - j,
    {
        let ghost before = shown@;
        shown.push(c[j].clone());
        proof {
            crate::text::lemma_views_push(before, shown@.last());
            assert(views(c@).subrange(start as int, j + 1) =~= views(c@).subrange(start as int, j as int).push(c@[j as int]@));
        }
        j = j + 1;
    }
    proof {
        if rooted {
            assert(views(c@).subrange(start as int, c@.len() as int) =~= shown_all.drop_first());
        } else {
            assert(views(c@).subrange(start as int, c@.len() as int) =~= shown_all);
        }
    }
    let joined = join_strings(&shown, "/");
    if rooted {
        let mut out = crate::text::char_string('/');
        push_str(&mut out, joined.as_str());
        proof {
            assert(out@ =~= seq!['/'] + joined@);
        }
        out
    } else {
        joined
    }
}

/// The package a relative import inside a module is relative to: the module
/// itself for a package, else everything before its last dot.
pub open spec fn package_spec(name: Seq<char>, is_package: bool) -> Seq<char> {
    if is_package {
        name
    } else {
        match last_dot(name) {
            Some(d) => name.take(d),
            None => Seq::empty(),
        }
    }
}

/// The position of the last `.` in `s`.
pub open spec fn last_dot(s: Seq<char>) -> Option<int>
    decreases s.len(),
{
    if s.len() == 0 {
        None
    } else if s.last() == '.' {
        Some(s.len() - 1)
    } else {
        last_dot(s.drop_last())
    }
}

pub struct Module {
    pub id: ModuleId,
    /// Dotted module path, e.g. `myproj.sim.harness`.
    pub name: String,
    /// Path to the `.py` file.
    pub path: String,
    /// Path as shown in diagnostics: relative to the config directory, with
    /// forward slashes.
    pub display_path: String,
    /// True for `__init__.py`: the file *is* its package.
    pub is_package: bool,
    pub source: String,
    /// The parsed module body.
    pub body: Vec<Stmt>,
}

impl Module {
    pub fn ast(&self) -> (r: &Vec<Stmt>)
        ensures
            r == &self.body,
    {
        &self.body
    }

    /// The package a relative import inside this module is relative to.
    pub fn package(&self) -> (r: String)
        ensures
            r@ == package_spec(self.name@, self.is_package),
    {
        if self.is_package {
            return copy_str(self.name.as_str());
        }
        let t = chars_of(self.name.as_str());
        let mut j: usize = t.len();
        assert(t@.take(j as int) =~= t@);
        while j > 0 && t[j - 1] != '.'
            invariant
                j <= t@.len(),
                t@ == self.name@,
                last_dot(t@) == last_dot(t@.take(j as int)),
            decreases j,
        {
            assert(t@.take(j as int).drop_last() =~= t@.take(j - 1));
            j = j - 1;
        }
        if j == 0 {
            assert(t@.take(0) =~= Seq::<char>::empty());
            String::new()
        } else {
            assert(t@.take(j as int).last() == '.');
            let head = crate::text::slice_chars(t.as_slice(), 0, j - 1);
            assert(head@ =~= t@.take(j - 1));
            assert(t@.take(j as int).take(j - 1) =~= t@.take(j - 1));
            string_of(head.as_slice())
        }
    }
}

/// A file that could not be parsed, reported rather than skipped.
pub struct UnparsedModule {
    pub path: String,
    pub display_path: String,
    pub error: String,
}

/// A source file found under a source root: its dotted name, its path, and
/// whether it is a package's `__init__.py`.
pub struct FoundFile {
    pub name: String,
    pub path: String,
    pub is_package: bool,
}

impl Named for FoundFile {
    open spec fn name_view(&self) -> Seq<char> {
        self.name@
    }

    fn name_str(&self) -> (r: &str) {
        self.name.as_str()
    }
}

/// One entry of a directory listing: its file name and whether it is a
/// directory.
pub struct Entry {
    pub file_name: String,
    pub is_dir: bool,
}

impl Named for Entry {
    open spec fn name_view(&self) -> Seq<char> {
        self.file_name@
    }

    fn name_str(&self) -> (r: &str) {
        self.file_name.as_str()
    }
}

/// What a directory walk does with one entry.
pub enum EntryAction {
    Skip,
    /// Walk into the directory, its name appended to the prefix.
    Descend,
    /// The entry is the module `name`.
    Module { name: String, is_package: bool },
}

pub ghost enum EntryActionView {
    Skip,
    Descend,
    Module { name: Seq<char>, is_package: bool },
}

impl EntryAction {
    pub open spec fn view(&self) -> EntryActionView {
        match self {
            EntryAction::Skip => EntryActionView::Skip,
            EntryAction::Descend => EntryActionView::Descend,
            EntryAction::Module { name, is_package } => EntryActionView::Module { name: name@, is_package: *is_package },
        }
    }
}

/// Directory names never walked: virtualenvs, caches and build output cannot
/// contribute first-party modules and are expensive to parse.
pub open spec fn skipped_dir_table() -> Seq<Seq<char>> {
    seq!["__pycache__"@, "node_modules"@, "site-packages"@, "venv"@, ".venv"@, "build"@, "dist"@, ".git"@, ".mypy_cache"@, ".pytest_cache"@, ".ruff_cache"@, ".tox"@, "target"@]
}

fn skipped_dirs() -> (r: &'static [&'static str])
    ensures
        r@.len() == skipped_dir_table().len(),
        forall|i: int| 0 <= i < r@.len() ==> #[trigger] r@[i]@ == skipped_dir_table()[i],
{
    &["__pycache__", "node_modules", "site-packages", "venv", ".venv", "build", "dist", ".git", ".mypy_cache", ".pytest_cache", ".ruff_cache", ".tox", "target"]
}

/// Whether a directory of this name is never walked.
pub fn is_skipped_dir(name: &str) -> (r: bool)
    ensures
        r == skipped_dir_table().contains(name@),
{
    let table = skipped_dirs();
    let mut i: usize = 0;
    while i < table.len()
        invariant
            i <= table@.len(),
            table@.len() == skipped_dir_table().len(),
            forall|k: int| 0 <= k < table@.len() ==> #[trigger] table@[k]@ == skipped_dir_table()[k],
            forall|k: int| 0 <= k < i ==> skipped_dir_table()[k] != name@,
        decreases table@.len() - i,
    {
        if str_eq(table[i], name) {
            assert(skipped_dir_table()[i as int] == name@);
            return true;
        }
        i = i + 1;
    }
    false
}

/// `s` ends with `.py`.
pub open spec fn has_py_suffix(s: Seq<char>) -> bool {
    s.len() >= 3 && s.skip(s.len() - 3) == seq!['.', 'p', 'y']
}

/// What the walk does with the entry `file_name` inside the package whose
/// dotted segments are `prefix`.
pub open spec fn entry_action_spec(file_name: Seq<char>, is_dir: bool, prefix: Seq<Seq<char>>) -> EntryActionView {
    if is_dir {
        if skipped_dir_table().contains(file_name) || (file_name.len() > 0 && file_name[0] == '.')
            || !identifier_spec(file_name) {
            EntryActionView::Skip
        } else {
            EntryActionView::Descend
        }
    } else if !has_py_suffix(file_name) {
        EntryActionView::Skip
    } else {
        let stem = file_name.take(file_name.len() - 3);
        if stem == seq!['_', '_', 'i', 'n', 'i', 't', '_', '_'] {
            if prefix.len() == 0 {
                // An `__init__.py` directly in a source root names no package.
                EntryActionView::Skip
            } else {
                EntryActionView::Module { name: join_spec(prefix, seq!['.']), is_package: true }
            }
        } else if identifier_spec(stem) {
            EntryActionView::Module { name: join_spec(prefix.push(stem), seq!['.']), is_package: false }
        } else {
            EntryActionView::Skip
        }
    }
}

/// Decides what the walk does with one directory entry.
pub fn classify_entry(file_name: &str, is_dir: bool, prefix: &Vec<String>) -> (r: EntryAction)
    ensures
        r.view() == entry_action_spec(file_name@, is_dir, views(prefix@)),
{
    let t = chars_of(file_name);
    proof {
        reveal_strlit(".");
    }
    if is_dir {
        if is_skipped_dir(file_name) || (t.len() > 0 && t[0] == '.') || !is_identifier(file_name) {
            return EntryAction::Skip;
        }
        return EntryAction::Descend;
    }
    let n = t.len();
    if n < 3 || t[n - 3] != '.' || t[n - 2] != 'p' || t[n - 1] != 'y' {
        proof {
            if n >= 3 && t@.skip(n - 3) == seq!['.', 'p', 'y'] {
                assert(t@.skip(n - 3)[0] == t@[n - 3]);
                assert(t@.skip(n - 3)[1] == t@[n - 2]);
                assert(t@.skip(n - 3)[2] == t@[n - 1]);
            }
        }
        return EntryAction::Skip;
    }
    assert(t@.skip(n - 3) =~= seq!['.', 'p', 'y']);
    let stem_chars = crate::text::slice_chars(t.as_slice(), 0, n - 3);
    assert(stem_chars@ =~= file_name@.take(n - 3));
    let stem = string_of(stem_chars.as_slice());
    let init = string_of(&['_', '_', 'i', 'n', 'i', 't', '_', '_']);
    proof {
        assert(init@ =~= seq!['_', '_', 'i', 'n', 'i', 't', '_', '_']);
    }
    if str_eq(stem.as_str(), init.as_str()) {
        if prefix.len() == 0 {
            return EntryAction::Skip;
        }
        let name = join_strings(prefix, ".");
        assert(".".view() =~= seq!['.']);
        return EntryAction::Module { name, is_package: true };
    }
    if is_identifier(stem.as_str()) {
        let mut parts = crate::text::copy_strings(prefix);
        let ghost before = parts@;
        parts.push(stem);
        proof {
            crate::text::lemma_views_push(before, parts@.last());
        }
        let name = join_strings(&parts, ".");
        assert(".".view() =~= seq!['.']);
        return EntryAction::Module { name, is_package: false };
    }
    EntryAction::Skip
}

/// A directory listing in the order the walk visits it: by file name.
pub fn sort_entries(entries: Vec<Entry>) -> (r: Vec<Entry>)
    ensures
        r@.to_multiset() == entries@.to_multiset(),
        sorted_by_name(r@),
{
    sort_by_name(entries)
}

/// The files that are not preceded by a file of the same module name: when
/// two roots map a file to the same module the first one wins.
pub open spec fn first_wins(files: Seq<FoundFile>) -> Seq<FoundFile>
    decreases files.len(),
{
    if files.len() == 0 {
        Seq::empty()
    } else {
        let earlier = first_wins(files.drop_last());
        if exists|i: int| 0 <= i < files.len() - 1 && #[trigger] files[i].name@ == files.last().name@ {
            earlier
        } else {
            earlier.push(files.last())
        }
    }
}

/// Whether an earlier file already names the last file's module.
pub open spec fn last_is_duplicate(fs: Seq<FoundFile>) -> bool {
    exists|q: int| 0 <= q < fs.len() - 1 && #[trigger] fs[q].name@ == fs.last().name@
}

proof fn lemma_first_wins_step(fs: Seq<FoundFile>)
    requires
        fs.len() > 0,
    ensures
        first_wins(fs) == (if last_is_duplicate(fs) {
            first_wins(fs.drop_last())
        } else {
            first_wins(fs.drop_last()).push(fs.last())
        }),
{
}

/// Some file in `fs` is the module `name`.
pub open spec fn names_module(fs: Seq<FoundFile>, name: Seq<char>) -> bool {
    exists|j: int| 0 <= j < fs.len() && #[trigger] fs[j].name@ == name
}

/// Every file's module name is kept.
proof fn lemma_first_wins_covers(fs: Seq<FoundFile>)
    ensures
        forall|i: int| 0 <= i < fs.len() ==> #[trigger] names_module(first_wins(fs), fs[i].name@),
    decreases fs.len(),
{
    if fs.len() > 0 {
        let init = fs.drop_last();
        lemma_first_wins_covers(init);
        lemma_first_wins_step(fs);
        let e = first_wins(init);
        let f = first_wins(fs);
        assert forall|i: int| 0 <= i < fs.len() implies #[trigger] names_module(f, fs[i].name@) by {
            if i < fs.len() - 1 {
                assert(init[i] == fs[i]);
                assert(names_module(e, init[i].name@));
                let j = choose|j: int| 0 <= j < e.len() && #[trigger] e[j].name@ == init[i].name@;
                assert(f[j] == e[j]);
            } else if last_is_duplicate(fs) {
                let q = choose|q: int| 0 <= q < fs.len() - 1 && #[trigger] fs[q].name@ == fs.last().name@;
                assert(init[q] == fs[q]);
                assert(names_module(e, init[q].name@));
                let j = choose|j: int| 0 <= j < e.len() && #[trigger] e[j].name@ == init[q].name@;
                assert(f[j] == e[j]);
            } else {
                assert(f[f.len() - 1] == fs.last());
            }
        }
    }
}

/// Every kept file is one of the files.
proof fn lemma_first_wins_traced(fs: Seq<FoundFile>)
    ensures
        forall|j: int| 0 <= j < first_wins(fs).len() ==> #[trigger] names_module(fs, first_wins(fs)[j].name@),
    decreases fs.len(),
{
    if fs.len() > 0 {
        let init = fs.drop_last();
        lemma_first_wins_traced(init);
        lemma_first_wins_step(fs);
        let e = first_wins(init);
        let f = first_wins(fs);
        assert forall|j: int| 0 <= j < f.len() implies #[trigger] names_module(fs, f[j].name@) by {
            if j < e.len() {
                assert(f[j] == e[j]);
                assert(names_module(init, e[j].name@));
                let i = choose|i: int| 0 <= i < init.len() && #[trigger] init[i].name@ == e[j].name@;
                assert(init[i] == fs[i]);
            } else {
                assert(f[j] == fs.last());
                assert(fs[fs.len() - 1].name@ == f[j].name@);
            }
        }
    }
}

/// The kept files name different modules.
proof fn lemma_first_wins_distinct(fs: Seq<FoundFile>)
    ensures
        forall|a: int, b: int| 0 <= a < b < first_wins(fs).len() ==> first_wins(fs)[a].name@ != first_wins(fs)[b].name@,
    decreases fs.len(),
{
    if fs.len() > 0 {
        let init = fs.drop_last();
        lemma_first_wins_distinct(init);
        lemma_first_wins_traced(init);
        lemma_first_wins_step(fs);
        let e = first_wins(init);
        let f = first_wins(fs);
        assert forall|a: int, b: int| 0 <= a < b < f.len() implies f[a].name@ != f[b].name@ by {
            if b < e.len() {
                assert(f[a] == e[a] && f[b] == e[b]);
            } else {
                assert(f[a] == e[a]);
                assert(f[b] == fs.last());
                if e[a].name@ == fs.last().name@ {
                    assert(names_module(init, e[a].name@));
                    let i = choose|i: int| 0 <= i < init.len() && #[trigger] init[i].name@ == e[a].name@;
                    assert(init[i] == fs[i]);
                    assert(fs[i].name@ == fs.last().name@);
                }
            }
        }
    }
}

/// Whether some file is the module `name`.
fn has_module_named(files: &Vec<FoundFile>, name: &str) -> (r: bool)
    ensures
        r == exists|j: int| 0 <= j < files@.len() && #[trigger] files@[j].name@ == name@,
{
    let mut i: usize = 0;
    while i < files.len()
        invariant
            i <= files@.len(),
            forall|j: int| 0 <= j < i ==> #[trigger] files@[j].name@ != name@,
        decreases files@.len() - i,
    {
        if str_eq(files[i].name.as_str(), name) {
            return true;
        }
        i = i + 1;
    }
    false
}

/// The files found under every source root, in root order, narrowed to the
/// first file of each module name and sorted by module name.
pub fn select_files(found: Vec<FoundFile>) -> (r: Vec<FoundFile>)
    ensures
        r@.to_multiset() == first_wins(found@).to_multiset(),
        sorted_by_name(r@),
        forall|i: int, j: int| 0 <= i < j < r@.len() ==> lex_lt(#[trigger] r@[i].name@, #[trigger] r@[j].name@),
{
    let ghost all = found@;
    let total = found.len();
    let mut kept: Vec<FoundFile> = Vec::new();
    let mut rest = found;
    let mut k: usize = 0;
    assert(all.skip(0) =~= all);
    while rest.len() > 0
        invariant
            rest@ == all.skip(k as int),
            k <= all.len(),
            total == all.len(),
            kept@ == first_wins(all.take(k as int)),
        decreases rest@.len(),
    {
        let file = rest.remove(0);
        assert(file == all[k as int]);
        assert(rest@ =~= all.skip(k + 1));
        let ghost prefix = all.take(k + 1);
        assert(prefix.drop_last() =~= all.take(k as int));
        assert(prefix.last() == file);
        let seen = has_module_named(&kept, file.name.as_str());
        proof {
            lemma_first_wins_covers(all.take(k as int));
            lemma_first_wins_traced(all.take(k as int));
            lemma_first_wins_step(prefix);
            let init = all.take(k as int);
            if seen {
                let j = choose|j: int| 0 <= j < kept@.len() && #[trigger] kept@[j].name@ == file.name@;
                assert(names_module(init, kept@[j].name@));
                let i = choose|i: int| 0 <= i < init.len() && #[trigger] init[i].name@ == kept@[j].name@;
                assert(prefix[i] == init[i]);
                assert(prefix[i].name@ == prefix.last().name@);
            } else {
                assert forall|i: int| 0 <= i < prefix.len() - 1 implies #[trigger] prefix[i].name@ != prefix.last().name@ by {
                    assert(prefix[i] == init[i]);
                    if init[i].name@ == file.name@ {
                        assert(names_module(kept@, init[i].name@));
                    }
                }
            }
        }
        if !seen {
            kept.push(file);
        }
        k = k + 1;
    }
    assert(all.take(k as int) =~= all);
    proof {
        lemma_first_wins_distinct(all);
    }
    let ghost distinct = kept@;
    let r = sort_by_name(kept);
    proof {
        assert forall|i: int, j: int| 0 <= i < j < r@.len() implies lex_lt(#[trigger] r@[i].name@, #[trigger] r@[j].name@) by {
            assert(crate::order::lex_le(r@[i].name_view(), r@[j].name_view()));
            if r@[i].name@ == r@[j].name@ {
                lemma_distinct_names_in_multiset(distinct, r@, i, j);
            }
        }
    }
    r
}

/// Two entries of a permutation of a sequence with distinct names have
/// different names.
proof fn lemma_distinct_names_in_multiset(d: Seq<FoundFile>, r: Seq<FoundFile>, i: int, j: int)
    requires
        r.to_multiset() == d.to_multiset(),
        forall|a: int, b: int| 0 <= a < b < d.len() ==> d[a].name@ != d[b].name@,
        0 <= i < j < r.len(),
    ensures
        r[i].name@ != r[j].name@,
{
    broadcast use vstd::seq_lib::group_to_multiset_ensures;

    assert(d.no_duplicates()) by {
        assert forall|a: int, b: int| 0 <= a < d.len() && 0 <= b < d.len() && a != b implies d[a] != d[b] by {
            if a < b {
                assert(d[a].name@ != d[b].name@);
            } else {
                assert(d[b].name@ != d[a].name@);
            }
        }
    }
    d.lemma_multiset_has_no_duplicates();
    r.lemma_multiset_has_no_duplicates_conv();
    assert(r.contains(r[i]));
    assert(r.contains(r[j]));
    assert(r.to_multiset().count(r[i]) > 0);
    assert(r.to_multiset().count(r[j]) > 0);
    assert(d.to_multiset().count(r[i]) > 0);
    assert(d.to_multiset().count(r[j]) > 0);
    assert(d.contains(r[i]));
    assert(d.contains(r[j]));
    let a = choose|a: int| 0 <= a < d.len() && d[a] == r[i];
    let b = choose|b: int| 0 <= b < d.len() && d[b] == r[j];
    assert(r[i] != r[j]);
    assert(a != b);
    if a < b {
        assert(d[a].name@ != d[b].name@);
    } else {
        assert(d[b].name@ != d[a].name@);
    }
}

/// A selected source file, read and parsed at the edge.
pub struct SourceFile {
    pub name: String,
    pub path: String,
    pub display_path: String,
    pub is_package: bool,
    pub source: String,
    /// The module body, or the parser's message.
    pub parsed: Result<Vec<Stmt>, String>,
}

/// A parse outcome as plain values: the body, or the parser's message.
pub open spec fn parse_view(p: Result<Vec<Stmt>, String>) -> Result<Seq<Stmt>, Seq<char>> {
    match p {
        Ok(body) => Ok(body@),
        Err(message) => Err(message@),
    }
}

/// What a selected file becomes once read: its display path is `path`
/// relative to `display_root`, and a source whose UTF-8 length does not fit
/// the 32-bit offsets that ranges use is refused instead of parsed.
pub open spec fn source_file_parse(source: Seq<char>, parsed: Result<Seq<Stmt>, Seq<char>>) -> Result<Seq<Stmt>, Seq<char>> {
    if vstd::utf8::encode_utf8(source).len() >= u32::MAX {
        Err("source is too large to index"@)
    } else {
        parsed
    }
}

/// A selected file once read: its display path is `path` relative to
/// `display_root`, and its source is parsed, unless its UTF-8 length does
/// not fit the 32-bit offsets that ranges use.
pub fn source_file(name: String, path: String, display_root: &str, is_package: bool, source: String) -> (r: SourceFile)
    ensures
        r.name@ == name@,
        r.path@ == path@,
        r.display_path@ == display_path_spec(display_root@, path@),
        r.is_package == is_package,
        r.source@ == source@,
        parse_view(r.parsed) == source_file_parse(source@, crate::parse::python_module(source@)),
{
    let shown = display_path(display_root, path.as_str());
    let text = source.as_str();
    let bytes = text.as_bytes().len();
    assert(text@ == source@);
    assert(text.spec_bytes() == vstd::utf8::encode_utf8(source@));
    let parsed: Result<Vec<Stmt>, String> = if bytes >= 0xffff_ffff {
        let message = copy_str("source is too large to index");
        assert(parse_view(Err(message)) == Err::<Seq<Stmt>, Seq<char>>("source is too large to index"@));
        Err(message)
    } else {
        crate::parse::parse_python(text)
    };
    SourceFile { name, path, display_path: shown, is_package, source, parsed }
}

pub struct ModuleTable {
    modules: Vec<Module>,
    unparsed: Vec<UnparsedModule>,
}

/// Names are unique and each module knows its own position.
pub open spec fn table_wf(modules: Seq<Module>) -> bool {
    &&& forall|i: int| 0 <= i < modules.len() ==> (#[trigger] modules[i]).id.spec_index() == i
    &&& forall|i: int, j: int| 0 <= i < j < modules.len() ==> modules[i].name@ != modules[j].name@
}

/// The names of the modules in a table.
pub open spec fn module_names(modules: Seq<Module>) -> Set<Seq<char>> {
    Set::new(|n: Seq<char>| exists|i: int| 0 <= i < modules.len() && #[trigger] modules[i].name@ == n)
}

/// The id of the module named `name`.
pub open spec fn id_of_spec(modules: Seq<Module>, name: Seq<char>) -> Option<ModuleId> {
    if exists|i: int| 0 <= i < modules.len() && #[trigger] modules[i].name@ == name {
        Some(modules[choose|i: int| 0 <= i < modules.len() && #[trigger] modules[i].name@ == name].id)
    } else {
        None
    }
}

impl ModuleTable {
    #[verifier::type_invariant]
    closed spec fn well_formed(&self) -> bool {
        table_wf(self.modules@)
    }

    /// The collected modules, in name order.
    pub closed spec fn modules_view(&self) -> Seq<Module> {
        self.modules@
    }

    pub closed spec fn unparsed_view(&self) -> Seq<UnparsedModule> {
        self.unparsed@
    }

    /// Builds the table from the selected files: every parsed file becomes a
    /// module, in order, with consecutive ids; the others are kept as
    /// unparsed.
    pub fn build(files: Vec<SourceFile>) -> (r: ModuleTable)
        requires
            forall|i: int, j: int| 0 <= i < j < files@.len() ==> files@[i].name@ != files@[j].name@,
        ensures
            r.modules_view().len() == parsed_count(files@),
            forall|k: int| 0 <= k < files@.len() && files@[k].parsed is Ok ==> {
                let m = #[trigger] r.modules_view()[parsed_count(files@.take(k)) as int];
                &&& m.name@ == files@[k].name@
                &&& m.path@ == files@[k].path@
                &&& m.display_path@ == files@[k].display_path@
                &&& m.is_package == files@[k].is_package
                &&& m.source@ == files@[k].source@
                &&& m.body == files@[k].parsed->Ok_0
            },
            r.unparsed_view().len() + r.modules_view().len() == files@.len(),
            forall|k: int| 0 <= k < files@.len() && files@[k].parsed is Err ==> {
                let u = #[trigger] r.unparsed_view()[k - parsed_count(files@.take(k))];
                &&& u.path@ == files@[k].path@
                &&& u.display_path@ == files@[k].display_path@
                &&& u.error@ == files@[k].parsed->Err_0@
            },
    {
        let ghost all = files@;
        let total = files.len();
        let mut modules: Vec<Module> = Vec::new();
        let mut unparsed: Vec<UnparsedModule> = Vec::new();
        let mut k: usize = 0;
        let mut rest: Vec<SourceFile> = files;
        assert(rest@ =~= all.skip(0));
        while rest.len() > 0
            invariant
                k + rest@.len() == all.len(),
                all.len() == total,
                rest@ == all.skip(k as int),
                modules@.len() == parsed_count(all.take(k as int)),
                unparsed@.len() + modules@.len() == k,
                table_wf(modules@),
                forall|i: int, j: int| 0 <= i < j < all.len() ==> all[i].name@ != all[j].name@,
                forall|t: int| 0 <= t < modules@.len() ==> exists|q: int| 0 <= q < k && #[trigger] modules@[t].name@ == all[q].name@,
                forall|q: int| 0 <= q < k && all[q].parsed is Ok ==> {
                    let m = #[trigger] modules@[parsed_count(all.take(q)) as int];
                    &&& m.name@ == all[q].name@
                    &&& m.path@ == all[q].path@
                    &&& m.display_path@ == all[q].display_path@
                    &&& m.is_package == all[q].is_package
                    &&& m.source@ == all[q].source@
                    &&& m.body == all[q].parsed->Ok_0
                },
                forall|q: int| 0 <= q < k && all[q].parsed is Err ==> {
                    let u = #[trigger] unparsed@[q - parsed_count(all.take(q))];
                    &&& u.path@ == all[q].path@
                    &&& u.display_path@ == all[q].display_path@
                    &&& u.error@ == all[q].parsed->Err_0@
                },
            decreases rest@.len(),
        {
            let file = rest.remove(0);
            assert(file == all[k as int]);
            assert(rest@ =~= all.skip(k + 1));
            assert(all.take(k + 1).drop_last() =~= all.take(k as int));
            proof {
                lemma_parsed_count_bound(all.take(k as int));
                assert forall|q: int| 0 <= q < k implies parsed_count(#[trigger] all.take(q)) + (if all[q].parsed is Ok { 1int } else { 0int }) <= parsed_count(all.take(k as int))
                    && q - parsed_count(all.take(q)) + (if all[q].parsed is Err { 1int } else { 0int }) <= k - parsed_count(all.take(k as int)) by {
                    lemma_parsed_count_mono(all, q, k as int);
                }
            }
            let SourceFile { name, path, display_path, is_package, source, parsed } = file;
            match parsed {
                Ok(body) => {
                    let id = ModuleId(modules.len());
                    proof {
                        assert forall|t: int| 0 <= t < modules@.len() implies modules@[t].name@ != name@ by {
                            let q = choose|q: int| 0 <= q < k && #[trigger] modules@[t].name@ == all[q].name@;
                            assert(all[q].name@ != all[k as int].name@);
                        }
                    }
                    modules.push(Module { id, name, path, display_path, is_package, source, body });
                },
                Err(error) => {
                    let ghost old_unparsed = unparsed@;
                    unparsed.push(UnparsedModule { path, display_path, error });
                    proof {
                        assert(all.take(k + 1).last() == all[k as int]);
                        assert forall|q: int| 0 <= q < k + 1 && all[q].parsed is Err implies {
                            let u = #[trigger] unparsed@[q - parsed_count(all.take(q))];
                            &&& u.path@ == all[q].path@
                            &&& u.display_path@ == all[q].display_path@
                            &&& u.error@ == all[q].parsed->Err_0@
                        } by {
                            if q < k {
                                lemma_parsed_count_mono(all, q, k as int);
                                lemma_parsed_count_bound(all.take(q));
                                let ix = q - parsed_count(all.take(q));
                                assert(0 <= ix < old_unparsed.len());
                                assert(unparsed@[ix] == old_unparsed[ix]);
                            }
                        }
                    }
                },
            }
            k = k + 1;
        }
        assert(all.take(k as int) =~= all);
        ModuleTable { modules, unparsed }
    }

    pub fn get(&self, name: &str) -> (r: Option<&Module>)
        ensures
            match id_of_spec(self.modules_view(), name@) {
                Some(id) => r == Some(&self.modules_view()[id.spec_index() as int]),
                None => r is None,
            },
    {
        match self.id_of(name) {
            Some(id) => Some(self.module(id)),
            None => None,
        }
    }

    pub fn id_of(&self, name: &str) -> (r: Option<ModuleId>)
        ensures
            r == id_of_spec(self.modules_view(), name@),
            r matches Some(id) ==> id.spec_index() < self.modules_view().len()
                && self.modules_view()[id.spec_index() as int].name@ == name@,
    {
        proof { use_type_invariant(self); }
        let mut i: usize = 0;
        while i < self.modules.len()
            invariant
                i <= self.modules@.len(),
                table_wf(self.modules@),
                forall|k: int| 0 <= k < i ==> #[trigger] self.modules@[k].name@ != name@,
            decreases self.modules@.len() - i,
        {
            if str_eq(self.modules[i].name.as_str(), name) {
                let ghost c = choose|c: int| 0 <= c < self.modules@.len() && #[trigger] self.modules@[c].name@ == name@;
                assert(c == i as int) by {
                    if c < i {
                    } else if c > i {
                        assert(self.modules@[i as int].name@ != self.modules@[c].name@);
                    }
                };
                return Some(self.modules[i].id);
            }
            i = i + 1;
        }
        None
    }

    pub fn module(&self, id: ModuleId) -> (r: &Module)
        requires
            id.spec_index() < self.modules_view().len(),
        ensures
            r == &self.modules_view()[id.spec_index() as int],
    {
        &self.modules[id.0]
    }

    pub fn contains(&self, name: &str) -> (r: bool)
        ensures
            r == (id_of_spec(self.modules_view(), name@) is Some),
            r == module_names(self.modules_view()).contains(name@),
    {
        self.id_of(name).is_some()
    }

    /// The collected modules, in name order.
    pub fn iter(&self) -> (r: &Vec<Module>)
        ensures
            r@ == self.modules_view(),
            table_wf(self.modules_view()),
    {
        proof { use_type_invariant(self); }
        &self.modules
    }

    pub fn len(&self) -> (r: usize)
        ensures
            r == self.modules_view().len(),
    {
        self.modules.len()
    }

    pub fn is_empty(&self) -> (r: bool)
        ensures
            r == (self.modules_view().len() == 0),
    {
        self.modules.len() == 0
    }

    pub fn unparsed(&self) -> (r: &Vec<UnparsedModule>)
        ensures
            r@ == self.unparsed_view(),
    {
        &self.unparsed
    }

    /// The dotted name of each collected module, in table order.
    pub fn module_names(&self) -> (r: Vec<String>)
        ensures
            r@.len() == self.modules_view().len(),
            forall|i: int| 0 <= i < r@.len() ==> #[trigger] r@[i]@ == self.modules_view()[i].name@,
    {
        let mut out: Vec<String> = Vec::new();
        let mut i: usize = 0;
        while i < self.modules.len()
            invariant
                i <= self.modules@.len(),
                out@.len() == i,
                forall|k: int| 0 <= k < i ==> #[trigger] out@[k]@ == self.modules@[k].name@,
            decreases self.modules@.len() - i,
        {
            out.push(self.modules[i].name.clone());
            i = i + 1;
        }
        out
    }

    /// Every dotted name that denotes a collected module or one of its
    /// ancestor packages, each once, in ascending order.
    pub fn names(&self) -> (r: Vec<String>)
        ensures
            strictly_ascending(views(r@)),
            views(r@).to_set() == all_dotted_names(self.modules_view()),
    {
        let mut out: Vec<String> = Vec::new();
        let mut i: usize = 0;
        assert(views(out@).to_set() =~= Set::empty());
        while i < self.modules.len()
            invariant
                i <= self.modules@.len(),
                strictly_ascending(views(out@)),
                views(out@).to_set() == all_dotted_names(self.modules@.take(i as int)),
            decreases self.modules@.len() - i,
        {
            let chain = dotted_prefixes(self.modules[i].name.as_str());
            let ghost before = views(out@).to_set();
            let mut j: usize = 0;
            assert(views(chain@).take(0).to_set() =~= Set::empty());
            while j < chain.len()
                invariant
                    j <= chain@.len(),
                    strictly_ascending(views(out@)),
                    views(out@).to_set() == before + views(chain@).take(j as int).to_set(),
                decreases chain@.len() - j,
            {
                let ghost mid = views(out@).to_set();
                insert_unique(&mut out, chain[j].clone());
                proof {
                    crate::text::lemma_views_take_push(chain@, j as int);
                    views(chain@).take(j as int).lemma_push_to_set_commute(chain@[j as int]@);
                    assert(views(out@).to_set() =~= before + views(chain@).take(j + 1).to_set());
                }
                j = j + 1;
            }
            proof {
                assert(views(chain@).take(chain@.len() as int) =~= views(chain@));
                assert(self.modules@.take(i + 1).drop_last() =~= self.modules@.take(i as int));
            }
            i = i + 1;
        }
        assert(self.modules@.take(self.modules@.len() as int) =~= self.modules@);
        out
    }
}

/// A module's dotted name and each of its ancestor packages: `a`, `a.b`
/// and `a.b.c` for `a.b.c`.
pub open spec fn dotted_names(name: Seq<char>) -> Seq<Seq<char>> {
    crate::resolve::bindings::prefix_chain(split_spec(name, '.'))
}

/// The dotted names of all the modules and of their ancestor packages.
pub open spec fn all_dotted_names(mods: Seq<Module>) -> Set<Seq<char>>
    decreases mods.len(),
{
    if mods.len() == 0 {
        Set::empty()
    } else {
        all_dotted_names(mods.drop_last()) + dotted_names(mods.last().name@).to_set()
    }
}

/// The dotted names `name` and its ancestor packages carry, outermost first.
fn dotted_prefixes(name: &str) -> (r: Vec<String>)
    ensures
        views(r@) == dotted_names(name@),
{
    let t = chars_of(name);
    let parts = split_chars(t.as_slice(), '.');
    let ghost ps = split_spec(name@, '.');
    let mut out: Vec<String> = Vec::new();
    let mut prefix = String::new();
    let mut i: usize = 0;
    assert(views(out@) =~= crate::resolve::bindings::prefix_chain(ps.take(0)));
    while i < parts.len()
        invariant
            i <= parts@.len(),
            parts@.len() == ps.len(),
            ps == split_spec(name@, '.'),
            forall|k: int| 0 <= k < parts@.len() ==> #[trigger] parts@[k]@ == ps[k],
            views(out@) == crate::resolve::bindings::prefix_chain(ps.take(i as int)),
            prefix@ == (if i == 0 { Seq::<char>::empty() } else { views(out@).last() }),
            out@.len() == i,
        decreases parts@.len() - i,
    {
        assert(ps.take(i + 1).drop_last() =~= ps.take(i as int));
        assert(ps.take(i + 1).last() == ps[i as int]);
        if !prefix.as_str().is_empty() {
            push_char(&mut prefix, '.');
        }
        let piece = string_of(parts[i].as_slice());
        push_str(&mut prefix, piece.as_str());
        let ghost before = out@;
        out.push(prefix.clone());
        proof {
            crate::text::lemma_views_push(before, out@.last());
        }
        i = i + 1;
    }
    assert(ps.take(parts@.len() as int) =~= ps);
    out
}

/// Adds `s` to a strictly ascending list of names unless it is there already.
fn insert_unique(out: &mut Vec<String>, s: String)
    requires
        strictly_ascending(views(old(out)@)),
    ensures
        strictly_ascending(views(final(out)@)),
        views(final(out)@).to_set() == views(old(out)@).to_set().insert(s@),
{
    let ghost v = views(out@);
    let mut p: usize = 0;
    while p < out.len() && crate::order::str_lt(out[p].as_str(), s.as_str())
        invariant
            p <= out@.len(),
            v == views(out@),
            forall|k: int| 0 <= k < p ==> lex_lt(#[trigger] v[k], s@),
        decreases out@.len() - p,
    {
        p = p + 1;
    }
    if p < out.len() && str_eq(out[p].as_str(), s.as_str()) {
        assert(v[p as int] == s@);
        assert(v.to_set().insert(s@) =~= v.to_set());
        return;
    }
    proof {
        if p < v.len() {
            crate::order::lemma_lex_total(v[p as int], s@);
            assert(lex_lt(s@, v[p as int]));
        }
    }
    out.insert(p, s);
    proof {
        let w = views(out@);
        assert(w =~= v.insert(p as int, s@));
        assert forall|i: int, j: int| 0 <= i < j < w.len() implies lex_lt(#[trigger] w[i], #[trigger] w[j]) by {
            if j < p {
                assert(w[i] == v[i] && w[j] == v[j]);
            } else if j == p {
                assert(w[i] == v[i]);
            } else if i < p {
                assert(w[i] == v[i] && w[j] == v[j - 1]);
                if j - 1 > p {
                    assert(lex_lt(v[p as int], v[j - 1]));
                    crate::order::lemma_lex_transitive(s@, v[p as int], v[j - 1]);
                }
                crate::order::lemma_lex_transitive(v[i], s@, v[j - 1]);
            } else if i == p {
                assert(w[j] == v[j - 1]);
                if j - 1 > p {
                    assert(lex_lt(v[p as int], v[j - 1]));
                    crate::order::lemma_lex_transitive(s@, v[p as int], v[j - 1]);
                }
            } else {
                assert(w[i] == v[i - 1] && w[j] == v[j - 1]);
            }
        }
        assert forall|x: Seq<char>| w.to_set().contains(x) <==> v.to_set().insert(s@).contains(x) by {
            if w.to_set().contains(x) {
                let k = choose|k: int| 0 <= k < w.len() && w[k] == x;
                if k < p {
                    assert(v[k] == x);
                } else if k > p {
                    assert(v[k - 1] == x);
                }
            }
            if v.to_set().contains(x) {
                let k = choose|k: int| 0 <= k < v.len() && v[k] == x;
                if k < p {
                    assert(w[k] == x);
                } else {
                    assert(w[k + 1] == x);
                }
            }
            if x == s@ {
                assert(w[p as int] == x);
            }
        }
        assert(w.to_set() =~= v.to_set().insert(s@));
    }
}

/// The number of parsed files.
pub open spec fn parsed_count(files: Seq<SourceFile>) -> nat
    decreases files.len(),
{
    if files.len() == 0 {
        0
    } else {
        parsed_count(files.drop_last()) + if files.last().parsed is Ok { 1nat } else { 0nat }
    }
}

proof fn lemma_parsed_count_mono(all: Seq<SourceFile>, q: int, k: int)
    requires
        0 <= q < k <= all.len(),
    ensures
        parsed_count(all.take(q)) + (if all[q].parsed is Ok { 1int } else { 0int }) <= parsed_count(all.take(k)),
        q - parsed_count(all.take(q)) + (if all[q].parsed is Err { 1int } else { 0int }) <= k - parsed_count(all.take(k)),
    decreases k - q,
{
    assert(all.take(k).drop_last() =~= all.take(k - 1));
    if q < k - 1 {
        lemma_parsed_count_mono(all, q, k - 1);
    } else {
        assert(all.take(k).last() == all[q]);
    }
}

proof fn lemma_parsed_count_bound(files: Seq<SourceFile>)
    ensures
        parsed_count(files) <= files.len(),
    decreases files.len(),
{
    if files.len() > 0 {
        lemma_parsed_count_bound(files.drop_last());
    }
}

} // verus!
