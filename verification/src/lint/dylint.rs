//! The Rust target's environment: `DYLINT_RUSTFLAGS` arranged so dependency
//! bodies are encoded for cross-crate analysis.

use vstd::prelude::*;

use crate::config::{ancestors, parent_dir, path_join, path_join_spec};
use crate::text::{chars_of, copy_str, is_whitespace, is_ws, opt_str_ref_view, opt_str_view, push_str, str_eq};

verus! {

broadcast use vstd::string::group_string_axioms;

/// Flag that makes dependency bodies traversable by triglint. Passed via
/// `DYLINT_RUSTFLAGS`, never `RUSTFLAGS`, which leaks into cargo-dylint's
/// stable-toolchain probes and breaks library discovery.
pub const ALWAYS_ENCODE_MIR: &'static str = "-Zalways-encode-mir";

/// `t` stands in `s` at `i` as a whole whitespace-separated token.
pub open spec fn token_at(s: Seq<char>, t: Seq<char>, i: int) -> bool {
    &&& 0 <= i && i + t.len() <= s.len()
    &&& s.subrange(i, i + t.len()) == t
    &&& (i == 0 || is_ws(s[i - 1]))
    &&& (i + t.len() == s.len() || is_ws(s[i + t.len()]))
}

/// For a `t` without whitespace: one of the whitespace-separated tokens of
/// `s` is `t`.
pub open spec fn has_token(s: Seq<char>, t: Seq<char>) -> bool {
    exists|i: int| #[trigger] token_at(s, t, i)
}

/// The `DYLINT_RUSTFLAGS` a run sets, from the value already in the
/// environment: the flag is appended, once, when dependency MIR is wanted.
/// `None` leaves the variable unset.
pub open spec fn merged_flags(existing: Option<Seq<char>>, deps_mir: bool) -> Option<Seq<char>> {
    if !deps_mir {
        existing
    } else {
        match existing {
            None => Some(ALWAYS_ENCODE_MIR@),
            Some(flags) => if has_token(flags, ALWAYS_ENCODE_MIR@) {
                Some(flags)
            } else {
                Some(flags + " "@ + ALWAYS_ENCODE_MIR@)
            },
        }
    }
}

fn matches_at(s: &Vec<char>, t: &Vec<char>, i: usize) -> (r: bool)
    requires
        i + t@.len() <= s@.len(),
    ensures
        r == (s@.subrange(i as int, i + t@.len()) == t@),
{
    let n = s.len();
    let mut j: usize = 0;
    while j < t.len()
        invariant
            n == s@.len(),
            i + t@.len() <= s@.len(),
            j <= t@.len(),
            forall|k: int| 0 <= k < j ==> s@[i + k] == t@[k],
        decreases t@.len() - j,
    {
        if s[i + j] != t[j] {
            assert(s@.subrange(i as int, i + t@.len())[j as int] != t@[j as int]);
            return false;
        }
        j = j + 1;
    }
    assert(s@.subrange(i as int, i + t@.len()) =~= t@);
    true
}

fn contains_token(s: &str, t: &str) -> (r: bool)
    ensures
        r == has_token(s@, t@),
{
    let sc = chars_of(s);
    let tc = chars_of(t);
    if tc.len() > sc.len() {
        assert forall|i: int| !token_at(s@, t@, i) by {}
        return false;
    }
    let n = sc.len();
    let m = tc.len();
    let last = n - m;
    let mut i: usize = 0;
    loop
        invariant_except_break
            i <= last,
        invariant
            sc@ == s@,
            tc@ == t@,
            n == sc@.len(),
            m == tc@.len(),
            last == n - m,
            forall|k: int| 0 <= k < i ==> !token_at(s@, t@, k),
        ensures
            forall|k: int| 0 <= k <= last ==> !token_at(s@, t@, k),
        decreases last - i,
    {
        let before = i == 0 || is_whitespace(sc[i - 1]);
        let end = i + m;
        let after = end == n || is_whitespace(sc[end]);
        if before && after && matches_at(&sc, &tc, i) {
            assert(token_at(s@, t@, i as int));
            return true;
        }
        assert(!token_at(s@, t@, i as int));
        if i == last {
            break;
        }
        i = i + 1;
    }
    assert forall|k: int| !token_at(s@, t@, k) by {
        if 0 <= k && k + t@.len() <= s@.len() {
            assert(k <= last);
        }
    }
    false
}

/// Appends `-Zalways-encode-mir` to any user-provided `DYLINT_RUSTFLAGS`,
/// without duplicating it. `None` means "leave the variable unset".
pub fn merged_dylint_rustflags(existing: Option<&str>, deps_mir: bool) -> (r: Option<String>)
    ensures
        opt_str_view(r) == merged_flags(opt_str_ref_view(existing), deps_mir),
{
    if !deps_mir {
        return match existing {
            Some(flags) => Some(copy_str(flags)),
            None => None,
        };
    }
    match existing {
        None => Some(copy_str(ALWAYS_ENCODE_MIR)),
        Some(flags) => {
            if contains_token(flags, ALWAYS_ENCODE_MIR) {
                Some(copy_str(flags))
            } else {
                let mut out = copy_str(flags);
                push_str(&mut out, " ");
                push_str(&mut out, ALWAYS_ENCODE_MIR);
                Some(out)
            }
        },
    }
}

/// Merging is idempotent: running the merge on what it produced changes
/// nothing, so the flag is never added twice; without dependency MIR the
/// environment is left as it was.
pub proof fn law_merge_is_idempotent(existing: Option<Seq<char>>)
    ensures
        merged_flags(merged_flags(existing, true), true) == merged_flags(existing, true),
        merged_flags(existing, false) == existing,
        merged_flags(existing, true) matches Some(flags) && has_token(flags, ALWAYS_ENCODE_MIR@),
{
    let t = ALWAYS_ENCODE_MIR@;
    match existing {
        None => {
            assert(t.subrange(0, t.len() as int) =~= t);
            assert(token_at(t, t, 0));
        },
        Some(flags) => {
            if !has_token(flags, t) {
                let s = flags + " "@ + t;
                let i: int = flags.len() as int + 1;
                reveal_strlit(" ");
                assert(s.subrange(i, i + t.len()) =~= t);
                assert(s[i - 1] == ' ');
                assert(token_at(s, t, i));
            }
        },
    }
}

/// A TOML value as key lookups see it: a table of entries, or anything
/// else.
#[derive(Debug)]
pub enum TomlNode {
    Table(Vec<(String, TomlNode)>),
    Other,
}

#[verifier::external_type_specification]
#[verifier::external_body]
pub struct ExTomlValue(toml::Value);

/// What parsing `text` as a TOML table (`toml::Table`'s `FromStr`, that is
/// `toml::from_str`) gives, as lookup nodes; `None` when it does not parse.
pub uninterp spec fn toml_document(text: Seq<char>) -> Option<TomlNode>;

/// Parses `text` with `toml::Table`'s `FromStr`. The result is named by
/// `toml_document`; what a successful parse gives is a table.
#[verifier::external_body]
fn parse_toml_table(text: &str) -> (r: Option<TomlNode>)
    ensures
        r == toml_document(text@),
        r matches Some(node) ==> node is Table,
{
    match text.parse::<toml::Table>() {
        Ok(table) => Some(toml_node(&toml::Value::Table(table))),
        Err(_) => None,
    }
}

/// `toml::Value` as a lookup node, entry for entry.
#[verifier::external_body]
fn toml_node(value: &toml::Value) -> TomlNode {
    match value {
        toml::Value::Table(table) => TomlNode::Table(table.iter().map(|(k, v)| (k.clone(), toml_node(v))).collect()),
        _ => TomlNode::Other,
    }
}

/// The value under `key` in `entries`, the first one listed.
pub open spec fn entry_in(entries: Seq<(String, TomlNode)>, key: Seq<char>) -> Option<TomlNode>
    decreases entries.len(),
{
    if entries.len() == 0 {
        None
    } else if entries[0].0@ == key {
        Some(entries[0].1)
    } else {
        entry_in(entries.drop_first(), key)
    }
}

/// The value under `key` when `node` is a table.
pub open spec fn lookup(node: TomlNode, key: Seq<char>) -> Option<TomlNode> {
    match node {
        TomlNode::Table(entries) => entry_in(entries@, key),
        TomlNode::Other => None,
    }
}

/// `node.<table>.metadata.dylint` exists.
pub open spec fn dylint_under(node: TomlNode, table: Seq<char>) -> bool {
    match lookup(node, table) {
        Some(t) => match lookup(t, "metadata"@) {
            Some(m) => lookup(m, "dylint"@) is Some,
            None => false,
        },
        None => false,
    }
}

/// `[workspace.metadata.dylint]` or `[package.metadata.dylint]`.
pub open spec fn declares_dylint_spec(document: TomlNode) -> bool {
    dylint_under(document, "workspace"@) || dylint_under(document, "package"@)
}

fn lookup_exec<'a>(node: &'a TomlNode, key: &str) -> (r: Option<&'a TomlNode>)
    ensures
        match r {
            Some(found) => lookup(*node, key@) == Some(*found),
            None => lookup(*node, key@) is None,
        },
{
    match node {
        TomlNode::Table(entries) => {
            let mut i: usize = 0;
            assert(entries@.skip(0) =~= entries@);
            while i < entries.len()
                invariant
                    i <= entries@.len(),
                    lookup(*node, key@) == entry_in(entries@, key@),
                    entry_in(entries@, key@) == entry_in(entries@.skip(i as int), key@),
                decreases entries@.len() - i,
            {
                assert(entries@.skip(i as int)[0] == entries@[i as int]);
                assert(entries@.skip(i as int).drop_first() =~= entries@.skip(i + 1));
                if str_eq(entries[i].0.as_str(), key) {
                    return Some(&entries[i].1);
                }
                i = i + 1;
            }
            assert(entries@.skip(i as int) =~= Seq::<(String, TomlNode)>::empty());
            None
        },
        TomlNode::Other => None,
    }
}

fn dylint_under_exec(document: &TomlNode, table: &str) -> (r: bool)
    ensures
        r == dylint_under(*document, table@),
{
    match lookup_exec(document, table) {
        Some(t) => match lookup_exec(t, "metadata") {
            Some(m) => lookup_exec(m, "dylint").is_some(),
            None => false,
        },
        None => false,
    }
}

/// Whether a parsed manifest declares dylint libraries.
pub fn declares_dylint(document: &TomlNode) -> (r: bool)
    ensures
        r == declares_dylint_spec(*document),
{
    dylint_under_exec(document, "workspace") || dylint_under_exec(document, "package")
}

/// `[workspace.metadata.dylint]` or `[package.metadata.dylint]` in a
/// manifest; text that is no TOML declares nothing.
pub fn manifest_declares_dylint(text: &str) -> (r: bool)
    ensures
        r == match toml_document(text@) {
            Some(document) => declares_dylint_spec(document),
            None => false,
        },
{
    match parse_toml_table(text) {
        Some(document) => declares_dylint(&document),
        None => false,
    }
}

/// Why the analysis cache directory could not be read from `cargo metadata`.
#[derive(Debug, PartialEq, Eq)]
pub enum MetadataError {
    /// The output is not JSON; the parser's message.
    Parse { message: String },
    /// The document has no string under `target_directory`.
    NoTargetDirectory,
}

impl MetadataError {
    pub open spec fn message_spec(&self) -> Seq<char> {
        match self {
            MetadataError::Parse { message } => "could not parse cargo metadata: "@ + message@,
            MetadataError::NoTargetDirectory => "cargo metadata failed: metadata has no target_directory"@,
        }
    }

    /// The message shown for the error.
    pub fn message(&self) -> (r: String)
        ensures
            r@ == self.message_spec(),
    {
        match self {
            MetadataError::Parse { message } => {
                let mut out = copy_str("could not parse cargo metadata: ");
                push_str(&mut out, message.as_str());
                out
            },
            MetadataError::NoTargetDirectory => copy_str("cargo metadata failed: metadata has no target_directory"),
        }
    }
}

/// What `serde_json::from_slice` makes of `cargo metadata`'s output, read as
/// `value["target_directory"].as_str()`: `None` when the bytes are not JSON,
/// `Some(None)` when there is no string under that key, else `Some(Some(dir))`.
pub uninterp spec fn metadata_target_dir(stdout: Seq<u8>) -> Option<Option<Seq<char>>>;

/// Parses `cargo metadata` output with `serde_json::from_slice` into a
/// `serde_json::Value` and reads the string under `target_directory`. The
/// outcome is named by `metadata_target_dir`; the text of a parse error is
/// the parser's own message, which nothing here states.
#[verifier::external_body]
fn target_directory(stdout: &[u8]) -> (r: Result<Option<String>, String>)
    ensures
        match r {
            Ok(dir) => metadata_target_dir(stdout@) == Some(opt_str_view(dir)),
            Err(_) => metadata_target_dir(stdout@) is None,
        },
{
    match serde_json::from_slice::<serde_json::Value>(stdout) {
        Ok(value) => Ok(value["target_directory"].as_str().map(String::from)),
        Err(error) => Err(error.to_string()),
    }
}

/// The analysis cache dylint keeps under the workspace's target directory.
pub open spec fn analysis_cache_of(target_dir: Seq<char>) -> Seq<char> {
    path_join_spec(path_join_spec(target_dir, "dylint"@), "target"@)
}

/// Where dylint keeps its per-toolchain analysis target, from the output
/// of `cargo metadata --no-deps --format-version 1`: `<target_directory>/dylint/target`.
pub fn analysis_cache_dir(stdout: &[u8]) -> (r: Result<String, MetadataError>)
    ensures
        match metadata_target_dir(stdout@) {
            Some(Some(t)) => r matches Ok(p) && p@ == analysis_cache_of(t),
            Some(None) => r == Err::<String, MetadataError>(MetadataError::NoTargetDirectory),
            None => r matches Err(MetadataError::Parse { .. }),
        },
{
    match target_directory(stdout) {
        Ok(Some(dir)) => {
            let nested = path_join(dir.as_str(), "dylint");
            Ok(path_join(nested.as_str(), "target"))
        },
        Ok(None) => Err(MetadataError::NoTargetDirectory),
        Err(message) => Err(MetadataError::Parse { message }),
    }
}

/// The manifest file name.
pub const MANIFEST_FILE: &'static str = "Cargo.toml";

/// The manifests probed from `start`: `Cargo.toml` in `start` and in each
/// ancestor, nearest first.
pub open spec fn manifest_candidates(start: Seq<char>) -> Seq<Seq<char>> {
    ancestors(start).map_values(|d: Seq<char>| path_join_spec(d, MANIFEST_FILE@))
}

/// Text read for a manifest declares dylint libraries; nothing read
/// declares nothing.
pub open spec fn text_declares(text: Option<String>) -> bool {
    match text {
        Some(t) => match toml_document(t@) {
            Some(document) => declares_dylint_spec(document),
            None => false,
        },
        None => false,
    }
}

/// `read` answered for the manifest at `path` with text that declares
/// dylint libraries, or (for `declares` false) with none that does.
pub open spec fn read_declares<F: Fn(&str) -> Option<String>>(read: F, path: Seq<char>, declares: bool) -> bool {
    exists|s: &str, text: Option<String>| s@ == path && #[trigger] read.ensures((s,), text) && text_declares(text) == declares
}

/// Whether a `Cargo.toml` at or above `start` declares dylint libraries.
/// `read` gives a manifest's text when the path names a readable file.
/// The walk stops at the nearest one that does.
pub fn has_metadata<F: Fn(&str) -> Option<String>>(start: &str, read: F) -> (r: bool)
    requires
        forall|p: &str| #[trigger] read.requires((p,)),
    ensures
        r ==> exists|i: int| {
            &&& 0 <= i < manifest_candidates(start@).len()
            &&& read_declares(read, manifest_candidates(start@)[i], true)
            &&& forall|j: int| 0 <= j < i ==> read_declares(read, #[trigger] manifest_candidates(start@)[j], false)
        },
        !r ==> forall|j: int| 0 <= j < manifest_candidates(start@).len()
            ==> read_declares(read, #[trigger] manifest_candidates(start@)[j], false),
{
    let mut dir = copy_str(start);
    let ghost mut seen: Seq<Seq<char>> = Seq::empty();
    loop
        invariant
            forall|p: &str| #[trigger] read.requires((p,)),
            seen + manifest_candidates(dir@) == manifest_candidates(start@),
            forall|j: int| 0 <= j < seen.len() ==> read_declares(read, #[trigger] seen[j], false),
        decreases dir@.len(),
    {
        let candidate = path_join(dir.as_str(), MANIFEST_FILE);
        proof {
            reveal_with_fuel(ancestors, 2);
            assert(manifest_candidates(dir@)[0] == candidate@);
        }
        let text = read(candidate.as_str());
        let declares = match &text {
            Some(t) => manifest_declares_dylint(t.as_str()),
            None => false,
        };
        proof {
            assert(text_declares(text) == declares);
            assert(read_declares(read, candidate@, declares));
        }
        if declares {
            proof {
                let i = seen.len() as int;
                assert(manifest_candidates(start@)[i] == candidate@);
                assert forall|j: int| 0 <= j < i implies read_declares(read, #[trigger] manifest_candidates(start@)[j], false) by {
                    assert(manifest_candidates(start@)[j] == seen[j]);
                }
            }
            return true;
        }
        match parent_dir(dir.as_str()) {
            Some(parent) => {
                proof {
                    assert(ancestors(dir@) == seq![dir@] + ancestors(parent@));
                    assert(manifest_candidates(dir@) =~= seq![candidate@] + manifest_candidates(parent@));
                    assert(seen.push(candidate@) + manifest_candidates(parent@) =~= seen + manifest_candidates(dir@));
                    seen = seen.push(candidate@);
                }
                dir = parent;
            },
            None => {
                proof {
                    assert(manifest_candidates(dir@) =~= seq![candidate@]);
                    let all = manifest_candidates(start@);
                    assert(all =~= seen.push(candidate@));
                    assert forall|j: int| 0 <= j < all.len() implies read_declares(read, #[trigger] all[j], false) by {
                        if j < seen.len() {
                            assert(all[j] == seen[j]);
                        }
                    }
                }
                return false;
            },
        }
    }
}

} // verus!
