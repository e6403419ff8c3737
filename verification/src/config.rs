//! The `[python]` section of `triglint.toml` and its queryable view.
//!
//! The section is plain data here; reading and parsing the file is done at
//! the edge. [`Resolved`] folds in the builtin sink database and the builtin
//! trusted-module set, and anchors relative source roots at the directory
//! holding the config file.

use vstd::prelude::*;

use crate::sinks::{
    builtin_sink_table, builtin_sinks, builtin_trusted_modules, builtin_trusted_table, rule_is,
    SinkDb, SinkRule,
};
use crate::text::{
    lemma_views_push, lemma_views_take_push,
    chars_of, contains_str, copy_str, holds, opt_str_view, push_char, push_str, seq_starts_with, str_eq,
    str_starts_with, views, with_char,
};

verus! {

broadcast use vstd::string::group_string_axioms;

/// The `[python]` section.
#[derive(Debug)]
pub struct PythonConfig {
    /// Import-resolution roots, relative to the config file's directory.
    pub source_roots: Vec<String>,
    pub sim: SimSection,
    /// Shim protocols and the capabilities their implementations are granted.
    /// A non-empty list enables prod mode.
    pub shims: Vec<ShimSpec>,
    pub markers: Markers,
    /// Merge the builtin sink database into `sinks`.
    pub builtin_sinks: bool,
    pub sinks: Vec<SinkSpec>,
    pub opaque: Opaque,
}

/// `[python.sim]`.
#[derive(Debug)]
pub struct SimSection {
    /// Dotted module paths of simulation harness entry modules. A non-empty
    /// list enables sim mode.
    pub roots: Vec<String>,
}

/// `[[python.shims]]`: implementations of `protocol` may name sinks carrying
/// the `grants` capabilities.
#[derive(Debug)]
pub struct ShimSpec {
    /// Qualified class name of the shim protocol.
    pub protocol: String,
    pub grants: Vec<String>,
}

/// `[python.markers]`.
#[derive(Debug)]
pub struct Markers {
    /// Qualified class names whose presence among a class's bases declares
    /// that the implementation claims determinism: it receives no grants.
    pub deterministic: Vec<String>,
}

/// `[[python.sinks]]`: extra sinks merged with the builtin database.
#[derive(Debug)]
pub struct SinkSpec {
    /// Capability label shown in diagnostics (e.g. "time").
    pub capability: String,
    /// Exact qualified-name matches, e.g. `arrow.utcnow`.
    pub calls: Vec<String>,
    /// Whole-module fences.
    pub modules: Vec<String>,
}

/// `[python.opaque]`.
#[derive(Debug)]
pub struct Opaque {
    /// Modules that may be imported inside sim scope without analyzable
    /// source, in addition to the builtin trusted set.
    pub trusted_modules: Vec<String>,
    /// Qualified names permitted to be reached dynamically without an
    /// `unresolved` warning.
    pub allow: Vec<String>,
}

/// The documented default source roots: the config file's own directory.
pub fn default_source_roots() -> (r: Vec<String>)
    ensures
        views(r@) == seq![seq!['.']],
{
    let mut out: Vec<String> = Vec::new();
    let mut dot = String::new();
    push_char(&mut dot, '.');
    out.push(dot);
    assert(views(out@) =~= seq![seq!['.']]);
    out
}

/// The qualified name of the marker exported by the `trigpoint-shims` package.
pub open spec fn deterministic_shim_marker() -> Seq<char> {
    "trigpoint_shims.DeterministicShim"@
}

pub fn default_deterministic_markers() -> (r: Vec<String>)
    ensures
        views(r@) == seq![deterministic_shim_marker()],
{
    let mut out: Vec<String> = Vec::new();
    out.push("trigpoint_shims.DeterministicShim".to_owned());
    assert(views(out@) =~= seq![deterministic_shim_marker()]);
    out
}

pub fn default_true() -> (r: bool)
    ensures
        r,
{
    true
}

impl Default for SimSection {
    fn default() -> (r: SimSection)
        ensures
            r.roots@.len() == 0,
    {
        SimSection { roots: Vec::new() }
    }
}

impl Default for Markers {
    fn default() -> (r: Markers)
        ensures
            views(r.deterministic@) == seq![deterministic_shim_marker()],
    {
        Markers { deterministic: default_deterministic_markers() }
    }
}

impl Default for Opaque {
    fn default() -> (r: Opaque)
        ensures
            r.trusted_modules@.len() == 0,
            r.allow@.len() == 0,
    {
        Opaque { trusted_modules: Vec::new(), allow: Vec::new() }
    }
}

impl Default for PythonConfig {
    fn default() -> (r: PythonConfig)
        ensures
            views(r.source_roots@) == seq![seq!['.']],
            r.sim.roots@.len() == 0,
            r.shims@.len() == 0,
            views(r.markers.deterministic@) == seq![deterministic_shim_marker()],
            r.builtin_sinks,
            r.sinks@.len() == 0,
            r.opaque.trusted_modules@.len() == 0,
            r.opaque.allow@.len() == 0,
    {
        PythonConfig {
            source_roots: default_source_roots(),
            sim: SimSection::default(),
            shims: Vec::new(),
            markers: Markers::default(),
            builtin_sinks: true,
            sinks: Vec::new(),
            opaque: Opaque::default(),
        }
    }
}

/// `rel` resolved against the directory `base`, as a Unix path: an absolute
/// `rel` replaces `base`; otherwise one `/` separates the two.
pub open spec fn path_join_spec(base: Seq<char>, rel: Seq<char>) -> Seq<char> {
    if rel.len() > 0 && rel[0] == '/' {
        rel
    } else if base.len() == 0 {
        rel
    } else if base.last() == '/' {
        base + rel
    } else {
        base.push('/') + rel
    }
}

/// Joins a relative path onto a directory.
pub fn path_join(base: &str, rel: &str) -> (r: String)
    ensures
        r@ == path_join_spec(base@, rel@),
{
    let b = chars_of(base);
    let r = chars_of(rel);
    if r.len() > 0 && r[0] == '/' {
        return copy_str(rel);
    }
    if b.len() == 0 {
        return copy_str(rel);
    }
    let mut out = copy_str(base);
    if b[b.len() - 1] != '/' {
        push_char(&mut out, '/');
    }
    push_str(&mut out, rel);
    out
}

/// The grants of every shim entry declaring `protocol`, in declaration order.
pub open spec fn grants_of(shims: Seq<ShimSpec>, protocol: Seq<char>) -> Seq<Seq<char>>
    decreases shims.len(),
{
    if shims.len() == 0 {
        Seq::empty()
    } else {
        let earlier = grants_of(shims.drop_last(), protocol);
        if shims.last().protocol@ == protocol {
            earlier + views(shims.last().grants@)
        } else {
            earlier
        }
    }
}

/// `module` is listed, or lies under a listed package.
pub open spec fn covered_by(listed: Set<Seq<char>>, module: Seq<char>) -> bool {
    exists|t: Seq<char>| #[trigger] listed.contains(t) && (module == t || seq_starts_with(module, t.push('.')))
}

/// Trust extends to submodules: whatever lies under a covered module is
/// covered too.
pub proof fn law_trust_extends_to_submodules(listed: Set<Seq<char>>, module: Seq<char>, tail: Seq<char>)
    requires
        covered_by(listed, module),
    ensures
        covered_by(listed, module.push('.') + tail),
{
    let t = choose|t: Seq<char>| #[trigger] listed.contains(t) && (module == t || seq_starts_with(module, t.push('.')));
    let sub = module.push('.') + tail;
    let p = t.push('.');
    if module == t {
        assert(sub.take(p.len() as int) =~= p);
    } else {
        assert(sub.take(p.len() as int) =~= module.take(p.len() as int));
    }
    assert(listed.contains(t) && seq_starts_with(sub, p));
}

/// A resolved, queryable view of `[python]`, anchored at the config file's
/// directory so `source_roots` are made absolute exactly once.
#[derive(Debug)]
pub struct Resolved {
    root_dir: String,
    source_roots: Vec<String>,
    sim_roots: Vec<String>,
    shims: Vec<ShimSpec>,
    deterministic_markers: Vec<String>,
    sinks: SinkDb,
    trusted_modules: Vec<String>,
    opaque_allow: Vec<String>,
}

impl Resolved {
    pub closed spec fn root_dir_view(&self) -> Seq<char> {
        self.root_dir@
    }

    pub closed spec fn source_roots_view(&self) -> Seq<Seq<char>> {
        views(self.source_roots@)
    }

    pub closed spec fn sim_roots_view(&self) -> Seq<Seq<char>> {
        views(self.sim_roots@)
    }

    pub closed spec fn shims_view(&self) -> Seq<ShimSpec> {
        self.shims@
    }

    pub closed spec fn markers_view(&self) -> Seq<Seq<char>> {
        views(self.deterministic_markers@)
    }

    pub closed spec fn sinks_view(&self) -> Seq<SinkRule> {
        self.sinks@
    }

    /// The trusted modules: the builtin set plus the configured ones.
    pub closed spec fn trusted_view(&self) -> Set<Seq<char>> {
        views(self.trusted_modules@).to_set()
    }

    pub closed spec fn opaque_allow_view(&self) -> Seq<Seq<char>> {
        views(self.opaque_allow@)
    }

    /// `root_dir` is the directory containing the config file; relative
    /// `source_roots` are resolved against it.
    pub fn new(root_dir: &str, config: PythonConfig) -> (r: Resolved)
        ensures
            r.root_dir_view() == root_dir@,
            r.source_roots_view() == views(config.source_roots@).map_values(
                |s: Seq<char>| path_join_spec(root_dir@, s),
            ),
            r.sim_roots_view() == views(config.sim.roots@),
            r.shims_view() == config.shims@,
            r.markers_view() == views(config.markers.deterministic@),
            r.sinks_view().len() == builtin_count(config.builtin_sinks) + config.sinks@.len(),
            config.builtin_sinks ==> forall|i: int|
                0 <= i < builtin_sink_table().len() ==> #[trigger] rule_is(r.sinks_view()[i], builtin_sink_table()[i]),
            forall|i: int|
                0 <= i < config.sinks@.len() ==> rule_from(
                    r.sinks_view()[builtin_count(config.builtin_sinks) + i],
                    #[trigger] config.sinks@[i],
                ),
            r.trusted_view() == builtin_trusted_table().to_set() + views(config.opaque.trusted_modules@).to_set(),
            r.opaque_allow_view() == views(config.opaque.allow@),
    {
        let mut rules: Vec<SinkRule> = if config.builtin_sinks {
            builtin_sinks()
        } else {
            Vec::new()
        };
        let ghost base = rules@;
        let mut i: usize = 0;
        while i < config.sinks.len()
            invariant
                i <= config.sinks@.len(),
                rules@.len() == base.len() + i,
                forall|k: int| 0 <= k < base.len() ==> rules@[k] == base[k],
                forall|k: int| 0 <= k < i ==> #[trigger] rule_from(rules@[base.len() + k], config.sinks@[k]),
            decreases config.sinks@.len() - i,
        {
            rules.push(SinkRule::from_spec(&config.sinks[i]));
            i = i + 1;
        }
        let builtin_trusted = builtin_trusted_modules();
        let mut trusted: Vec<String> = Vec::new();
        let mut j: usize = 0;
        while j < builtin_trusted.len()
            invariant
                j <= builtin_trusted@.len(),
                builtin_trusted@.len() == builtin_trusted_table().len(),
                forall|k: int| 0 <= k < builtin_trusted@.len() ==> #[trigger] builtin_trusted@[k]@ == builtin_trusted_table()[k],
                views(trusted@) == builtin_trusted_table().take(j as int),
            decreases builtin_trusted@.len() - j,
        {
            trusted.push(builtin_trusted[j].to_owned());
            assert(builtin_trusted_table().take(j + 1) =~= builtin_trusted_table().take(j as int).push(builtin_trusted_table()[j as int]));
            assert(views(trusted@) =~= builtin_trusted_table().take(j + 1));
            j = j + 1;
        }
        assert(builtin_trusted_table().take(j as int) =~= builtin_trusted_table());
        let ghost builtin_part = views(trusted@);
        let mut k: usize = 0;
        while k < config.opaque.trusted_modules.len()
            invariant
                k <= config.opaque.trusted_modules@.len(),
                views(trusted@) == builtin_part + views(config.opaque.trusted_modules@).take(k as int),
            decreases config.opaque.trusted_modules@.len() - k,
        {
            let ghost before = trusted@;
            let item = config.opaque.trusted_modules[k].clone();
            trusted.push(item);
            proof {
                lemma_views_push(before, item);
                lemma_views_take_push(config.opaque.trusted_modules@, k as int);
            }
            assert(views(trusted@) =~= builtin_part + views(config.opaque.trusted_modules@).take(k + 1));
            k = k + 1;
        }
        assert(views(config.opaque.trusted_modules@).take(k as int) =~= views(config.opaque.trusted_modules@));
        proof {
            vstd::seq_lib::lemma_seq_union_to_multiset_commutative::<Seq<char>>(builtin_part, views(config.opaque.trusted_modules@));
        }
        assert(views(trusted@).to_set() =~= builtin_trusted_table().to_set() + views(config.opaque.trusted_modules@).to_set()) by {
            assert forall|x: Seq<char>| views(trusted@).to_set().contains(x) <==> (builtin_trusted_table().to_set() + views(config.opaque.trusted_modules@).to_set()).contains(x) by {
                if views(trusted@).contains(x) {
                    let idx = choose|idx: int| 0 <= idx < views(trusted@).len() && views(trusted@)[idx] == x;
                    if idx < builtin_part.len() {
                        assert(builtin_trusted_table().contains(x));
                    } else {
                        assert(views(config.opaque.trusted_modules@)[idx - builtin_part.len()] == x);
                        assert(views(config.opaque.trusted_modules@).contains(x));
                    }
                }
                if builtin_trusted_table().contains(x) {
                    let idx = choose|idx: int| 0 <= idx < builtin_part.len() && builtin_part[idx] == x;
                    assert(views(trusted@)[idx] == x);
                }
                if views(config.opaque.trusted_modules@).contains(x) {
                    let idx = choose|idx: int| 0 <= idx < views(config.opaque.trusted_modules@).len() && views(config.opaque.trusted_modules@)[idx] == x;
                    assert(views(trusted@)[builtin_part.len() + idx] == x);
                }
            }
        }
        let mut roots: Vec<String> = Vec::new();
        let mut m: usize = 0;
        while m < config.source_roots.len()
            invariant
                m <= config.source_roots@.len(),
                views(roots@) == views(config.source_roots@).take(m as int).map_values(|s: Seq<char>| path_join_spec(root_dir@, s)),
            decreases config.source_roots@.len() - m,
        {
            let ghost before = roots@;
            let joined = path_join(root_dir, config.source_roots[m].as_str());
            roots.push(joined);
            proof {
                lemma_views_push(before, joined);
                lemma_views_take_push(config.source_roots@, m as int);
            }
            assert(views(roots@) =~= views(config.source_roots@).take(m + 1).map_values(|s: Seq<char>| path_join_spec(root_dir@, s)));
            m = m + 1;
        }
        assert(views(config.source_roots@).take(m as int) =~= views(config.source_roots@));
        proof {
            if config.builtin_sinks {
                assert forall|i: int| 0 <= i < builtin_sink_table().len() implies #[trigger] rule_is(rules@[i], builtin_sink_table()[i]) by {
                    assert(rules@[i] == base[i]);
                }
            }
        }
        let PythonConfig { source_roots: _, sim, shims, markers, builtin_sinks: _, sinks: _, opaque } = config;
        Resolved {
            root_dir: copy_str(root_dir),
            source_roots: roots,
            sim_roots: sim.roots,
            shims,
            deterministic_markers: markers.deterministic,
            sinks: SinkDb::new(rules),
            trusted_modules: trusted,
            opaque_allow: opaque.allow,
        }
    }

    pub fn root_dir(&self) -> (r: &str)
        ensures
            r@ == self.root_dir_view(),
    {
        self.root_dir.as_str()
    }

    pub fn source_roots(&self) -> (r: &Vec<String>)
        ensures
            views(r@) == self.source_roots_view(),
    {
        &self.source_roots
    }

    pub fn sim_roots(&self) -> (r: &Vec<String>)
        ensures
            views(r@) == self.sim_roots_view(),
    {
        &self.sim_roots
    }

    pub fn sinks(&self) -> (r: &SinkDb)
        ensures
            r@ == self.sinks_view(),
    {
        &self.sinks
    }

    /// Prod mode is enabled by declaring at least one shim protocol.
    pub fn prod_enabled(&self) -> (r: bool)
        ensures
            r == (self.shims_view().len() > 0),
    {
        self.shims.len() > 0
    }

    /// Sim mode is enabled by declaring at least one simulation root module.
    pub fn sim_enabled(&self) -> (r: bool)
        ensures
            r == (self.sim_roots_view().len() > 0),
    {
        self.sim_roots.len() > 0
    }

    /// Capabilities granted to implementations of `protocol`, unioned over
    /// every matching `[[python.shims]]` entry.
    pub fn grants_for_protocol(&self, protocol: &str) -> (r: Vec<String>)
        ensures
            views(r@) == grants_of(self.shims_view(), protocol@),
    {
        let mut out: Vec<String> = Vec::new();
        let mut i: usize = 0;
        while i < self.shims.len()
            invariant
                i <= self.shims@.len(),
                views(out@) == grants_of(self.shims@.take(i as int), protocol@),
            decreases self.shims@.len() - i,
        {
            let shim = &self.shims[i];
            assert(self.shims@.take(i + 1).drop_last() =~= self.shims@.take(i as int));
            if str_eq(shim.protocol.as_str(), protocol) {
                let ghost before = views(out@);
                let mut j: usize = 0;
                while j < shim.grants.len()
                    invariant
                        j <= shim.grants@.len(),
                        views(out@) == before + views(shim.grants@).take(j as int),
                    decreases shim.grants@.len() - j,
                {
                    let ghost prior = out@;
                    let g = shim.grants[j].clone();
                    out.push(g);
                    proof {
                        lemma_views_push(prior, g);
                        lemma_views_take_push(shim.grants@, j as int);
                    }
                    assert(views(out@) =~= before + views(shim.grants@).take(j + 1));
                    j = j + 1;
                }
                assert(views(shim.grants@).take(j as int) =~= views(shim.grants@));
            }
            i = i + 1;
        }
        assert(self.shims@.take(i as int) =~= self.shims@);
        out
    }

    pub fn is_shim_protocol(&self, protocol: &str) -> (r: bool)
        ensures
            r == exists|i: int| 0 <= i < self.shims_view().len() && #[trigger] self.shims_view()[i].protocol@ == protocol@,
    {
        let mut i: usize = 0;
        while i < self.shims.len()
            invariant
                i <= self.shims@.len(),
                forall|k: int| 0 <= k < i ==> #[trigger] self.shims@[k].protocol@ != protocol@,
            decreases self.shims@.len() - i,
        {
            if str_eq(self.shims[i].protocol.as_str(), protocol) {
                assert(self.shims_view()[i as int].protocol@ == protocol@);
                return true;
            }
            i = i + 1;
        }
        false
    }

    pub fn is_deterministic_marker(&self, class: &str) -> (r: bool)
        ensures
            r == self.markers_view().contains(class@),
    {
        let r = contains_str(&self.deterministic_markers, class);
        proof {
            if r {
                let i = choose|i: int| 0 <= i < self.deterministic_markers@.len() && #[trigger] self.deterministic_markers@[i]@ == class@;
                assert(self.markers_view()[i] == class@);
            }
            if self.markers_view().contains(class@) {
                let i = choose|i: int| 0 <= i < self.markers_view().len() && self.markers_view()[i] == class@;
                assert(self.deterministic_markers@[i]@ == class@);
            }
        }
        r
    }

    /// A module is trusted if it, or any ancestor package of it, is listed.
    pub fn is_trusted_module(&self, module: &str) -> (r: bool)
        ensures
            r == covered_by(self.trusted_view(), module@),
    {
        let mut i: usize = 0;
        while i < self.trusted_modules.len()
            invariant
                i <= self.trusted_modules@.len(),
                forall|k: int| 0 <= k < i ==> !(module@ == #[trigger] self.trusted_modules@[k]@
                    || seq_starts_with(module@, self.trusted_modules@[k]@.push('.'))),
            decreases self.trusted_modules@.len() - i,
        {
            let t = &self.trusted_modules[i];
            let dotted = with_char(t.as_str(), '.');
            if str_eq(module, t.as_str()) || str_starts_with(module, dotted.as_str()) {
                assert(views(self.trusted_modules@)[i as int] == t@);
                assert(self.trusted_view().contains(t@));
                return true;
            }
            i = i + 1;
        }
        proof {
            if covered_by(self.trusted_view(), module@) {
                let t = choose|t: Seq<char>| #[trigger] self.trusted_view().contains(t) && (module@ == t || seq_starts_with(module@, t.push('.')));
                let idx = choose|idx: int| 0 <= idx < views(self.trusted_modules@).len() && views(self.trusted_modules@)[idx] == t;
                assert(self.trusted_modules@[idx]@ == t);
            }
        }
        false
    }

    pub fn is_opaque_allowed(&self, qualified: &str) -> (r: bool)
        ensures
            r == self.opaque_allow_view().contains(qualified@),
    {
        let r = contains_str(&self.opaque_allow, qualified);
        proof {
            if r {
                let i = choose|i: int| 0 <= i < self.opaque_allow@.len() && #[trigger] self.opaque_allow@[i]@ == qualified@;
                assert(self.opaque_allow_view()[i] == qualified@);
            }
            if self.opaque_allow_view().contains(qualified@) {
                let i = choose|i: int| 0 <= i < self.opaque_allow_view().len() && self.opaque_allow_view()[i] == qualified@;
                assert(self.opaque_allow@[i]@ == qualified@);
            }
        }
        r
    }
}

/// How many builtin rules the database starts with.
pub open spec fn builtin_count(builtin: bool) -> int {
    if builtin { builtin_sink_table().len() as int } else { 0 }
}

/// A rule lifted from a user sink declaration.
pub open spec fn rule_from(r: SinkRule, spec: SinkSpec) -> bool {
    &&& r.capability@ == spec.capability@
    &&& r.calls@.len() == spec.calls@.len()
    &&& forall|i: int|
        0 <= i < r.calls@.len() ==> {
            &&& (#[trigger] r.calls@[i]).pattern is Exact
            &&& r.calls@[i].pattern->Exact_0@ == spec.calls@[i]@
            &&& r.calls@[i].arity == crate::sinks::Arity::Any
        }
    &&& r.modules@.len() == spec.modules@.len()
    &&& forall|i: int| 0 <= i < r.modules@.len() ==> #[trigger] r.modules@[i]@ == spec.modules@[i]@
}


/// The file name the configuration is looked up under.
pub const CONFIG_FILE: &'static str = "triglint.toml";

/// What `std::path::Path::parent` gives for `path`, as text: the path
/// without its final component, or nothing at a root or for an empty path.
pub uninterp spec fn path_parent(path: Seq<char>) -> Option<Seq<char>>;

/// `std::path::Path::parent` on a textual path. The result is named by
/// `path_parent`; beyond that, only what its documentation gives is claimed:
/// a parent is the path with its final component removed, so it is shorter.
/// How components are split (separators, `.`) is left to the name.
#[verifier::external_body]
pub(crate) fn parent_dir(path: &str) -> (r: Option<String>)
    ensures
        opt_str_view(r) == path_parent(path@),
        r matches Some(p) ==> p@.len() < path@.len(),
{
    match std::path::Path::new(path).parent() {
        Some(parent) => Some(parent.to_string_lossy().into_owned()),
        None => None,
    }
}

/// `dir` and each of its ancestors, nearest first.
pub open spec fn ancestors(dir: Seq<char>) -> Seq<Seq<char>>
    decreases dir.len(),
{
    match path_parent(dir) {
        Some(p) => if p.len() < dir.len() {
            seq![dir] + ancestors(p)
        } else {
            seq![dir]
        },
        None => seq![dir],
    }
}

/// The config paths probed from `start`: `triglint.toml` in `start` and in
/// each ancestor, nearest first.
pub open spec fn config_candidates(start: Seq<char>) -> Seq<Seq<char>> {
    ancestors(start).map_values(|d: Seq<char>| path_join_spec(d, CONFIG_FILE@))
}

/// `probe` answered `answer` for the path `path`.
pub open spec fn probed<F: Fn(&str) -> bool>(probe: F, path: Seq<char>, answer: bool) -> bool {
    exists|s: &str| s@ == path && #[trigger] probe.ensures((s,), answer)
}

/// What a walk over `candidates` finds when `probe` reports which of them
/// are files: the first reported one.
pub open spec fn first_probed<F: Fn(&str) -> bool>(probe: F, candidates: Seq<Seq<char>>, r: Option<String>) -> bool {
    match r {
        Some(found) => exists|i: int| {
            &&& 0 <= i < candidates.len()
            &&& found@ == candidates[i]
            &&& probed(probe, candidates[i], true)
            &&& forall|j: int| 0 <= j < i ==> probed(probe, #[trigger] candidates[j], false)
        },
        None => forall|j: int| 0 <= j < candidates.len() ==> probed(probe, #[trigger] candidates[j], false),
    }
}

/// Walks up from `start` looking for `triglint.toml`; `is_file` says whether
/// a path names a file.
pub fn discover<F: Fn(&str) -> bool>(start: &str, is_file: F) -> (r: Option<String>)
    requires
        forall|p: &str| #[trigger] is_file.requires((p,)),
    ensures
        first_probed(is_file, config_candidates(start@), r),
{
    let mut dir = copy_str(start);
    let ghost mut seen: Seq<Seq<char>> = Seq::empty();
    loop
        invariant
            forall|p: &str| #[trigger] is_file.requires((p,)),
            seen + config_candidates(dir@) == config_candidates(start@),
            forall|j: int| 0 <= j < seen.len() ==> probed(is_file, #[trigger] seen[j], false),
        decreases dir@.len(),
    {
        let candidate = path_join(dir.as_str(), CONFIG_FILE);
        proof {
            reveal_with_fuel(ancestors, 2);
            assert(config_candidates(dir@)[0] == candidate@);
        }
        let present = is_file(candidate.as_str());
        if present {
            proof {
                let i = seen.len() as int;
                assert(config_candidates(start@)[i] == candidate@);
                assert(probed(is_file, candidate@, true));
                assert forall|j: int| 0 <= j < i implies probed(is_file, #[trigger] config_candidates(start@)[j], false) by {
                    assert(config_candidates(start@)[j] == seen[j]);
                }
            }
            return Some(candidate);
        }
        proof {
            assert(probed(is_file, candidate@, false));
        }
        match parent_dir(dir.as_str()) {
            Some(parent) => {
                proof {
                    assert(ancestors(dir@) == seq![dir@] + ancestors(parent@));
                    assert(config_candidates(dir@) =~= seq![candidate@] + config_candidates(parent@));
                    assert(seen.push(candidate@) + config_candidates(parent@) =~= seen + config_candidates(dir@));
                    seen = seen.push(candidate@);
                }
                dir = parent;
            },
            None => {
                proof {
                    assert(config_candidates(dir@) =~= seq![candidate@]);
                    let all = config_candidates(start@);
                    assert(all =~= seen.push(candidate@));
                    assert forall|j: int| 0 <= j < all.len() implies probed(is_file, #[trigger] all[j], false) by {
                        if j < seen.len() {
                            assert(all[j] == seen[j]);
                        }
                    }
                }
                return None;
            },
        }
    }
}

} // verus!
