//! Why star-import merging settles quickly: a name travels one star import
//! further with every round, and no name travels along more star imports
//! than there are tables.

use vstd::prelude::*;

use crate::resolve::bindings::{
    BindingsView, adopt, copy_from_target, copy_from_targets, feeds, merge_round_spec, only_names_grow,
    round_prefix, rounds, settles_within, star_source,
};
use crate::resolve::modules::{Module, table_wf};

verus! {

/// Growth is reflexive.
proof fn lemma_grow_refl(x: Seq<BindingsView>)
    ensures
        only_names_grow(x, x),
{
}

/// Growth is transitive.
proof fn lemma_grow_trans(x: Seq<BindingsView>, y: Seq<BindingsView>, z: Seq<BindingsView>)
    requires
        only_names_grow(x, y),
        only_names_grow(y, z),
    ensures
        only_names_grow(x, z),
{
    assert forall|i: int| #![trigger z[i]] 0 <= i < z.len() implies {
        &&& z[i].shadowed == x[i].shadowed
        &&& z[i].modules == x[i].modules
        &&& z[i].star_targets == x[i].star_targets
        &&& z[i].unresolved_stars == x[i].unresolved_stars
    } by {
        assert(y[i].star_targets == x[i].star_targets);
    }
    assert forall|i: int, k: Seq<char>| 0 <= i < z.len() && #[trigger] x[i].names.contains_key(k)
        implies z[i].names.contains_key(k) && z[i].names[k] == x[i].names[k] by {
        assert(y[i].names.contains_key(k));
    }
}

/// One copy only grows the tables.
proof fn lemma_copy_target_grows(modules: Seq<Module>, x: Seq<BindingsView>, i: int, target: Seq<char>)
    requires
        0 <= i < x.len(),
    ensures
        only_names_grow(x, copy_from_target(modules, x, i, target)),
{
    let y = copy_from_target(modules, x, i, target);
    assert forall|j: int, k: Seq<char>| 0 <= j < y.len() && #[trigger] x[j].names.contains_key(k)
        implies y[j].names.contains_key(k) && y[j].names[k] == x[j].names[k] by {
        if j == i {
            match star_source(modules, target) {
                Some(s) => {
                    if s != i {
                        assert(y[i].names == adopt(x[i].names, x[s].names));
                    }
                },
                None => {},
            }
        }
    }
}

/// Copying from a list of targets only grows the tables.
proof fn lemma_copy_targets_grows(modules: Seq<Module>, x: Seq<BindingsView>, i: int, ts: Seq<Seq<char>>)
    requires
        0 <= i < x.len(),
    ensures
        only_names_grow(x, copy_from_targets(modules, x, i, ts)),
    decreases ts.len(),
{
    if ts.len() == 0 {
        lemma_grow_refl(x);
    } else {
        let y = copy_from_targets(modules, x, i, ts.drop_last());
        lemma_copy_targets_grows(modules, x, i, ts.drop_last());
        lemma_copy_target_grows(modules, y, i, ts.last());
        lemma_grow_trans(x, y, copy_from_target(modules, y, i, ts.last()));
    }
}

/// Copies keep the number of tables.
proof fn lemma_copy_targets_len(modules: Seq<Module>, x: Seq<BindingsView>, i: int, ts: Seq<Seq<char>>)
    requires
        0 <= i < x.len(),
    ensures
        copy_from_targets(modules, x, i, ts).len() == x.len(),
    decreases ts.len(),
{
    if ts.len() > 0 {
        lemma_copy_targets_len(modules, x, i, ts.drop_last());
    }
}

/// A round's prefixes keep the number of tables.
proof fn lemma_round_prefix_len(modules: Seq<Module>, x: Seq<BindingsView>, m: nat)
    requires
        m <= x.len(),
    ensures
        round_prefix(modules, x, m).len() == x.len(),
    decreases m,
{
    if m > 0 {
        lemma_round_prefix_len(modules, x, (m - 1) as nat);
        lemma_copy_targets_len(modules, round_prefix(modules, x, (m - 1) as nat), m - 1, x[m - 1].star_targets);
    }
}

/// Later prefixes of a round have grown from earlier ones.
proof fn lemma_round_prefix_grows(modules: Seq<Module>, x: Seq<BindingsView>, a: nat, b: nat)
    requires
        a <= b <= x.len(),
    ensures
        only_names_grow(round_prefix(modules, x, a), round_prefix(modules, x, b)),
    decreases b - a,
{
    if a == b {
        lemma_grow_refl(round_prefix(modules, x, a));
    } else {
        let p = round_prefix(modules, x, (b - 1) as nat);
        lemma_round_prefix_grows(modules, x, a, (b - 1) as nat);
        lemma_round_prefix_len(modules, x, (b - 1) as nat);
        lemma_copy_targets_grows(modules, p, b - 1, x[b - 1].star_targets);
        lemma_grow_trans(round_prefix(modules, x, a), p, round_prefix(modules, x, b));
    }
}

/// A round only grows the tables.
pub proof fn lemma_round_grows(modules: Seq<Module>, x: Seq<BindingsView>)
    ensures
        only_names_grow(x, merge_round_spec(modules, x)),
{
    lemma_round_prefix_grows(modules, x, 0, x.len());
}

/// Rounds only grow the tables.
proof fn lemma_rounds_grow(modules: Seq<Module>, t: Seq<BindingsView>, a: nat, b: nat)
    requires
        a <= b,
    ensures
        only_names_grow(rounds(modules, t, a), rounds(modules, t, b)),
    decreases b - a,
{
    if a == b {
        lemma_grow_refl(rounds(modules, t, a));
    } else {
        lemma_rounds_grow(modules, t, a, (b - 1) as nat);
        lemma_round_grows(modules, rounds(modules, t, (b - 1) as nat));
        lemma_grow_trans(rounds(modules, t, a), rounds(modules, t, (b - 1) as nat), rounds(modules, t, b));
    }
}

/// Copying from targets that include a table `s` leaves table `i` with
/// every name `s` had before.
proof fn lemma_copy_targets_propagates(modules: Seq<Module>, y: Seq<BindingsView>, i: int, ts: Seq<Seq<char>>, t: int, s: int, k: Seq<char>)
    requires
        0 <= i < y.len(),
        0 <= s < y.len(),
        0 <= t < ts.len(),
        star_source(modules, ts[t]) == Some(s),
        s != i,
        y[s].names.contains_key(k),
    ensures
        copy_from_targets(modules, y, i, ts)[i].names.contains_key(k),
    decreases ts.len(),
{
    let z = copy_from_targets(modules, y, i, ts.drop_last());
    lemma_copy_targets_grows(modules, y, i, ts.drop_last());
    if t < ts.len() - 1 {
        lemma_copy_targets_propagates(modules, y, i, ts.drop_last(), t, s, k);
        lemma_copy_target_grows(modules, z, i, ts.last());
    } else {
        assert(z[s].names.contains_key(k));
        assert(ts.last() == ts[t]);
        assert(copy_from_target(modules, z, i, ts.last())[i].names == adopt(z[i].names, z[s].names));
    }
}

/// A round carries every name of a star import's table into the importer.
pub proof fn lemma_round_propagates(modules: Seq<Module>, x: Seq<BindingsView>, i: int, t: int, s: int, k: Seq<char>)
    requires
        feeds(modules, x, i, t, s),
        0 <= s < x.len(),
        x[s].names.contains_key(k),
    ensures
        merge_round_spec(modules, x)[i].names.contains_key(k),
{
    let a = round_prefix(modules, x, i as nat);
    lemma_round_prefix_grows(modules, x, 0, i as nat);
    lemma_round_prefix_len(modules, x, i as nat);
    assert(a[s].names.contains_key(k));
    lemma_copy_targets_propagates(modules, a, i, x[i].star_targets, t, s, k);
    assert(copy_from_targets(modules, a, i, x[i].star_targets)[i].names.contains_key(k));
    let b = round_prefix(modules, x, (i + 1) as nat);
    assert(b == copy_from_targets(modules, a, i, x[i].star_targets));
    assert(b[i].names.contains_key(k));
    lemma_round_prefix_grows(modules, x, (i + 1) as nat, x.len());
    lemma_round_prefix_len(modules, x, (i + 1) as nat);
    assert(round_prefix(modules, x, x.len())[i].names.contains_key(k));
}

/// Table `i` binds `k` within `steps` star imports: itself, or through a
/// table one of its star targets names that binds `k` within one step less.
pub open spec fn binds_within(modules: Seq<Module>, tables: Seq<BindingsView>, steps: nat, i: int, k: Seq<char>) -> bool
    decreases steps,
{
    tables[i].names.contains_key(k) || (steps > 0 && exists|t: int, s: int|
        #[trigger] feeds(modules, tables, i, t, s) && 0 <= s < tables.len()
            && binds_within(modules, tables, (steps - 1) as nat, s, k))
}

/// Allowing more steps never loses a binding.
proof fn lemma_within_more(modules: Seq<Module>, tables: Seq<BindingsView>, a: nat, b: nat, i: int, k: Seq<char>)
    requires
        a <= b,
        binds_within(modules, tables, a, i, k),
    ensures
        binds_within(modules, tables, b, i, k),
    decreases a,
{
    if !tables[i].names.contains_key(k) {
        let (t, s) = choose|t: int, s: int| #[trigger] feeds(modules, tables, i, t, s) && 0 <= s < tables.len()
            && binds_within(modules, tables, (a - 1) as nat, s, k);
        lemma_within_more(modules, tables, (a - 1) as nat, (b - 1) as nat, s, k);
        assert(feeds(modules, tables, i, t, s));
    }
}

/// Growing keeps the star imports, so the same tables feed each other.
proof fn lemma_feeds_kept(modules: Seq<Module>, x: Seq<BindingsView>, y: Seq<BindingsView>, i: int, t: int, s: int)
    requires
        only_names_grow(x, y),
    ensures
        feeds(modules, x, i, t, s) == feeds(modules, y, i, t, s),
{
    if 0 <= i < y.len() {
        assert(y[i].star_targets == x[i].star_targets);
    }
}

/// A binding within `r` steps is there after `r` rounds.
pub proof fn lemma_rounds_reach_within(modules: Seq<Module>, tables: Seq<BindingsView>, r: nat, i: int, k: Seq<char>)
    requires
        0 <= i < tables.len(),
        binds_within(modules, tables, r, i, k),
    ensures
        rounds(modules, tables, r)[i].names.contains_key(k),
    decreases r,
{
    lemma_rounds_grow(modules, tables, 0, r);
    if !tables[i].names.contains_key(k) {
        let (t, s) = choose|t: int, s: int| #[trigger] feeds(modules, tables, i, t, s) && 0 <= s < tables.len()
            && binds_within(modules, tables, (r - 1) as nat, s, k);
        let prev = rounds(modules, tables, (r - 1) as nat);
        lemma_rounds_reach_within(modules, tables, (r - 1) as nat, s, k);
        lemma_rounds_grow(modules, tables, 0, (r - 1) as nat);
        lemma_feeds_kept(modules, tables, prev, i, t, s);
        lemma_round_propagates(modules, prev, i, t, s, k);
    }
}

} // verus!

verus! {

/// Every binding of `z` is one that `tables` can reach through star imports.
pub open spec fn all_reachable(modules: Seq<Module>, tables: Seq<BindingsView>, z: Seq<BindingsView>) -> bool {
    forall|i: int, k: Seq<char>| 0 <= i < z.len() && #[trigger] z[i].names.contains_key(k)
        ==> exists|m: nat| #[trigger] binds_within(modules, tables, m, i, k)
}

/// A star target that names a module names one of the tables.
proof fn lemma_star_source_in_range(modules: Seq<Module>, target: Seq<char>)
    requires
        table_wf(modules),
    ensures
        star_source(modules, target) matches Some(s) ==> 0 <= s < modules.len(),
{
    if exists|i: int| 0 <= i < modules.len() && #[trigger] modules[i].name@ == target {
        let i = choose|i: int| 0 <= i < modules.len() && #[trigger] modules[i].name@ == target;
        assert(modules[i].id.spec_index() == i);
    }
}

/// A copy along a star import of `tables` keeps every binding reachable.
proof fn lemma_copy_target_reach(modules: Seq<Module>, tables: Seq<BindingsView>, z: Seq<BindingsView>, i: int, tt: int)
    requires
        table_wf(modules),
        tables.len() == modules.len(),
        only_names_grow(tables, z),
        all_reachable(modules, tables, z),
        0 <= i < tables.len(),
        0 <= tt < tables[i].star_targets.len(),
    ensures
        only_names_grow(tables, copy_from_target(modules, z, i, tables[i].star_targets[tt])),
        all_reachable(modules, tables, copy_from_target(modules, z, i, tables[i].star_targets[tt])),
{
    let target = tables[i].star_targets[tt];
    let y = copy_from_target(modules, z, i, target);
    lemma_copy_target_grows(modules, z, i, target);
    lemma_grow_trans(tables, z, y);
    lemma_star_source_in_range(modules, target);
    assert forall|j: int, k: Seq<char>| 0 <= j < y.len() && #[trigger] y[j].names.contains_key(k)
        implies exists|m: nat| #[trigger] binds_within(modules, tables, m, j, k) by {
        if j != i || z[j].names.contains_key(k) {
            assert(z[j].names.contains_key(k));
        } else {
            let s = star_source(modules, target)->Some_0;
            assert(z[s].names.contains_key(k));
            let m = choose|m: nat| #[trigger] binds_within(modules, tables, m, s, k);
            assert(feeds(modules, tables, i, tt, s));
            assert(binds_within(modules, tables, m + 1, i, k));
        }
    }
}

/// Copying along a prefix of the star imports of table `i` keeps every
/// binding reachable.
proof fn lemma_copy_targets_reach(modules: Seq<Module>, tables: Seq<BindingsView>, z: Seq<BindingsView>, i: int, j: nat)
    requires
        table_wf(modules),
        tables.len() == modules.len(),
        only_names_grow(tables, z),
        all_reachable(modules, tables, z),
        0 <= i < tables.len(),
        j <= tables[i].star_targets.len(),
    ensures
        only_names_grow(tables, copy_from_targets(modules, z, i, tables[i].star_targets.take(j as int))),
        all_reachable(modules, tables, copy_from_targets(modules, z, i, tables[i].star_targets.take(j as int))),
    decreases j,
{
    let ts = tables[i].star_targets.take(j as int);
    if j > 0 {
        lemma_copy_targets_reach(modules, tables, z, i, (j - 1) as nat);
        assert(ts.drop_last() =~= tables[i].star_targets.take(j - 1));
        assert(ts.last() == tables[i].star_targets[j - 1]);
        lemma_copy_target_reach(modules, tables, copy_from_targets(modules, z, i, ts.drop_last()), i, j - 1);
    } else {
        assert(ts =~= Seq::<Seq<char>>::empty());
    }
}

/// A round's prefixes keep every binding reachable.
proof fn lemma_round_prefix_reach(modules: Seq<Module>, tables: Seq<BindingsView>, x: Seq<BindingsView>, m: nat)
    requires
        table_wf(modules),
        tables.len() == modules.len(),
        only_names_grow(tables, x),
        all_reachable(modules, tables, x),
        m <= x.len(),
    ensures
        only_names_grow(tables, round_prefix(modules, x, m)),
        all_reachable(modules, tables, round_prefix(modules, x, m)),
    decreases m,
{
    if m > 0 {
        let p = round_prefix(modules, x, (m - 1) as nat);
        lemma_round_prefix_reach(modules, tables, x, (m - 1) as nat);
        assert(x[m - 1].star_targets == tables[m - 1].star_targets);
        let ts = tables[m - 1].star_targets;
        lemma_copy_targets_reach(modules, tables, p, m - 1, ts.len());
        assert(ts.take(ts.len() as int) =~= ts);
    }
}

/// After any number of rounds every binding is reachable.
proof fn lemma_rounds_reachable(modules: Seq<Module>, tables: Seq<BindingsView>, r: nat)
    requires
        table_wf(modules),
        tables.len() == modules.len(),
    ensures
        only_names_grow(tables, rounds(modules, tables, r)),
        all_reachable(modules, tables, rounds(modules, tables, r)),
    decreases r,
{
    if r == 0 {
        lemma_grow_refl(tables);
        assert forall|i: int, k: Seq<char>| 0 <= i < tables.len() && #[trigger] tables[i].names.contains_key(k)
            implies exists|m: nat| #[trigger] binds_within(modules, tables, m, i, k) by {
            assert(binds_within(modules, tables, 0, i, k));
        }
    } else {
        let prev = rounds(modules, tables, (r - 1) as nat);
        lemma_rounds_reachable(modules, tables, (r - 1) as nat);
        lemma_round_prefix_reach(modules, tables, prev, prev.len());
    }
}

/// The `a`-th table of `w` has a star import naming the next one.
pub open spec fn step_ok(modules: Seq<Module>, tables: Seq<BindingsView>, w: Seq<int>, a: int) -> bool {
    exists|t: int| #[trigger] feeds(modules, tables, w[a], t, w[a + 1])
}

/// `w` is a walk along star imports of `tables`, from `w[0]` to a table
/// binding `k`.
pub open spec fn walk(modules: Seq<Module>, tables: Seq<BindingsView>, w: Seq<int>, k: Seq<char>) -> bool {
    &&& w.len() >= 1
    &&& forall|a: int| 0 <= a < w.len() ==> 0 <= #[trigger] w[a] < tables.len()
    &&& forall|a: int| 0 <= a < w.len() - 1 ==> #[trigger] step_ok(modules, tables, w, a)
    &&& tables[w.last()].names.contains_key(k)
}

/// A step of `u` at `a` is a step of `w` at `b` when they join the same
/// tables.
proof fn lemma_step_moves(modules: Seq<Module>, tables: Seq<BindingsView>, u: Seq<int>, a: int, w: Seq<int>, b: int)
    requires
        step_ok(modules, tables, u, a),
        w[b] == u[a],
        w[b + 1] == u[a + 1],
    ensures
        step_ok(modules, tables, w, b),
{
    let t = choose|t: int| #[trigger] feeds(modules, tables, u[a], t, u[a + 1]);
    assert(feeds(modules, tables, w[b], t, w[b + 1]));
}

/// A binding within `m` steps has a walk of at most `m + 1` tables.
proof fn lemma_walk_of(modules: Seq<Module>, tables: Seq<BindingsView>, m: nat, i: int, k: Seq<char>) -> (w: Seq<int>)
    requires
        0 <= i < tables.len(),
        binds_within(modules, tables, m, i, k),
    ensures
        walk(modules, tables, w, k),
        w[0] == i,
        w.len() <= m + 1,
    decreases m,
{
    if tables[i].names.contains_key(k) {
        seq![i]
    } else {
        let (t, s) = choose|t: int, s: int| #[trigger] feeds(modules, tables, i, t, s) && 0 <= s < tables.len()
            && binds_within(modules, tables, (m - 1) as nat, s, k);
        let rest = lemma_walk_of(modules, tables, (m - 1) as nat, s, k);
        let w = seq![i] + rest;
        assert forall|a: int| 0 <= a < w.len() implies 0 <= #[trigger] w[a] < tables.len() by {
            if a > 0 {
                assert(w[a] == rest[a - 1]);
            }
        }
        assert forall|a: int| 0 <= a < w.len() - 1 implies #[trigger] step_ok(modules, tables, w, a) by {
            if a == 0 {
                assert(feeds(modules, tables, w[0], t, w[1]));
            } else {
                assert(step_ok(modules, tables, rest, a - 1));
                lemma_step_moves(modules, tables, rest, a - 1, w, a);
            }
        }
        assert(w.last() == rest.last());
        w
    }
}

/// A walk of `w.len()` tables is a binding within `w.len() - 1` steps.
proof fn lemma_walk_binds(modules: Seq<Module>, tables: Seq<BindingsView>, w: Seq<int>, k: Seq<char>)
    requires
        walk(modules, tables, w, k),
    ensures
        binds_within(modules, tables, (w.len() - 1) as nat, w[0], k),
    decreases w.len(),
{
    if w.len() > 1 {
        let rest = w.drop_first();
        assert forall|a: int| 0 <= a < rest.len() implies 0 <= #[trigger] rest[a] < tables.len() by {
            assert(rest[a] == w[a + 1]);
        }
        assert forall|a: int| 0 <= a < rest.len() - 1 implies #[trigger] step_ok(modules, tables, rest, a) by {
            assert(step_ok(modules, tables, w, a + 1));
            lemma_step_moves(modules, tables, w, a + 1, rest, a);
        }
        assert(rest.last() == w.last());
        lemma_walk_binds(modules, tables, rest, k);
        assert(step_ok(modules, tables, w, 0));
        let t = choose|t: int| #[trigger] feeds(modules, tables, w[0], t, w[1]);
        assert(feeds(modules, tables, w[0], t, rest[0]));
    }
}

/// A walk through more tables than there are visits one twice; cutting
/// the loop out leaves a shorter walk between the same ends.
proof fn lemma_walk_shortens(modules: Seq<Module>, tables: Seq<BindingsView>, w: Seq<int>, k: Seq<char>) -> (v: Seq<int>)
    requires
        walk(modules, tables, w, k),
        w.len() > tables.len(),
    ensures
        walk(modules, tables, v, k),
        v[0] == w[0],
        v.len() < w.len(),
{
    if w.no_duplicates() {
        crate::simscope::lemma_distinct_bounded(w, tables.len() as int);
    }
    let (a, b) = choose|a: int, b: int| 0 <= a < w.len() && 0 <= b < w.len() && a != b && w[a] == w[b];
    let (lo, hi) = if a < b { (a, b) } else { (b, a) };
    let v = w.take(lo) + w.skip(hi);
    assert forall|c: int| 0 <= c < v.len() implies 0 <= #[trigger] v[c] < tables.len() by {
        if c < lo {
            assert(v[c] == w[c]);
        } else {
            assert(v[c] == w[c - lo + hi]);
        }
    }
    assert forall|c: int| 0 <= c < v.len() - 1 implies #[trigger] step_ok(modules, tables, v, c) by {
        if c + 1 < lo {
            assert(step_ok(modules, tables, w, c));
            lemma_step_moves(modules, tables, w, c, v, c);
        } else if c + 1 == lo {
            assert(step_ok(modules, tables, w, c));
            assert(v[c + 1] == w[hi] && w[hi] == w[lo]);
            lemma_step_moves(modules, tables, w, c, v, c);
        } else {
            let d = c - lo + hi;
            assert(step_ok(modules, tables, w, d));
            assert(v[c] == w[d] && v[c + 1] == w[d + 1]);
            lemma_step_moves(modules, tables, w, d, v, c);
        }
    }
    assert(v.last() == w.last());
    if lo == 0 {
        assert(v[0] == w[hi]);
    }
    v
}

/// Any walk can be cut down to one through at most as many tables as
/// there are.
proof fn lemma_walk_short(modules: Seq<Module>, tables: Seq<BindingsView>, w: Seq<int>, k: Seq<char>) -> (v: Seq<int>)
    requires
        walk(modules, tables, w, k),
    ensures
        walk(modules, tables, v, k),
        v[0] == w[0],
        v.len() <= tables.len(),
    decreases w.len(),
{
    if w.len() > tables.len() {
        let shorter = lemma_walk_shortens(modules, tables, w, k);
        lemma_walk_short(modules, tables, shorter, k)
    } else {
        w
    }
}

/// Star-import merging settles: within one round fewer than there are
/// tables every name has travelled as far as it can, so the next round
/// copies nothing, before the limit of one round more than there are
/// tables.
pub proof fn law_star_imports_settle(modules: Seq<Module>, tables: Seq<BindingsView>)
    requires
        table_wf(modules),
        tables.len() == modules.len(),
    ensures
        settles_within(modules, tables, (tables.len() + 1) as nat),
{
    let n = tables.len();
    if n == 0 {
        assert(rounds(modules, tables, 0) == tables);
        assert(merge_round_spec(modules, tables) == round_prefix(modules, tables, 0));
        assert(rounds(modules, tables, 1) == merge_round_spec(modules, rounds(modules, tables, 0)));
        assert(rounds(modules, tables, 0 + 1) == rounds(modules, tables, 0));
    } else {
        let last = (n - 1) as nat;
        let a = rounds(modules, tables, last);
        let b = rounds(modules, tables, last + 1);
        lemma_rounds_grow(modules, tables, last, last + 1);
        lemma_rounds_reachable(modules, tables, last + 1);
        assert forall|i: int| 0 <= i < b.len() implies #[trigger] b[i] == a[i] by {
            assert forall|k: Seq<char>| b[i].names.contains_key(k) implies a[i].names.contains_key(k) by {
                let m = choose|m: nat| #[trigger] binds_within(modules, tables, m, i, k);
                let w = lemma_walk_of(modules, tables, m, i, k);
                let v = lemma_walk_short(modules, tables, w, k);
                lemma_walk_binds(modules, tables, v, k);
                lemma_within_more(modules, tables, (v.len() - 1) as nat, last, i, k);
                lemma_rounds_reach_within(modules, tables, last, i, k);
            }
            assert(b[i].names =~= a[i].names);
        }
        assert(b =~= a);
        assert(last < n + 1);
        assert(rounds(modules, tables, last + 1) == rounds(modules, tables, last));
    }
}

} // verus!
