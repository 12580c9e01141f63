//! The load order of the enabled mods: every mod loads after the mods it
//! depends on, and among the mods that can load next the one with the lowest
//! handle goes first.

use vstd::prelude::*;

use crate::modding::registry::{ModInfo, ModRegistry, count_flag};
use crate::modding::types::{DefHandle, DefId, ids_distinct};
use crate::modding::validation::{ModValidationError, acyclic, dep_entries, depends, is_cycle};

verus! {

// ---------------------------------------------------------------------------
// The dependency edges, counted once per dependency entry
// ---------------------------------------------------------------------------

/// The dependency entry `e` names the enabled mod at position `b`.
pub open spec fn names_enabled(reg: ModRegistry, e: (DefId, String), b: int) -> bool {
    0 <= b < reg.size() && reg.enabled_view()[b] && reg.ids_view()[b] == e.0@
}

/// The position of the enabled mod that the dependency entry `e` names.
pub open spec fn target(reg: ModRegistry, e: (DefId, String)) -> Option<int> {
    if exists|b: int| names_enabled(reg, e, b) {
        Some(choose|b: int| names_enabled(reg, e, b))
    } else {
        None
    }
}

/// The positions of the enabled mods that `entries` name, once per entry.
pub open spec fn targets(reg: ModRegistry, entries: Seq<(DefId, String)>) -> Seq<int>
    decreases entries.len(),
{
    if entries.len() == 0 {
        Seq::empty()
    } else {
        let t = targets(reg, entries.drop_last());
        match target(reg, entries.last()) {
            Some(b) => t.push(b),
            None => t,
        }
    }
}

/// The positions of the enabled mods that the mod at `x` depends on, once per
/// dependency entry that names them.
pub open spec fn out_edges(reg: ModRegistry, x: int) -> Seq<int> {
    targets(reg, dep_entries(reg.mods()[x]))
}

/// The number of entries of `s` that are not in `done`.
pub open spec fn pending(s: Seq<int>, done: Seq<int>) -> nat
    decreases s.len(),
{
    if s.len() == 0 {
        0
    } else {
        pending(s.drop_last(), done) + if done.contains(s.last()) {
            0nat
        } else {
            1nat
        }
    }
}

/// The number of times `x` occurs in `s`.
pub open spec fn occurrences<A>(s: Seq<A>, x: A) -> nat
    decreases s.len(),
{
    if s.len() == 0 {
        0
    } else {
        occurrences(s.drop_last(), x) + if s.last() == x {
            1nat
        } else {
            0nat
        }
    }
}

// ---------------------------------------------------------------------------
// Load orders
// ---------------------------------------------------------------------------

/// Every mod that the mod at `x` depends on is in `done`.
pub open spec fn deps_placed(reg: ModRegistry, done: Seq<int>, x: int) -> bool {
    forall|y: int| #[trigger] depends(reg, x, y) ==> done.contains(y)
}

/// The mod at `x` can load after the mods in `done`: it is enabled, not in
/// `done`, and every mod it depends on is.
pub open spec fn ready(reg: ModRegistry, done: Seq<int>, x: int) -> bool {
    &&& 0 <= x < reg.size()
    &&& reg.enabled_view()[x]
    &&& !done.contains(x)
    &&& deps_placed(reg, done, x)
}

/// Each mod of `order` is, among the mods that can load after those before
/// it, the one with the lowest position.
pub open spec fn is_load_order(reg: ModRegistry, order: Seq<int>) -> bool {
    forall|i: int|
        #![trigger order[i]]
        0 <= i < order.len() ==> {
            &&& ready(reg, order.take(i), order[i])
            &&& forall|x: int| ready(reg, order.take(i), x) ==> order[i] <= x
        }
}

/// No mod can load after the mods in `order`.
pub open spec fn exhausted(reg: ModRegistry, order: Seq<int>) -> bool {
    forall|x: int| !ready(reg, order, x)
}

/// The positions of the mods with the given handles.
pub open spec fn handle_positions(order: Seq<DefHandle<ModInfo>>) -> Seq<int> {
    order.map_values(|h: DefHandle<ModInfo>| h@ - 1)
}

// ---------------------------------------------------------------------------
// Lemmas
// ---------------------------------------------------------------------------

proof fn lemma_target_at(reg: ModRegistry, e: (DefId, String), b: int)
    requires
        ids_distinct(reg.ids_view()),
        names_enabled(reg, e, b),
    ensures
        target(reg, e) == Some(b),
{
    let c = choose|c: int| names_enabled(reg, e, c);
    assert(reg.ids_view()[c] == reg.ids_view()[b]);
}

proof fn lemma_targets_push(reg: ModRegistry, entries: Seq<(DefId, String)>, k: int)
    requires
        0 <= k < entries.len(),
    ensures
        targets(reg, entries.take(k + 1)) == match target(reg, entries[k]) {
            Some(b) => targets(reg, entries.take(k)).push(b),
            None => targets(reg, entries.take(k)),
        },
{
    assert(entries.take(k + 1).drop_last() =~= entries.take(k));
}

proof fn lemma_targets_append(
    reg: ModRegistry,
    s1: Seq<(DefId, String)>,
    s2: Seq<(DefId, String)>,
)
    ensures
        targets(reg, s1 + s2) == targets(reg, s1) + targets(reg, s2),
    decreases s2.len(),
{
    if s2.len() == 0 {
        assert(s1 + s2 =~= s1);
        assert(targets(reg, s1) + targets(reg, s2) =~= targets(reg, s1));
    } else {
        assert((s1 + s2).drop_last() =~= s1 + s2.drop_last());
        lemma_targets_append(reg, s1, s2.drop_last());
        match target(reg, s2.last()) {
            Some(b) => {
                assert(targets(reg, s1) + targets(reg, s2.drop_last()).push(b) =~= (targets(
                    reg,
                    s1,
                ) + targets(reg, s2.drop_last())).push(b));
            },
            None => {},
        }
    }
}

proof fn lemma_targets_contains(reg: ModRegistry, entries: Seq<(DefId, String)>, b: int)
    requires
        ids_distinct(reg.ids_view()),
    ensures
        targets(reg, entries).contains(b) <==> exists|k: int|
            0 <= k < entries.len() && names_enabled(reg, #[trigger] entries[k], b),
        forall|j: int|
            0 <= j < targets(reg, entries).len() ==> 0 <= #[trigger] targets(reg, entries)[j]
                < reg.size() && reg.enabled_view()[targets(reg, entries)[j]],
    decreases entries.len(),
{
    if entries.len() > 0 {
        let init = entries.drop_last();
        lemma_targets_contains(reg, init, b);
        let t = targets(reg, init);
        if targets(reg, entries).contains(b) {
            match target(reg, entries.last()) {
                Some(c) => {
                    if c == b {
                        assert(names_enabled(reg, entries[entries.len() - 1], b));
                    } else {
                        let j = choose|j: int| 0 <= j < t.push(c).len() && t.push(c)[j] == b;
                        assert(t[j] == b);
                        let k = choose|k: int| 0 <= k < init.len() && names_enabled(reg, #[trigger] init[k], b);
                        assert(entries[k] == init[k]);
                    }
                },
                None => {
                    let k = choose|k: int| 0 <= k < init.len() && names_enabled(reg, #[trigger] init[k], b);
                    assert(entries[k] == init[k]);
                },
            }
        }
        if exists|k: int| 0 <= k < entries.len() && names_enabled(reg, #[trigger] entries[k], b) {
            let k = choose|k: int| 0 <= k < entries.len() && names_enabled(reg, #[trigger] entries[k], b);
            if k == entries.len() - 1 {
                lemma_target_at(reg, entries.last(), b);
                assert(t.push(b)[t.len() as int] == b);
            } else {
                assert(init[k] == entries[k]);
                assert(t.contains(b));
                let j = choose|j: int| 0 <= j < t.len() && t[j] == b;
                match target(reg, entries.last()) {
                    Some(c) => {
                        assert(t.push(c)[j] == b);
                    },
                    None => {},
                }
            }
        }
        assert forall|j: int|
            0 <= j < targets(reg, entries).len() implies 0 <= #[trigger] targets(reg, entries)[j]
            < reg.size() && reg.enabled_view()[targets(reg, entries)[j]] by {
            match target(reg, entries.last()) {
                Some(c) => {
                    if j == t.len() {
                        assert(names_enabled(reg, entries.last(), c));
                    } else {
                        assert(t.push(c)[j] == t[j]);
                    }
                },
                None => {},
            }
        }
    }
}

proof fn lemma_depends_out_edges(reg: ModRegistry, a: int, b: int)
    requires
        ids_distinct(reg.ids_view()),
        0 <= a < reg.size(),
    ensures
        depends(reg, a, b) <==> reg.enabled_view()[a] && out_edges(reg, a).contains(b),
{
    let entries = dep_entries(reg.mods()[a]);
    lemma_targets_contains(reg, entries, b);
    if depends(reg, a, b) {
        let k = choose|k: int| 0 <= k < entries.len() && (#[trigger] entries[k]).0@ == reg.ids_view()[b];
        assert(names_enabled(reg, entries[k], b));
    }
    if reg.enabled_view()[a] && out_edges(reg, a).contains(b) {
        let k = choose|k: int| 0 <= k < entries.len() && names_enabled(reg, #[trigger] entries[k], b);
        assert(entries[k].0@ == reg.ids_view()[b]);
    }
}

proof fn lemma_pending_zero(s: Seq<int>, done: Seq<int>)
    ensures
        pending(s, done) == 0 <==> forall|y: int| s.contains(y) ==> done.contains(y),
    decreases s.len(),
{
    if s.len() > 0 {
        lemma_pending_zero(s.drop_last(), done);
        if pending(s, done) == 0 {
            assert forall|y: int| s.contains(y) implies done.contains(y) by {
                let j = choose|j: int| 0 <= j < s.len() && s[j] == y;
                if j < s.len() - 1 {
                    assert(s.drop_last()[j] == y);
                }
            }
        }
        if forall|y: int| s.contains(y) ==> done.contains(y) {
            assert(s.contains(s.last()));
            assert forall|y: int| s.drop_last().contains(y) implies done.contains(y) by {
                let j = choose|j: int| 0 <= j < s.drop_last().len() && s.drop_last()[j] == y;
                assert(s[j] == y);
            }
        }
    }
}

proof fn lemma_pending_push(s: Seq<int>, done: Seq<int>, c: int)
    requires
        !done.contains(c),
    ensures
        pending(s, done) == pending(s, done.push(c)) + occurrences(s, c),
    decreases s.len(),
{
    if s.len() > 0 {
        lemma_pending_push(s.drop_last(), done, c);
        let y = s.last();
        if done.push(c).contains(y) && !done.contains(y) {
            let j = choose|j: int| 0 <= j < done.push(c).len() && done.push(c)[j] == y;
            if j < done.len() {
                assert(done[j] == y);
            }
        }
        if done.contains(y) {
            let j = choose|j: int| 0 <= j < done.len() && done[j] == y;
            assert(done.push(c)[j] == y);
        }
        if y == c {
            assert(done.push(c)[done.len() as int] == c);
        }
    }
}

proof fn lemma_occurrences_take<A>(s: Seq<A>, j: int, x: A)
    requires
        0 <= j < s.len(),
    ensures
        occurrences(s.take(j + 1), x) == occurrences(s.take(j), x) + if s[j] == x {
            1nat
        } else {
            0nat
        },
{
    assert(s.take(j + 1).drop_last() =~= s.take(j));
}

proof fn lemma_occurrences_contains<A>(s: Seq<A>, x: A)
    ensures
        occurrences(s, x) > 0 <==> s.contains(x),
    decreases s.len(),
{
    if s.len() > 0 {
        lemma_occurrences_contains(s.drop_last(), x);
        if s.drop_last().contains(x) {
            let j = choose|j: int| 0 <= j < s.drop_last().len() && s.drop_last()[j] == x;
            assert(s[j] == x);
        }
        if s.contains(x) && s.last() != x {
            let j = choose|j: int| 0 <= j < s.len() && s[j] == x;
            assert(s.drop_last()[j] == x);
        }
    }
}

pub(crate) proof fn lemma_count_le(s: Seq<bool>, v: bool)
    ensures
        count_flag(s, v) <= s.len(),
    decreases s.len(),
{
    if s.len() > 0 {
        lemma_count_le(s.drop_last(), v);
    }
}

proof fn lemma_count_set(s: Seq<bool>, c: int)
    requires
        0 <= c < s.len(),
        !s[c],
    ensures
        count_flag(s.update(c, true), true) == count_flag(s, true) + 1,
    decreases s.len(),
{
    if c < s.len() - 1 {
        assert(s.update(c, true).drop_last() =~= s.drop_last().update(c, true));
        lemma_count_set(s.drop_last(), c);
    } else {
        assert(s.update(c, true).drop_last() =~= s.drop_last());
    }
}

/// Where each entry of `s1` implies that of `s2`, as many entries are set in
/// both only when they are equal.
proof fn lemma_count_equal(s1: Seq<bool>, s2: Seq<bool>)
    requires
        s1.len() == s2.len(),
        forall|i: int| 0 <= i < s1.len() && s1[i] ==> s2[i],
    ensures
        count_flag(s1, true) <= count_flag(s2, true),
        count_flag(s1, true) == count_flag(s2, true) ==> forall|i: int|
            0 <= i < s1.len() && s2[i] ==> s1[i],
    decreases s1.len(),
{
    if s1.len() > 0 {
        lemma_count_equal(s1.drop_last(), s2.drop_last());
        if count_flag(s1, true) == count_flag(s2, true) {
            assert forall|i: int| 0 <= i < s1.len() && s2[i] implies s1[i] by {
                if i < s1.len() - 1 {
                    assert(s2.drop_last()[i]);
                }
            }
        }
    }
}

/// The position in `s` at which `y` stands.
pub open spec fn index_in(s: Seq<int>, y: int) -> int {
    choose|i: int| 0 <= i < s.len() && s[i] == y
}

proof fn lemma_load_order_no_duplicates(reg: ModRegistry, order: Seq<int>)
    requires
        is_load_order(reg, order),
    ensures
        order.no_duplicates(),
{
    assert forall|i: int, j: int|
        0 <= i < order.len() && 0 <= j < order.len() && i != j implies order[i] != order[j] by {
        if i < j {
            assert(!order.take(j).contains(order[j]));
            assert(order.take(j)[i] == order[i]);
        } else {
            assert(!order.take(i).contains(order[i]));
            assert(order.take(i)[j] == order[j]);
        }
    }
}

/// A mod of a load order comes after each mod it depends on.
proof fn lemma_dependency_before(reg: ModRegistry, order: Seq<int>, i: int, y: int)
    requires
        is_load_order(reg, order),
        0 <= i < order.len(),
        depends(reg, order[i], y),
    ensures
        order.contains(y),
        index_in(order, y) < i,
{
    lemma_load_order_no_duplicates(reg, order);
    assert(ready(reg, order.take(i), order[i]));
    assert(order.take(i).contains(y));
    let j = choose|j: int| 0 <= j < order.take(i).len() && order.take(i)[j] == y;
    assert(order[j] == y);
    let p = index_in(order, y);
    assert(order[p] == y);
}

proof fn lemma_cycle_descends(reg: ModRegistry, order: Seq<int>, c: Seq<int>, k: int)
    requires
        is_load_order(reg, order),
        is_cycle(reg, c),
        forall|x: int| 0 <= x < reg.size() && reg.enabled_view()[x] ==> order.contains(x),
        0 <= k < c.len(),
    ensures
        order.contains(c[k]),
        index_in(order, c[k]) + k <= index_in(order, c[0]),
    decreases k,
{
    assert(depends(reg, c[c.len() - 1], c[0]));
    if k == 0 {
        let p = index_in(order, c[0]);
    } else {
        lemma_cycle_descends(reg, order, c, k - 1);
        assert(depends(reg, c[k - 1], c[k]));
        let p = index_in(order, c[k - 1]);
        assert(order[p] == c[k - 1]);
        lemma_dependency_before(reg, order, p, c[k]);
    }
}

/// A load order that holds every enabled mod leaves no cycle among them.
proof fn lemma_complete_acyclic(reg: ModRegistry, order: Seq<int>)
    requires
        is_load_order(reg, order),
        forall|x: int| 0 <= x < reg.size() && reg.enabled_view()[x] ==> order.contains(x),
    ensures
        acyclic(reg),
{
    assert forall|c: Seq<int>| !is_cycle(reg, c) by {
        if is_cycle(reg, c) {
            let last = c.len() - 1;
            lemma_cycle_descends(reg, order, c, last);
            assert(depends(reg, c[last], c[0]));
            let p = index_in(order, c[last]);
            assert(order[p] == c[last]);
            lemma_dependency_before(reg, order, p, c[0]);
        }
    }
}

proof fn lemma_walk_cycle(reg: ModRegistry, order: Seq<int>, walk: Seq<int>)
    requires
        exhausted(reg, order),
        walk.len() > 0,
        walk.no_duplicates(),
        forall|k: int|
            0 <= k < walk.len() ==> 0 <= #[trigger] walk[k] < reg.size()
                && reg.enabled_view()[walk[k]] && !order.contains(walk[k]),
        forall|k: int| 0 <= k < walk.len() - 1 ==> depends(reg, #[trigger] walk[k], walk[k + 1]),
    ensures
        !acyclic(reg),
    decreases reg.size() - walk.len(),
{
    let last = walk.last();
    assert(walk[walk.len() - 1] == last);
    assert(!ready(reg, order, last));
    let y = choose|y: int| #[trigger] depends(reg, last, y) && !order.contains(y);
    if walk.contains(y) {
        let j = choose|j: int| 0 <= j < walk.len() && walk[j] == y;
        let c = walk.subrange(j, walk.len() as int);
        assert forall|k: int| #![trigger c[k]] 0 <= k < c.len() - 1 implies depends(
            reg,
            c[k],
            c[k + 1],
        ) by {
            assert(c[k] == walk[j + k]);
            assert(c[k + 1] == walk[j + k + 1]);
        }
        assert(c[c.len() - 1] == last);
        assert(c[0] == y);
        assert(is_cycle(reg, c));
    } else {
        let walk2 = walk.push(y);
        assert forall|k: int|
            0 <= k < walk2.len() implies 0 <= #[trigger] walk2[k] < reg.size()
            && reg.enabled_view()[walk2[k]] && !order.contains(walk2[k]) by {
            if k < walk.len() {
                assert(walk2[k] == walk[k]);
            }
        }
        assert forall|k: int| 0 <= k < walk2.len() - 1 implies depends(
            reg,
            #[trigger] walk2[k],
            walk2[k + 1],
        ) by {
            assert(walk2[k] == walk[k]);
            if k + 1 < walk.len() {
                assert(walk2[k + 1] == walk[k + 1]);
            }
        }
        assert(walk2.no_duplicates()) by {
            assert forall|a: int, b: int|
                0 <= a < walk2.len() && 0 <= b < walk2.len() && a != b implies walk2[a]
                != walk2[b] by {
                if a < walk.len() && b < walk.len() {
                    assert(walk2[a] == walk[a] && walk2[b] == walk[b]);
                } else if a < walk.len() {
                    assert(walk2[a] == walk[a]);
                } else if b < walk.len() {
                    assert(walk2[b] == walk[b]);
                }
            }
        }
        assert(walk2.len() <= reg.size()) by {
            walk2.unique_seq_to_set();
            vstd::set_lib::lemma_int_range(0, reg.size());
            assert(walk2.to_set().subset_of(vstd::set_lib::set_int_range(0, reg.size())));
            vstd::set_lib::lemma_len_subset(
                walk2.to_set(),
                vstd::set_lib::set_int_range(0, reg.size()),
            );
        }
        lemma_walk_cycle(reg, order, walk2);
    }
}

/// When no mod can load next but an enabled mod has not loaded, the enabled
/// mods depend on each other in a cycle.
proof fn lemma_stuck_cycle(reg: ModRegistry, order: Seq<int>, x: int)
    requires
        exhausted(reg, order),
        0 <= x < reg.size(),
        reg.enabled_view()[x],
        !order.contains(x),
    ensures
        !acyclic(reg),
{
    let walk = seq![x];
    assert(walk[0] == x);
    lemma_walk_cycle(reg, order, walk);
}

proof fn lemma_targets_len(reg: ModRegistry, entries: Seq<(DefId, String)>)
    ensures
        targets(reg, entries).len() <= entries.len(),
    decreases entries.len(),
{
    if entries.len() > 0 {
        lemma_targets_len(reg, entries.drop_last());
    }
}

proof fn lemma_occurrences_append<A>(s1: Seq<A>, s2: Seq<A>, x: A)
    ensures
        occurrences(s1 + s2, x) == occurrences(s1, x) + occurrences(s2, x),
    decreases s2.len(),
{
    if s2.len() == 0 {
        assert(s1 + s2 =~= s1);
    } else {
        assert((s1 + s2).drop_last() =~= s1 + s2.drop_last());
        lemma_occurrences_append(s1, s2.drop_last(), x);
    }
}

/// Every dependency list of every mod has fewer entries than `usize::MAX`
/// counts, the two lists of a mod together.
pub open spec fn dependency_counts_fit(reg: ModRegistry) -> bool {
    forall|x: int| 0 <= x < reg.size() ==> #[trigger] dep_entries(reg.mods()[x]).len() <= usize::MAX
}

/// Every entry of every list of `adjacency` is a position below `n`.
pub open spec fn entries_below(adjacency: Seq<Vec<usize>>, n: int) -> bool {
    forall|b: int, j: int|
        0 <= b < adjacency.len() && 0 <= j < adjacency[b]@.len() ==> #[trigger] adjacency[b]@[j]
            < n
}

/// Adds an edge from each enabled mod that `entries` name to the mod at `a`,
/// and counts the edges into `a`.
fn add_edges(
    registry: &ModRegistry,
    a: usize,
    entries: &Vec<(DefId, String)>,
    in_degree: &mut Vec<usize>,
    adjacency: &mut Vec<Vec<usize>>,
)
    requires
        registry.wf(),
        a < registry.size(),
        old(in_degree)@.len() == registry.size(),
        old(adjacency)@.len() == registry.size(),
        old(in_degree)@[a as int] + entries@.len() <= usize::MAX,
        entries_below(old(adjacency)@, registry.size()),
    ensures
        final(in_degree)@ == old(in_degree)@.update(
            a as int,
            (old(in_degree)@[a as int] + targets(*registry, entries@).len()) as usize,
        ),
        final(adjacency)@.len() == registry.size(),
        entries_below(final(adjacency)@, registry.size()),
        forall|b: int, x: usize|
            0 <= b < registry.size() ==> #[trigger] occurrences(final(adjacency)@[b]@, x)
                == occurrences(old(adjacency)@[b]@, x) + if x == a {
                occurrences(targets(*registry, entries@), b)
            } else {
                0nat
            },
{
    proof {
        registry.lemma_wf();
    }
    let ghost n = registry.size();
    let ghost start = in_degree@[a as int];
    let mut k: usize = 0;
    while k < entries.len()
        invariant
            registry.wf(),
            n == registry.size(),
            ids_distinct(registry.ids_view()),
            registry.size() <= u32::MAX,
            a < n,
            k <= entries@.len(),
            old(in_degree)@.len() == n,
            start == old(in_degree)@[a as int],
            start + entries@.len() <= usize::MAX,
            in_degree@ == old(in_degree)@.update(
                a as int,
                (start + targets(*registry, entries@.take(k as int)).len()) as usize,
            ),
            targets(*registry, entries@.take(k as int)).len() <= k,
            adjacency@.len() == n,
            entries_below(adjacency@, n),
            forall|b: int, x: usize|
                0 <= b < n ==> #[trigger] occurrences(adjacency@[b]@, x) == occurrences(
                    old(adjacency)@[b]@,
                    x,
                ) + if x == a {
                    occurrences(targets(*registry, entries@.take(k as int)), b)
                } else {
                    0nat
                },
        decreases entries@.len() - k,
    {
        proof {
            lemma_targets_push(*registry, entries@, k as int);
        }
        let ghost t = targets(*registry, entries@.take(k as int));
        match registry.lookup(&entries[k].0) {
            Some(h) => {
                let b = h.to_index();
                if registry.is_enabled(h) {
                    proof {
                        assert(names_enabled(*registry, entries@[k as int], b as int));
                        lemma_target_at(*registry, entries@[k as int], b as int);
                    }
                    let ghost adj0 = adjacency@;
                    assert(in_degree@[a as int] == start + t.len());
                    adjacency[b].push(a);
                    let d = in_degree[a] + 1;
                    in_degree.set(a, d);
                    proof {
                        assert forall|c: int, x: usize| 0 <= c < n implies #[trigger] occurrences(
                            adjacency@[c]@,
                            x,
                        ) == occurrences(old(adjacency)@[c]@, x) + if x == a {
                            occurrences(targets(*registry, entries@.take(k + 1)), c)
                        } else {
                            0nat
                        } by {
                            assert(occurrences(adj0[c]@, x) == occurrences(
                                old(adjacency)@[c]@,
                                x,
                            ) + if x == a {
                                occurrences(t, c)
                            } else {
                                0nat
                            });
                            assert(targets(*registry, entries@.take(k + 1)) == t.push(b as int));
                            assert(t.push(b as int).drop_last() =~= t);
                            if c == b as int {
                                assert(adjacency@[c]@.drop_last() =~= adj0[c]@);
                            } else {
                                assert(adjacency@[c] == adj0[c]);
                                if x == a {
                                    assert(t.push(b as int).drop_last() =~= t);
                                }
                            }
                        }
                        assert forall|c: int, j: int|
                            0 <= c < adjacency@.len() && 0 <= j < adjacency@[c]@.len() implies #[trigger] adjacency@[c]@[j]
                            < n by {
                            if c == b as int && j == adj0[c]@.len() {
                            } else if c == b as int {
                                assert(adjacency@[c]@[j] == adj0[c]@[j]);
                            } else {
                                assert(adjacency@[c] == adj0[c]);
                            }
                        }
                    }
                } else {
                    proof {
                        assert forall|c: int| !names_enabled(*registry, entries@[k as int], c) by {
                            if names_enabled(*registry, entries@[k as int], c) {
                                assert(registry.ids_view()[c] == registry.ids_view()[b as int]);
                            }
                        }
                    }
                }
            },
            None => {
                proof {
                    assert forall|c: int| !names_enabled(*registry, entries@[k as int], c) by {
                        if names_enabled(*registry, entries@[k as int], c) {
                            assert(registry.ids_view().contains(entries@[k as int].0@));
                        }
                    }
                }
            },
        }
        k = k + 1;
    }
    proof {
        assert(entries@.take(k as int) =~= entries@);
    }
}

/// The dependency graph of the enabled mods: for each mod, the mods that
/// depend on it, once per dependency entry, and the number of its own
/// dependency entries that name an enabled mod.
fn build_graph(registry: &ModRegistry) -> (r: (Vec<usize>, Vec<Vec<usize>>))
    requires
        registry.wf(),
        dependency_counts_fit(*registry),
    ensures
        r.0@.len() == registry.size(),
        r.1@.len() == registry.size(),
        entries_below(r.1@, registry.size()),
        forall|x: int|
            0 <= x < registry.size() && registry.enabled_view()[x] ==> r.0@[x] == out_edges(
                *registry,
                x,
            ).len(),
        forall|b: int, x: usize|
            0 <= b < registry.size() ==> #[trigger] occurrences(r.1@[b]@, x) == if x
                < registry.size() && registry.enabled_view()[x as int] {
                occurrences(out_edges(*registry, x as int), b)
            } else {
                0nat
            },
{
    proof {
        registry.lemma_wf();
    }
    let n = registry.len();
    let mut in_degree: Vec<usize> = Vec::new();
    let mut adjacency: Vec<Vec<usize>> = Vec::new();
    let mut i: usize = 0;
    while i < n
        invariant
            i <= n,
            in_degree@.len() == i,
            adjacency@.len() == i,
            forall|x: int| 0 <= x < i ==> #[trigger] in_degree@[x] == 0,
            forall|b: int| 0 <= b < i ==> (#[trigger] adjacency@[b])@.len() == 0,
        decreases n - i,
    {
        in_degree.push(0);
        adjacency.push(Vec::new());
        i = i + 1;
    }
    let mut a: usize = 0;
    while a < n
        invariant
            registry.wf(),
            dependency_counts_fit(*registry),
            n == registry.size(),
            registry.size() <= u32::MAX,
            a <= n,
            in_degree@.len() == n,
            adjacency@.len() == n,
            entries_below(adjacency@, n as int),
            forall|x: int|
                0 <= x < n ==> #[trigger] in_degree@[x] == if x < a && registry.enabled_view()[x] {
                    out_edges(*registry, x).len()
                } else {
                    0
                },
            forall|b: int, x: usize|
                0 <= b < n ==> #[trigger] occurrences(adjacency@[b]@, x) == if x < a
                    && registry.enabled_view()[x as int] {
                    occurrences(out_edges(*registry, x as int), b)
                } else {
                    0nat
                },
        decreases n - a,
    {
        let handle = DefHandle::<ModInfo>::from_index(a);
        if registry.is_enabled(handle) {
            let mod_info = match registry.get(handle) {
                Some(m) => m,
                None => {
                    assert(false);
                    return (in_degree, adjacency);
                },
            };
            let ghost m = registry.mods()[a as int];
            proof {
                assert(handle@ == a + 1);
                assert(*mod_info == m);
                assert(dep_entries(registry.mods()[a as int]).len() <= usize::MAX);
            }
            let ghost d0 = in_degree@;
            let ghost adj0 = adjacency@;
            add_edges(registry, a, mod_info.dependencies(), &mut in_degree, &mut adjacency);
            let ghost adj1 = adjacency@;
            proof {
                lemma_targets_len(*registry, m.meta().dependencies@);
            }
            add_edges(
                registry,
                a,
                mod_info.optional_dependencies(),
                &mut in_degree,
                &mut adjacency,
            );
            proof {
                let td = targets(*registry, m.meta().dependencies@);
                let to = targets(*registry, m.meta().optional_dependencies@);
                lemma_targets_append(
                    *registry,
                    m.meta().dependencies@,
                    m.meta().optional_dependencies@,
                );
                assert(out_edges(*registry, a as int) == td + to);
                assert forall|x: int| 0 <= x < n implies #[trigger] in_degree@[x] == if x < a + 1
                    && registry.enabled_view()[x] {
                    out_edges(*registry, x).len()
                } else {
                    0
                } by {
                    if x != a {
                        assert(in_degree@[x] == d0[x]);
                    } else {
                        lemma_targets_len(*registry, m.meta().optional_dependencies@);
                        assert(d0[x] == 0);
                        assert(in_degree@[x] == td.len() + to.len());
                    }
                }
                assert forall|b: int, x: usize| 0 <= b < n implies #[trigger] occurrences(
                    adjacency@[b]@,
                    x,
                ) == if x < a + 1 && registry.enabled_view()[x as int] {
                    occurrences(out_edges(*registry, x as int), b)
                } else {
                    0nat
                } by {
                    assert(occurrences(adj1[b]@, x) == occurrences(adj0[b]@, x) + if x == a {
                        occurrences(td, b)
                    } else {
                        0nat
                    });
                    assert(occurrences(adj0[b]@, x) == if x < a && registry.enabled_view()[x as int] {
                        occurrences(out_edges(*registry, x as int), b)
                    } else {
                        0nat
                    });
                    lemma_occurrences_append(td, to, b);
                }
            }
        } else {
            proof {
                assert(handle@ == a + 1);
            }
        }
        a = a + 1;
    }
    (in_degree, adjacency)
}

proof fn lemma_occurrences_prefix<A>(s: Seq<A>, k: int, x: A)
    requires
        0 <= k <= s.len(),
    ensures
        occurrences(s.take(k), x) <= occurrences(s, x),
{
    assert(s =~= s.take(k) + s.skip(k));
    lemma_occurrences_append(s.take(k), s.skip(k), x);
}

/// The entries of `s` increase strictly.
pub open spec fn strictly_sorted(s: Seq<usize>) -> bool {
    forall|i: int, j: int| 0 <= i < j < s.len() ==> s[i] < s[j]
}

/// Inserts `x` into the strictly increasing `queue` where it belongs.
fn insert_sorted(queue: &mut Vec<usize>, x: usize)
    requires
        strictly_sorted(old(queue)@),
        !old(queue)@.contains(x),
    ensures
        strictly_sorted(final(queue)@),
        forall|y: usize| final(queue)@.contains(y) <==> old(queue)@.contains(y) || y == x,
{
    let mut i: usize = 0;
    while i < queue.len() && queue[i] < x
        invariant
            queue@ == old(queue)@,
            i <= queue@.len(),
            forall|j: int| 0 <= j < i ==> queue@[j] < x,
        decreases queue@.len() - i,
    {
        i = i + 1;
    }
    queue.insert(i, x);
    proof {
        let q0 = old(queue)@;
        let q = queue@;
        assert(q =~= q0.subrange(0, i as int).push(x) + q0.subrange(i as int, q0.len() as int));
        assert forall|a: int, b: int| 0 <= a < b < q.len() implies q[a] < q[b] by {
            if i < q0.len() {
                assert(q0[i as int] >= x);
                assert(q0[i as int] != x);
            }
            if a < i && b > i {
                assert(q[a] == q0[a] && q[b] == q0[b - 1]);
            } else if a < i && b == i {
            } else if a == i {
                assert(q[b] == q0[b - 1]);
                assert(q0[i as int] <= q0[b - 1]);
            } else if b < i {
            } else {
                assert(q[a] == q0[a - 1] && q[b] == q0[b - 1]);
            }
        }
        assert forall|y: usize| q.contains(y) <==> q0.contains(y) || y == x by {
            if q.contains(y) {
                let j = choose|j: int| 0 <= j < q.len() && q[j] == y;
                if j < i {
                    assert(q0[j] == y);
                } else if j > i {
                    assert(q0[j - 1] == y);
                }
            }
            if q0.contains(y) {
                let j = choose|j: int| 0 <= j < q0.len() && q0[j] == y;
                if j < i {
                    assert(q[j] == y);
                } else {
                    assert(q[j + 1] == y);
                }
            }
            if y == x {
                assert(q[i as int] == x);
            }
        }
    }
}

/// What the search state holds between steps of the sort, with `done` the
/// mods placed so far.
pub open spec fn sort_state(
    reg: ModRegistry,
    adjacency: Seq<Vec<usize>>,
    in_degree: Seq<usize>,
    queue: Seq<usize>,
    done: Seq<int>,
) -> bool {
    &&& in_degree.len() == reg.size()
    &&& adjacency.len() == reg.size()
    &&& entries_below(adjacency, reg.size())
    &&& forall|b: int, x: usize|
        0 <= b < reg.size() ==> #[trigger] occurrences(adjacency[b]@, x) == if x < reg.size()
            && reg.enabled_view()[x as int] {
            occurrences(out_edges(reg, x as int), b)
        } else {
            0nat
        }
    &&& is_load_order(reg, done)
    &&& strictly_sorted(queue)
}

/// The queue holds exactly the enabled mods outside `done` whose in-degree
/// is zero.
pub open spec fn queue_matches(
    reg: ModRegistry,
    queue: Seq<usize>,
    in_degree: Seq<usize>,
    done: Seq<int>,
) -> bool {
    forall|x: usize|
        #![trigger queue.contains(x)]
        #![trigger in_degree[x as int]]
        queue.contains(x) <==> (x < reg.size() && reg.enabled_view()[x as int] && !done.contains(
            x as int,
        ) && in_degree[x as int] == 0)
}

/// Lowers the in-degree of each mod that depends on `current`, which has just
/// been placed after `done`, and queues those whose in-degree reaches zero.
fn release_dependents(
    registry: &ModRegistry,
    adjacency: &Vec<Vec<usize>>,
    current: usize,
    in_degree: &mut Vec<usize>,
    queue: &mut Vec<usize>,
    Ghost(done): Ghost<Seq<int>>,
)
    requires
        registry.wf(),
        sort_state(*registry, adjacency@, old(in_degree)@, old(queue)@, done),
        ready(*registry, done, current as int),
        forall|x: int|
            0 <= x < registry.size() && registry.enabled_view()[x] && !done.push(
                current as int,
            ).contains(x) ==> #[trigger] old(in_degree)@[x] == pending(out_edges(*registry, x), done),
        queue_matches(*registry, old(queue)@, old(in_degree)@, done.push(current as int)),
    ensures
        sort_state(*registry, adjacency@, final(in_degree)@, final(queue)@, done),
        forall|x: int|
            0 <= x < registry.size() && registry.enabled_view()[x] && !done.push(
                current as int,
            ).contains(x) ==> #[trigger] final(in_degree)@[x] == pending(
                out_edges(*registry, x),
                done.push(current as int),
            ),
        queue_matches(*registry, final(queue)@, final(in_degree)@, done.push(current as int)),
{
    proof {
        registry.lemma_wf();
    }
    let ghost n = registry.size();
    let ghost c = current as int;
    let ghost done2 = done.push(c);
    let ghost adj = adjacency@[c]@;
    let mut j: usize = 0;
    while j < adjacency[current].len()
        invariant
            registry.wf(),
            ids_distinct(registry.ids_view()),
            n == registry.size(),
            registry.size() <= u32::MAX,
            c == current,
            done2 == done.push(c),
            adj == adjacency@[c]@,
            ready(*registry, done, c),
            sort_state(*registry, adjacency@, in_degree@, queue@, done),
            j <= adj.len(),
            forall|x: int|
                0 <= x < n && registry.enabled_view()[x] && !done2.contains(x) ==> #[trigger] in_degree@[x]
                    + occurrences(adj.take(j as int), x as usize) == pending(out_edges(*registry, x), done),
            queue_matches(*registry, queue@, in_degree@, done2),
        decreases adj.len() - j,
    {
        let nb = adjacency[current][j];
        proof {
            let x = nb as int;
            assert(adj[j as int] == nb);
            assert(nb < n);
            assert(adj.contains(nb));
            lemma_occurrences_contains(adj, nb);
            assert(occurrences(adjacency@[c]@, nb) > 0);
            assert(registry.enabled_view()[x]);
            lemma_occurrences_contains(out_edges(*registry, x), c);
            lemma_depends_out_edges(*registry, x, c);
            assert(depends(*registry, x, c));
            if done.contains(x) {
                let i = choose|i: int| 0 <= i < done.len() && done[i] == x;
                lemma_dependency_before(*registry, done, i, c);
            }
            if x == c {
                assert(deps_placed(*registry, done, c));
            }
            assert(!done2.contains(x)) by {
                if done2.contains(x) {
                    let i = choose|i: int| 0 <= i < done2.len() && done2[i] == x;
                    if i < done.len() {
                        assert(done[i] == x);
                    }
                }
            }
            lemma_pending_push(out_edges(*registry, x), done, c);
            lemma_occurrences_take(adj, j as int, nb);
            lemma_occurrences_prefix(adj, j + 1, nb);
        }
        let ghost deg0 = in_degree@;
        let ghost q0 = queue@;
        proof {
            assert(deg0[nb as int] + occurrences(adj.take(j as int), nb) == pending(
                out_edges(*registry, nb as int),
                done,
            ));
            assert(!q0.contains(nb));
        }
        let d = in_degree[nb] - 1;
        in_degree.set(nb, d);
        if d == 0 {
            insert_sorted(queue, nb);
        }
        proof {
            assert forall|x: int|
                0 <= x < n && registry.enabled_view()[x] && !done2.contains(x) implies #[trigger] in_degree@[x]
                + occurrences(adj.take(j + 1), x as usize) == pending(out_edges(*registry, x), done) by {
                lemma_occurrences_take(adj, j as int, x as usize);
                assert(deg0[x] + occurrences(adj.take(j as int), x as usize) == pending(
                    out_edges(*registry, x),
                    done,
                ));
                assert(in_degree@ == deg0.update(nb as int, d));
                if x != nb as int {
                    assert(in_degree@[x] == deg0[x]);
                    assert((x as usize) as int == x);
                    assert(adj[j as int] != x as usize);
                } else {
                    assert(adj[j as int] == x as usize);
                    assert(in_degree@[x] == deg0[x] - 1);
                }
            }
            assert forall|x: usize|
                #![trigger queue@.contains(x)]
                #![trigger in_degree@[x as int]]
                queue@.contains(x) <==> (x < n && registry.enabled_view()[x as int]
                    && !done2.contains(x as int) && in_degree@[x as int] == 0) by {
                assert(q0.contains(x) <==> (x < n && registry.enabled_view()[x as int]
                    && !done2.contains(x as int) && deg0[x as int] == 0));
                if x != nb {
                    assert(queue@.contains(x) <==> q0.contains(x));
                    if x < n {
                        assert(in_degree@[x as int] == deg0[x as int]);
                    }
                }
            }
        }
        j = j + 1;
    }
    proof {
        assert(adj.take(j as int) =~= adj);
        assert forall|x: int|
            0 <= x < n && registry.enabled_view()[x] && !done2.contains(x) implies #[trigger] in_degree@[x]
            == pending(out_edges(*registry, x), done2) by {
            lemma_pending_push(out_edges(*registry, x), done, c);
            assert(occurrences(adjacency@[c]@, x as usize) == occurrences(out_edges(*registry, x), c));
        }
    }
}

proof fn lemma_count_none(s: Seq<bool>)
    requires
        forall|i: int| 0 <= i < s.len() ==> !s[i],
    ensures
        count_flag(s, true) == 0,
    decreases s.len(),
{
    if s.len() > 0 {
        lemma_count_none(s.drop_last());
    }
}

proof fn lemma_pending_is_len(s: Seq<int>)
    ensures
        pending(s, Seq::empty()) == s.len(),
    decreases s.len(),
{
    if s.len() > 0 {
        lemma_pending_is_len(s.drop_last());
    }
}

/// Orders the enabled mods so that each loads after every enabled mod it
/// depends on, required or optional (Kahn's algorithm: the queue of mods whose
/// dependencies have all been placed is kept sorted, and the lowest is placed
/// next). When the dependencies form a cycle, some enabled mods can never be
/// placed, and the result is a single circular-dependency error with an empty
/// cycle.
pub fn topological_sort(registry: &ModRegistry) -> (r: Result<
    Vec<DefHandle<ModInfo>>,
    Vec<ModValidationError>,
>)
    requires
        registry.wf(),
        dependency_counts_fit(*registry),
    ensures
        r is Ok <==> acyclic(*registry),
        r matches Ok(order) ==> {
            &&& is_load_order(*registry, handle_positions(order@))
            &&& forall|x: int|
                0 <= x < registry.size() && registry.enabled_view()[x] ==> handle_positions(
                    order@,
                ).contains(x)
            &&& forall|i: int, y: int|
                0 <= i < order@.len() && #[trigger] depends(
                    *registry,
                    handle_positions(order@)[i],
                    y,
                ) ==> exists|j: int| 0 <= j < i && handle_positions(order@)[j] == y
        },
        r matches Err(errors) ==> {
            &&& errors@.len() == 1
            &&& errors@[0] matches ModValidationError::CircularDependency { cycle } && cycle@.len()
                == 0
        },
{
    proof {
        registry.lemma_wf();
    }
    let n = registry.len();
    let (mut in_degree, adjacency) = build_graph(registry);
    let mut queue: Vec<usize> = Vec::new();
    let mut i: usize = 0;
    while i < n
        invariant
            registry.wf(),
            n == registry.size(),
            registry.size() <= u32::MAX,
            i <= n,
            in_degree@.len() == n,
            strictly_sorted(queue@),
            forall|x: usize|
                queue@.contains(x) <==> (x < i && registry.enabled_view()[x as int]
                    && in_degree@[x as int] == 0),
        decreases n - i,
    {
        let handle = DefHandle::<ModInfo>::from_index(i);
        let ghost q0 = queue@;
        if registry.is_enabled(handle) && in_degree[i] == 0 {
            queue.push(i);
            proof {
                assert(handle@ == i + 1);
                assert forall|a: int, b: int| 0 <= a < b < queue@.len() implies queue@[a]
                    < queue@[b] by {
                    if b == q0.len() {
                        assert(q0.contains(q0[a]));
                    }
                }
                assert forall|x: usize|
                    queue@.contains(x) <==> (x < i + 1 && registry.enabled_view()[x as int]
                        && in_degree@[x as int] == 0) by {
                    if queue@.contains(x) && x != i {
                        let j = choose|j: int| 0 <= j < queue@.len() && queue@[j] == x;
                        assert(q0[j] == x);
                    }
                    if q0.contains(x) {
                        let j = choose|j: int| 0 <= j < q0.len() && q0[j] == x;
                        assert(queue@[j] == x);
                    }
                    if x == i {
                        assert(queue@[q0.len() as int] == x);
                    }
                }
            }
        } else {
            proof {
                assert(handle@ == i + 1);
            }
        }
        i = i + 1;
    }
    let mut result: Vec<usize> = Vec::new();
    let ghost mut done: Seq<int> = Seq::empty();
    let ghost mut placed: Seq<bool> = Seq::new(n as nat, |x: int| false);
    proof {
        lemma_count_none(placed);
        assert forall|x: int|
            0 <= x < n && registry.enabled_view()[x] && !done.contains(x) implies #[trigger] in_degree@[x]
            == pending(out_edges(*registry, x), done) by {
            lemma_pending_is_len(out_edges(*registry, x));
        }
        assert(queue_matches(*registry, queue@, in_degree@, done));
    }
    while queue.len() > 0
        invariant
            registry.wf(),
            ids_distinct(registry.ids_view()),
            n == registry.size(),
            registry.size() <= u32::MAX,
            sort_state(*registry, adjacency@, in_degree@, queue@, done),
            queue_matches(*registry, queue@, in_degree@, done),
            forall|x: int|
                0 <= x < n && registry.enabled_view()[x] && !done.contains(x) ==> #[trigger] in_degree@[x]
                    == pending(out_edges(*registry, x), done),
            result@.len() == done.len(),
            forall|k: int| 0 <= k < done.len() ==> #[trigger] done[k] == result@[k] as int,
            placed.len() == n,
            forall|x: int| 0 <= x < n ==> (#[trigger] placed[x] <==> done.contains(x)),
            forall|x: int| 0 <= x < n && placed[x] ==> registry.enabled_view()[x],
            forall|x: int| done.contains(x) ==> 0 <= x < n,
            count_flag(placed, true) == done.len(),
        decreases n - result@.len(),
    {
        proof {
            lemma_count_le(placed, true);
        }
        let ghost q0 = queue@;
        let current = queue.remove(0);
        let ghost c = current as int;
        proof {
            assert(q0[0] == current);
            assert(q0.contains(current));
            lemma_pending_zero(out_edges(*registry, c), done);
            assert forall|y: int| #[trigger] depends(*registry, c, y) implies done.contains(y) by {
                lemma_depends_out_edges(*registry, c, y);
            }
            assert(ready(*registry, done, c));
            assert forall|x: int| ready(*registry, done, x) implies c <= x by {
                assert forall|y: int| out_edges(*registry, x).contains(y) implies done.contains(y) by {
                    lemma_depends_out_edges(*registry, x, y);
                }
                lemma_pending_zero(out_edges(*registry, x), done);
                assert((x as usize) as int == x);
                assert(q0.contains(x as usize));
                let j = choose|j: int| 0 <= j < q0.len() && q0[j] == x as usize;
                if j > 0 {
                    assert(q0[0] < q0[j]);
                }
            }
            assert forall|a: int, b: int| 0 <= a < b < queue@.len() implies queue@[a] < queue@[b] by {
                assert(queue@[a] == q0[a + 1] && queue@[b] == q0[b + 1]);
            }
            assert(queue_matches(*registry, queue@, in_degree@, done.push(c))) by {
                assert forall|x: usize|
                    #![trigger queue@.contains(x)]
                    #![trigger in_degree@[x as int]]
                    queue@.contains(x) <==> (x < registry.size() && registry.enabled_view()[x as int]
                        && !done.push(c).contains(x as int) && in_degree@[x as int] == 0) by {
                    assert(q0.contains(x) <==> (x < registry.size() && registry.enabled_view()[x as int]
                        && !done.contains(x as int) && in_degree@[x as int] == 0));
                    if queue@.contains(x) {
                        let j = choose|j: int| 0 <= j < queue@.len() && queue@[j] == x;
                        assert(q0[j + 1] == x);
                        assert(q0[0] < q0[j + 1]);
                        if done.push(c).contains(x as int) {
                            let k = choose|k: int| 0 <= k < done.push(c).len() && done.push(c)[k] == x as int;
                            if k < done.len() {
                                assert(done[k] == x as int);
                            }
                        }
                    }
                    if q0.contains(x) && x != current {
                        let j = choose|j: int| 0 <= j < q0.len() && q0[j] == x;
                        assert(j != 0);
                        assert(queue@[j - 1] == x);
                    }
                    if done.contains(x as int) {
                        let k = choose|k: int| 0 <= k < done.len() && done[k] == x as int;
                        assert(done.push(c)[k] == x as int);
                    }
                    if x == current {
                        assert(done.push(c)[done.len() as int] == c);
                    }
                }
            }
            assert forall|x: int|
                0 <= x < registry.size() && registry.enabled_view()[x] && !done.push(c).contains(
                    x,
                ) implies #[trigger] in_degree@[x] == pending(out_edges(*registry, x), done) by {
                if done.contains(x) {
                    let k = choose|k: int| 0 <= k < done.len() && done[k] == x;
                    assert(done.push(c)[k] == x);
                }
            }
        }
        release_dependents(
            registry,
            &adjacency,
            current,
            &mut in_degree,
            &mut queue,
            Ghost(done),
        );
        result.push(current);
        proof {
            let done0 = done;
            let placed0 = placed;
            done = done.push(c);
            placed = placed.update(c, true);
            assert(!placed0[c]);
            lemma_count_set(placed0, c);
            assert forall|x: int| 0 <= x < n implies (#[trigger] placed[x] <==> done.contains(x)) by {
                if done.contains(x) && x != c {
                    let k = choose|k: int| 0 <= k < done.len() && done[k] == x;
                    assert(done0[k] == x);
                }
                if done0.contains(x) {
                    let k = choose|k: int| 0 <= k < done0.len() && done0[k] == x;
                    assert(done[k] == x);
                }
                if x == c {
                    assert(done[done0.len() as int] == c);
                }
            }
            assert forall|x: int| done.contains(x) implies 0 <= x < n by {
                let k = choose|k: int| 0 <= k < done.len() && done[k] == x;
                if k < done0.len() {
                    assert(done0[k] == x);
                }
            }
            assert forall|k: int| 0 <= k < done.len() implies #[trigger] done[k] == result@[k] as int by {
                if k < done0.len() {
                    assert(done0[k] == result@[k] as int);
                }
            }
            assert forall|i: int| #![trigger done[i]] 0 <= i < done.len() implies {
                &&& ready(*registry, done.take(i), done[i])
                &&& forall|x: int| ready(*registry, done.take(i), x) ==> done[i] <= x
            } by {
                if i < done0.len() {
                    assert(done.take(i) =~= done0.take(i));
                    assert(done[i] == done0[i]);
                } else {
                    assert(done.take(i) =~= done0);
                }
            }
            lemma_count_le(placed, true);
        }
    }
    proof {
        assert forall|x: int| !ready(*registry, done, x) by {
            if ready(*registry, done, x) {
                assert forall|y: int| out_edges(*registry, x).contains(y) implies done.contains(y) by {
                    lemma_depends_out_edges(*registry, x, y);
                }
                lemma_pending_zero(out_edges(*registry, x), done);
                assert((x as usize) as int == x);
                assert(queue@.contains(x as usize));
            }
        }
        lemma_count_equal(placed, registry.enabled_view());
    }
    if result.len() != registry.len_enabled() {
        proof {
            if !exists|x: int| 0 <= x < n && registry.enabled_view()[x] && !placed[x] {
                assert(placed =~= registry.enabled_view());
            }
            let x = choose|x: int| 0 <= x < n && registry.enabled_view()[x] && !placed[x];
            lemma_stuck_cycle(*registry, done, x);
        }
        let mut errors: Vec<ModValidationError> = Vec::new();
        errors.push(ModValidationError::CircularDependency { cycle: Vec::new() });
        return Err(errors);
    }
    proof {
        assert forall|x: int| 0 <= x < n && registry.enabled_view()[x] implies done.contains(x) by {
            assert(placed[x]);
        }
        lemma_complete_acyclic(*registry, done);
    }
    let mut order: Vec<DefHandle<ModInfo>> = Vec::new();
    let mut k: usize = 0;
    while k < result.len()
        invariant
            k <= result@.len(),
            result@.len() == done.len(),
            forall|j: int| 0 <= j < done.len() ==> #[trigger] done[j] == result@[j] as int,
            forall|x: int| done.contains(x) ==> 0 <= x < n,
            n <= u32::MAX,
            order@.len() == k,
            forall|j: int| 0 <= j < k ==> (#[trigger] order@[j])@ - 1 == done[j],
        decreases result@.len() - k,
    {
        proof {
            assert(done.contains(done[k as int]));
        }
        order.push(DefHandle::from_index(result[k]));
        k = k + 1;
    }
    proof {
        assert(handle_positions(order@) =~= done);
        assert forall|i: int, y: int|
            0 <= i < order@.len() && #[trigger] depends(*registry, handle_positions(order@)[i], y)
            implies exists|j: int| 0 <= j < i && handle_positions(order@)[j] == y by {
            lemma_dependency_before(*registry, done, i, y);
            let j = index_in(done, y);
            assert(done[j] == y);
        }
    }
    Ok(order)
}

} // verus!
