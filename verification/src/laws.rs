//! The guarantees the index gives its callers, stated and proved once and
//! for all over the builder's contract.

use vstd::prelude::*;
use crate::model::{
    Distribution, has_active_req, has_some_active, req_active,
    lemma_sorted_strict_same_members_equal,
};
use crate::index::{
    DependencyIndex, is_index_of, scan_names, some_target_inspected, target_names, unique_names,
};

verus! {

/// How often `x` occurs in `s`.
pub open spec fn count_of(s: Seq<u64>, x: u64) -> nat
    decreases s.len(),
{
    if s.len() == 0 {
        0
    } else {
        count_of(s.drop_last(), x) + if s.last() == x {
            1nat
        } else {
            0nat
        }
    }
}

proof fn lemma_count_concat(a: Seq<u64>, b: Seq<u64>, x: u64)
    ensures
        count_of(a + b, x) == count_of(a, x) + count_of(b, x),
    decreases b.len(),
{
    if b.len() == 0 {
        assert(a + b =~= a);
    } else {
        assert((a + b).drop_last() =~= a + b.drop_last());
        assert((a + b).last() == b.last());
        lemma_count_concat(a, b.drop_last(), x);
    }
}

proof fn lemma_count_push(s: Seq<u64>, y: u64, x: u64)
    ensures
        count_of(s.push(y), x) == count_of(s, x) + if y == x {
            1nat
        } else {
            0nat
        },
{
    assert(s.push(y).drop_last() =~= s);
    assert(s.push(y).last() == y);
}

/// With unique target names, each name the forward pass reads occurs in its
/// read record exactly once if it names a target, else not at all.
proof fn lemma_target_names_count(ts: Seq<Distribution>, x: u64)
    requires
        unique_names(ts),
    ensures
        count_of(target_names(ts), x) == if exists|i: int|
            0 <= i < ts.len() && (#[trigger] ts[i]).name == x {
            1nat
        } else {
            0nat
        },
    decreases ts.len(),
{
    if ts.len() > 0 {
        let pre = ts.drop_last();
        assert(forall|i: int| 0 <= i < pre.len() ==> pre[i] == (#[trigger] ts[i]));
        lemma_target_names_count(pre, x);
        lemma_count_push(target_names(pre), ts.last().name, x);
        if ts.last().name == x {
            if exists|i: int| 0 <= i < pre.len() && (#[trigger] pre[i]).name == x {
                let i = choose|i: int| 0 <= i < pre.len() && (#[trigger] pre[i]).name == x;
                assert(ts[i].name == ts[ts.len() - 1].name);
                assert(false);
            }
            assert((ts[ts.len() - 1]).name == x);
        } else {
            if exists|i: int| 0 <= i < ts.len() && (#[trigger] ts[i]).name == x {
                let i = choose|i: int| 0 <= i < ts.len() && (#[trigger] ts[i]).name == x;
                assert(pre[i].name == x);
            }
            if exists|i: int| 0 <= i < pre.len() && (#[trigger] pre[i]).name == x {
                let i = choose|i: int| 0 <= i < pre.len() && (#[trigger] pre[i]).name == x;
                assert((ts[i]).name == x);
            }
        }
    }
}

/// The catalog scan never reads a name the forward pass recorded.
proof fn lemma_scan_names_skips(cat: Seq<Distribution>, fwd: Map<u64, Seq<u64>>, x: u64)
    requires
        fwd.contains_key(x),
    ensures
        count_of(scan_names(cat, fwd), x) == 0,
    decreases cat.len(),
{
    if cat.len() > 0 {
        lemma_scan_names_skips(cat.drop_last(), fwd, x);
        if !fwd.contains_key(cat.last().name) {
            lemma_count_push(scan_names(cat.drop_last(), fwd), cat.last().name, x);
        }
    }
}

/// The catalog scan reads every catalog entry the forward pass did not
/// record.
proof fn lemma_scan_names_covers(cat: Seq<Distribution>, fwd: Map<u64, Seq<u64>>, j: int)
    requires
        0 <= j < cat.len(),
        !fwd.contains_key(cat[j].name),
    ensures
        count_of(scan_names(cat, fwd), cat[j].name) >= 1,
    decreases cat.len(),
{
    let x = cat[j].name;
    if j == cat.len() - 1 {
        assert(cat.last() == cat[j]);
        lemma_count_push(scan_names(cat.drop_last(), fwd), cat.last().name, x);
    } else {
        assert(cat.drop_last()[j] == cat[j]);
        lemma_scan_names_covers(cat.drop_last(), fwd, j);
        if !fwd.contains_key(cat.last().name) {
            lemma_count_push(scan_names(cat.drop_last(), fwd), cat.last().name, x);
        }
    }
}

/// A distribution successfully inspected while none of its requirements is
/// active — in particular one with no declared requirements at all — is
/// recorded with an empty dependency list, never as absent.
pub proof fn lemma_inspected_empty_recorded(
    index: DependencyIndex,
    targets: Seq<Distribution>,
    catalog: Seq<Distribution>,
    ctx: Seq<u64>,
    i: int,
)
    requires
        is_index_of(index, targets, catalog, ctx),
        0 <= i < targets.len(),
        targets[i].inspected(),
        !has_some_active(targets[i].declared(), ctx),
    ensures
        index.dep_entry(targets[i].name) == Some(Seq::<u64>::empty()),
{
    let list = index.fwd()[targets[i].name];
    if list.len() > 0 {
        assert(list.contains(list[0]));
        assert(has_active_req(targets[i].declared(), ctx, list[0]));
        let j = choose|j: int|
            0 <= j < targets[i].declared().len() && req_active(
                #[trigger] targets[i].declared()[j],
                ctx,
            ) && targets[i].declared()[j].name == list[0];
        assert(has_some_active(targets[i].declared(), ctx));
    }
    assert(list =~= Seq::<u64>::empty());
}

/// A distribution never inspected — queried with unreadable metadata, or
/// never queried nor scanned — has no entry: the forward query reports it
/// absent.
pub proof fn lemma_uninspected_absent(
    index: DependencyIndex,
    targets: Seq<Distribution>,
    catalog: Seq<Distribution>,
    ctx: Seq<u64>,
    n: u64,
)
    requires
        is_index_of(index, targets, catalog, ctx),
        forall|i: int|
            0 <= i < targets.len() ==> ((#[trigger] targets[i]).name != n || !targets[i].inspected()),
        forall|i: int|
            0 <= i < catalog.len() ==> ((#[trigger] catalog[i]).name != n || !catalog[i].inspected()),
    ensures
        index.dep_entry(n) is None,
{
    if index.fwd().contains_key(n) {
        let i = choose|i: int|
            0 <= i < targets.len() && (#[trigger] targets[i]).name == n && targets[i].inspected();
        assert(false);
    }
    if index.rev().contains_key(n) {
        if some_target_inspected(targets) {
            let i = choose|i: int|
                0 <= i < catalog.len() && (#[trigger] catalog[i]).name == n
                    && catalog[i].inspected() && has_some_active(catalog[i].declared(), ctx);
            assert(false);
        } else {
            assert(index.requirers@.len() == 0);
            assert(false);
        }
    }
}

/// When no query target's metadata could be read, nothing at all is
/// recorded — the catalog scan is skipped outright, and every name is
/// reported absent.
pub proof fn lemma_no_inspected_target_all_absent(
    index: DependencyIndex,
    targets: Seq<Distribution>,
    catalog: Seq<Distribution>,
    ctx: Seq<u64>,
    n: u64,
)
    requires
        is_index_of(index, targets, catalog, ctx),
        !some_target_inspected(targets),
    ensures
        index.dep_entry(n) is None,
{
    if index.fwd().contains_key(n) {
        let i = choose|i: int|
            0 <= i < targets.len() && (#[trigger] targets[i]).name == n && targets[i].inspected();
        assert(false);
    }
    assert(index.requirers@.len() == 0);
}

/// No distribution ever counts as requiring itself.
pub proof fn lemma_never_self_requirer(index: DependencyIndex, n: u64)
    ensures
        !index.is_requirer(n, n),
{
}

/// An inspected query target's recorded dependencies contain every package
/// an active requirement references.
pub proof fn lemma_requires_contains_active_dep(
    index: DependencyIndex,
    targets: Seq<Distribution>,
    catalog: Seq<Distribution>,
    ctx: Seq<u64>,
    i: int,
    b: u64,
)
    requires
        is_index_of(index, targets, catalog, ctx),
        0 <= i < targets.len(),
        targets[i].inspected(),
        has_active_req(targets[i].declared(), ctx, b),
    ensures
        index.dep_entry(targets[i].name) matches Some(deps) && deps.contains(b),
{
    assert(index.fwd()[targets[i].name].contains(b));
}

/// Bidirectional consistency: when at least one query target could be
/// inspected, an inspected catalog member with an active requirement on
/// another package is reported among that package's requirers, and that
/// package appears in the member's own recorded dependencies.
pub proof fn lemma_bidirectional_consistency(
    index: DependencyIndex,
    targets: Seq<Distribution>,
    catalog: Seq<Distribution>,
    ctx: Seq<u64>,
    i: int,
    b: u64,
)
    requires
        is_index_of(index, targets, catalog, ctx),
        unique_names(catalog),
        forall|j: int| 0 <= j < targets.len() ==> catalog.contains(#[trigger] targets[j]),
        some_target_inspected(targets),
        0 <= i < catalog.len(),
        catalog[i].inspected(),
        has_active_req(catalog[i].declared(), ctx, b),
        catalog[i].name != b,
    ensures
        index.is_requirer(catalog[i].name, b),
        index.dep_entry(catalog[i].name) matches Some(deps) && deps.contains(b),
{
    let a = catalog[i];
    if index.fwd().contains_key(a.name) {
        let j = choose|j: int|
            0 <= j < targets.len() && (#[trigger] targets[j]).name == a.name
                && targets[j].inspected();
        assert(catalog.contains(targets[j]));
        let m = choose|m: int| 0 <= m < catalog.len() && catalog[m] == targets[j];
        assert(m == i);
        assert(index.fwd()[a.name].contains(b));
    } else {
        assert(has_some_active(a.declared(), ctx)) by {
            let j = choose|j: int|
                0 <= j < a.declared().len() && req_active(#[trigger] a.declared()[j], ctx)
                    && a.declared()[j].name == b;
            assert(req_active(a.declared()[j], ctx));
        }
        assert(index.rev()[a.name].contains(b));
    }
}

/// Marker filtering: a package referenced only by requirements whose
/// markers evaluate false never appears among an inspected target's
/// recorded dependencies, nor does the target count as requiring it.
pub proof fn lemma_marker_filtering(
    index: DependencyIndex,
    targets: Seq<Distribution>,
    catalog: Seq<Distribution>,
    ctx: Seq<u64>,
    i: int,
    b: u64,
)
    requires
        is_index_of(index, targets, catalog, ctx),
        0 <= i < targets.len(),
        targets[i].inspected(),
        !has_active_req(targets[i].declared(), ctx, b),
    ensures
        index.dep_entry(targets[i].name) matches Some(deps) && !deps.contains(b),
        !index.is_requirer(targets[i].name, b),
{
    assert(!index.fwd()[targets[i].name].contains(b));
    if index.rev().contains_key(targets[i].name) {
        if some_target_inspected(targets) {
            assert(false);
        } else {
            assert(index.requirers@.len() == 0);
            assert(false);
        }
    }
}

/// Idempotence: two indexes built from the same query set, catalog
/// snapshot and marker context are identical — the same maps, the same
/// read record, and the same answers to every query.
pub proof fn lemma_build_deterministic(
    first: DependencyIndex,
    second: DependencyIndex,
    targets: Seq<Distribution>,
    catalog: Seq<Distribution>,
    ctx: Seq<u64>,
)
    requires
        unique_names(targets),
        unique_names(catalog),
        is_index_of(first, targets, catalog, ctx),
        is_index_of(second, targets, catalog, ctx),
    ensures
        first.fwd() == second.fwd(),
        first.rev() == second.rev(),
        first.parsed@ == second.parsed@,
        forall|n: u64| #[trigger] first.dep_entry(n) == second.dep_entry(n),
        forall|k: u64, n: u64| #[trigger] first.is_requirer(k, n) == second.is_requirer(k, n),
{
    assert forall|k: u64| #[trigger]
        first.fwd().contains_key(k) implies second.fwd().contains_key(k) && first.fwd()[k]
        == second.fwd()[k] by {
        let j = choose|j: int|
            0 <= j < targets.len() && (#[trigger] targets[j]).name == k && targets[j].inspected();
        lemma_sorted_strict_same_members_equal(first.fwd()[k], second.fwd()[k]);
    }
    assert forall|k: u64| #[trigger] second.fwd().contains_key(k) implies first.fwd().contains_key(
        k,
    ) by {
        let j = choose|j: int|
            0 <= j < targets.len() && (#[trigger] targets[j]).name == k && targets[j].inspected();
    }
    assert(first.fwd() =~= second.fwd());
    if some_target_inspected(targets) {
        assert forall|k: u64| #[trigger]
            first.rev().contains_key(k) implies second.rev().contains_key(k) && first.rev()[k]
            == second.rev()[k] by {
            let j = choose|j: int|
                0 <= j < catalog.len() && (#[trigger] catalog[j]).name == k
                    && catalog[j].inspected() && has_some_active(catalog[j].declared(), ctx);
            lemma_sorted_strict_same_members_equal(first.rev()[k], second.rev()[k]);
        }
        assert forall|k: u64| #[trigger]
            second.rev().contains_key(k) implies first.rev().contains_key(k) by {
            let j = choose|j: int|
                0 <= j < catalog.len() && (#[trigger] catalog[j]).name == k
                    && catalog[j].inspected() && has_some_active(catalog[j].declared(), ctx);
        }
        assert(first.rev() =~= second.rev());
    } else {
        assert(first.requirers@.len() == 0 && second.requirers@.len() == 0);
        assert(first.rev() =~= second.rev());
    }
}

/// The metadata of a successfully inspected query target is read exactly
/// once across both passes: the catalog scan skips it.
pub proof fn lemma_inspected_target_read_once(
    index: DependencyIndex,
    targets: Seq<Distribution>,
    catalog: Seq<Distribution>,
    ctx: Seq<u64>,
    i: int,
)
    requires
        is_index_of(index, targets, catalog, ctx),
        unique_names(targets),
        0 <= i < targets.len(),
        targets[i].inspected(),
    ensures
        count_of(index.parsed@, targets[i].name) == 1,
{
    let x = targets[i].name;
    assert(some_target_inspected(targets)) by {
        assert(0 <= i < targets.len() && (targets[i]).inspected());
    }
    lemma_count_concat(target_names(targets), scan_names(catalog, index.fwd()), x);
    lemma_target_names_count(targets, x);
    assert((targets[i]).name == x);
    lemma_scan_names_skips(catalog, index.fwd(), x);
}

/// The catalog scan visits the whole catalog: once any target could be
/// inspected, every catalog entry's metadata is read at least once across
/// both passes.
pub proof fn lemma_catalog_scanned(
    index: DependencyIndex,
    targets: Seq<Distribution>,
    catalog: Seq<Distribution>,
    ctx: Seq<u64>,
    j: int,
)
    requires
        is_index_of(index, targets, catalog, ctx),
        unique_names(targets),
        some_target_inspected(targets),
        0 <= j < catalog.len(),
    ensures
        count_of(index.parsed@, catalog[j].name) >= 1,
{
    let x = catalog[j].name;
    lemma_count_concat(target_names(targets), scan_names(catalog, index.fwd()), x);
    if index.fwd().contains_key(x) {
        let i = choose|i: int|
            0 <= i < targets.len() && (#[trigger] targets[i]).name == x && targets[i].inspected();
        lemma_target_names_count(targets, x);
    } else {
        lemma_scan_names_covers(catalog, index.fwd(), j);
    }
}

} // verus!
