//! The dependency index: a forward map from inspected query targets to
//! their active direct dependencies, an auxiliary map collected by a single
//! scan of the full catalog, and the query operations over both.
//!
//! Both maps are held as association vectors keyed by package name, with
//! unique keys as the well-formedness invariant; their mathematical model is
//! a `Map<u64, Seq<u64>>`.

use vstd::prelude::*;
use crate::model::{
    Distribution, MarkerContext, Metadata, active_dependency_names, vec_contains,
    has_active_req, has_some_active, insert_sorted, is_active_name_list, req_active,
    sorted_strict,
};

verus! {

/// No key occurs twice.
pub open spec fn unique_keys(s: Seq<(u64, Vec<u64>)>) -> bool {
    forall|i: int, j: int| 0 <= i < j < s.len() ==> (#[trigger] s[i]).0 != (#[trigger] s[j]).0
}

/// The mapping an association vector stands for; with unique keys the order
/// of the entries is immaterial.
pub open spec fn assoc_map(s: Seq<(u64, Vec<u64>)>) -> Map<u64, Seq<u64>>
    decreases s.len(),
{
    if s.len() == 0 {
        Map::empty()
    } else {
        assoc_map(s.drop_last()).insert(s.last().0, s.last().1@)
    }
}

/// The domain of `assoc_map(s)` is the set of keys occurring in `s`.
pub proof fn lemma_assoc_map_domain(s: Seq<(u64, Vec<u64>)>)
    ensures
        forall|k: u64| #[trigger]
            assoc_map(s).contains_key(k) <==> exists|i: int|
                0 <= i < s.len() && (#[trigger] s[i]).0 == k,
    decreases s.len(),
{
    if s.len() > 0 {
        lemma_assoc_map_domain(s.drop_last());
        assert forall|k: u64| #[trigger] assoc_map(s).contains_key(k) implies exists|i: int|
            0 <= i < s.len() && (#[trigger] s[i]).0 == k by {
            if k == s.last().0 {
                assert((s[s.len() - 1]).0 == k);
            } else {
                assert(assoc_map(s.drop_last()).contains_key(k));
                let i = choose|i: int|
                    0 <= i < s.drop_last().len() && (#[trigger] s.drop_last()[i]).0 == k;
                assert(s[i] == s.drop_last()[i]);
                assert(s[i].0 == k);
            }
        }
        assert forall|k: u64|
            exists|i: int| 0 <= i < s.len() && (#[trigger] s[i]).0 == k implies #[trigger]
            assoc_map(s).contains_key(k) by {
            let i = choose|i: int| 0 <= i < s.len() && (#[trigger] s[i]).0 == k;
            if i < s.len() - 1 {
                assert((s.drop_last()[i]).0 == k);
                assert(assoc_map(s.drop_last()).contains_key(k));
            }
        }
    }
}

/// With unique keys, each entry's value is the mapping's value at its key.
pub proof fn lemma_assoc_map_values(s: Seq<(u64, Vec<u64>)>)
    requires
        unique_keys(s),
    ensures
        forall|i: int| 0 <= i < s.len() ==> assoc_map(s)[(#[trigger] s[i]).0] == s[i].1@,
    decreases s.len(),
{
    if s.len() > 0 {
        assert(unique_keys(s.drop_last())) by {
            assert(forall|i: int|
                0 <= i < s.len() - 1 ==> s.drop_last()[i] == (#[trigger] s[i]));
        }
        lemma_assoc_map_values(s.drop_last());
        assert forall|i: int| 0 <= i < s.len() implies assoc_map(s)[(#[trigger] s[i]).0]
            == s[i].1@ by {
            if i < s.len() - 1 {
                assert(s[i].0 != s.last().0);
                assert(s.drop_last()[i] == s[i]);
                assert(assoc_map(s.drop_last())[s[i].0] == s[i].1@);
            }
        }
    }
}

/// A catalog or query slice in which no package name occurs twice.
pub open spec fn unique_names(ds: Seq<Distribution>) -> bool {
    forall|i: int, j: int|
        0 <= i < j < ds.len() ==> (#[trigger] ds[i]).name != (#[trigger] ds[j]).name
}

/// Whether the metadata of at least one query target could be read; only
/// then does the catalog scan run.
pub open spec fn some_target_inspected(ds: Seq<Distribution>) -> bool {
    exists|i: int| 0 <= i < ds.len() && (#[trigger] ds[i]).inspected()
}

/// The names whose metadata the forward pass reads: every target's, in
/// order.
pub open spec fn target_names(ds: Seq<Distribution>) -> Seq<u64>
    decreases ds.len(),
{
    if ds.len() == 0 {
        Seq::empty()
    } else {
        target_names(ds.drop_last()).push(ds.last().name)
    }
}

/// The names whose metadata the catalog scan reads: every catalog entry's,
/// in order, except those already keys of the forward map.
pub open spec fn scan_names(cat: Seq<Distribution>, fwd: Map<u64, Seq<u64>>) -> Seq<u64>
    decreases cat.len(),
{
    if cat.len() == 0 {
        Seq::empty()
    } else if fwd.contains_key(cat.last().name) {
        scan_names(cat.drop_last(), fwd)
    } else {
        scan_names(cat.drop_last(), fwd).push(cat.last().name)
    }
}

/// The consolidated index built for one query set.
pub struct DependencyIndex {
    /// Forward entries: one per query target whose metadata could be read,
    /// holding its active direct dependencies, sorted and deduplicated. An
    /// empty entry records "inspected, zero dependencies", distinct from no
    /// entry at all.
    pub forward: Vec<(u64, Vec<u64>)>,
    /// Entries collected by the catalog scan: one per scanned distribution
    /// whose metadata could be read and whose active dependency list is
    /// non-empty.
    pub requirers: Vec<(u64, Vec<u64>)>,
    /// The names whose metadata was read, one occurrence per read, in the
    /// order the reads happened.
    pub parsed: Vec<u64>,
}

impl DependencyIndex {
    pub open spec fn wf(self) -> bool {
        &&& unique_keys(self.forward@)
        &&& unique_keys(self.requirers@)
    }

    /// The forward relation as a mapping.
    pub open spec fn fwd(self) -> Map<u64, Seq<u64>> {
        assoc_map(self.forward@)
    }

    /// The auxiliary scan relation as a mapping.
    pub open spec fn rev(self) -> Map<u64, Seq<u64>> {
        assoc_map(self.requirers@)
    }

    /// What a forward query returns: the recorded dependency list, or
    /// nothing when no entry was recorded for the name — it was never
    /// queried or scanned, its metadata was unreadable, or the scan found
    /// it had no active dependencies and saved nothing.
    pub open spec fn dep_entry(self, n: u64) -> Option<Seq<u64>> {
        if self.fwd().contains_key(n) {
            Some(self.fwd()[n])
        } else if self.rev().contains_key(n) {
            Some(self.rev()[n])
        } else {
            None
        }
    }

    /// Whether the index records that distribution `k` requires `n`; a
    /// distribution never counts as requiring itself.
    pub open spec fn is_requirer(self, k: u64, n: u64) -> bool {
        &&& k != n
        &&& (self.fwd().contains_key(k) && self.fwd()[k].contains(n)) || (
        self.rev().contains_key(k) && self.rev()[k].contains(n))
    }
}

/// What `build_index` guarantees of its result: the complete
/// characterization of both maps and of the record of metadata reads, as a
/// function of the query targets, the catalog and the marker context.
pub open spec fn is_index_of(
    index: DependencyIndex,
    targets: Seq<Distribution>,
    catalog: Seq<Distribution>,
    ctx: Seq<u64>,
) -> bool {
    &&& index.wf()
    // Every inspected target has a forward entry holding exactly its
    // active dependency names.
    &&& forall|i: int|
        0 <= i < targets.len() && (#[trigger] targets[i]).inspected()
            ==> index.fwd().contains_key(targets[i].name) && is_active_name_list(
            index.fwd()[targets[i].name],
            targets[i].declared(),
            ctx,
        )
    // Only inspected targets have forward entries.
    &&& forall|k: u64| #[trigger]
        index.fwd().contains_key(k) ==> exists|i: int|
            0 <= i < targets.len() && (#[trigger] targets[i]).name == k
                && targets[i].inspected()
    &&& if some_target_inspected(targets) {
        // The scan records every catalog entry that is not already a
        // forward key, could be inspected, and has at least one active
        // requirement; it records nothing else.
        &&& forall|i: int|
            0 <= i < catalog.len() && !index.fwd().contains_key((#[trigger] catalog[i]).name)
                && catalog[i].inspected() && has_some_active(catalog[i].declared(), ctx)
                ==> index.rev().contains_key(catalog[i].name) && is_active_name_list(
                index.rev()[catalog[i].name],
                catalog[i].declared(),
                ctx,
            )
        &&& forall|k: u64| #[trigger]
            index.rev().contains_key(k) ==> !index.fwd().contains_key(k) && exists|i: int|
                0 <= i < catalog.len() && (#[trigger] catalog[i]).name == k
                    && catalog[i].inspected() && has_some_active(catalog[i].declared(), ctx)
        &&& index.parsed@ == target_names(targets) + scan_names(catalog, index.fwd())
    } else {
        // No target could be inspected: the scan is skipped outright.
        &&& index.requirers@.len() == 0
        &&& index.parsed@ == target_names(targets)
    }
}

/// Appending an entry inserts its binding into the mapping.
proof fn lemma_assoc_map_push(s: Seq<(u64, Vec<u64>)>, p: (u64, Vec<u64>))
    ensures
        assoc_map(s.push(p)) == assoc_map(s).insert(p.0, p.1@),
{
    assert(s.push(p).drop_last() =~= s);
    assert(s.push(p).last() == p);
}

/// Linear key lookup in an association vector.
#[verifier::loop_isolation(false)]
fn assoc_contains(s: &Vec<(u64, Vec<u64>)>, k: u64) -> (r: bool)
    ensures
        r == assoc_map(s@).contains_key(k),
{
    proof {
        lemma_assoc_map_domain(s@);
    }
    let mut i: usize = 0;
    while i < s.len()
        invariant
            i <= s@.len(),
            forall|j: int| 0 <= j < i ==> (#[trigger] s@[j]).0 != k,
        decreases s@.len() - i,
    {
        let p = &s[i];
        if p.0 == k {
            return true;
        }
        i += 1;
    }
    false
}

/// Some entry among the first `i` of `s` binds `k` to a list containing
/// `n`.
pub open spec fn entry_requires_upto(s: Seq<(u64, Vec<u64>)>, i: int, k: u64, n: u64) -> bool {
    exists|j: int| 0 <= j < i && (#[trigger] s[j]).0 == k && s[j].1@.contains(n)
}

/// Over a whole association vector with unique keys, `entry_requires_upto`
/// agrees with the mapping.
proof fn lemma_entry_requires_map(s: Seq<(u64, Vec<u64>)>, k: u64, n: u64)
    requires
        unique_keys(s),
    ensures
        entry_requires_upto(s, s.len() as int, k, n) <==> (assoc_map(s).contains_key(k)
            && assoc_map(s)[k].contains(n)),
{
    lemma_assoc_map_domain(s);
    lemma_assoc_map_values(s);
    if entry_requires_upto(s, s.len() as int, k, n) {
        let j = choose|j: int|
            0 <= j < s.len() && (#[trigger] s[j]).0 == k && s[j].1@.contains(n);
        assert(assoc_map(s).contains_key(k));
        assert(assoc_map(s)[(s[j]).0] == s[j].1@);
    }
    if assoc_map(s).contains_key(k) && assoc_map(s)[k].contains(n) {
        let j = choose|j: int| 0 <= j < s.len() && (#[trigger] s[j]).0 == k;
        assert(assoc_map(s)[(s[j]).0] == s[j].1@);
    }
}

impl DependencyIndex {
    /// The forward query: the recorded active direct dependencies of
    /// `name`, sorted and deduplicated, or `None` when no entry was
    /// recorded for `name`. For a query target, `Some` of an empty list
    /// means "inspected, zero dependencies", while `None` means "no
    /// metadata available" — callers can tell the two apart.
    #[verifier::loop_isolation(false)]
    pub fn requires_of(&self, name: u64) -> (r: Option<&Vec<u64>>)
        requires
            self.wf(),
        ensures
            match r {
                Some(v) => self.dep_entry(name) == Some(v@),
                None => self.dep_entry(name) is None,
            },
    {
        proof {
            lemma_assoc_map_domain(self.forward@);
            lemma_assoc_map_values(self.forward@);
            lemma_assoc_map_domain(self.requirers@);
            lemma_assoc_map_values(self.requirers@);
        }
        let mut i: usize = 0;
        while i < self.forward.len()
            invariant
                i <= self.forward@.len(),
                forall|j: int| 0 <= j < i ==> (#[trigger] self.forward@[j]).0 != name,
            decreases self.forward@.len() - i,
        {
            let p = &self.forward[i];
            if p.0 == name {
                return Some(&p.1);
            }
            i += 1;
        }
        let mut j: usize = 0;
        while j < self.requirers.len()
            invariant
                j <= self.requirers@.len(),
                forall|m: int| 0 <= m < j ==> (#[trigger] self.requirers@[m]).0 != name,
            decreases self.requirers@.len() - j,
        {
            let q = &self.requirers[j];
            if q.0 == name {
                return Some(&q.1);
            }
            j += 1;
        }
        None
    }

    /// The reverse query, computed on demand: the sorted, deduplicated
    /// names of all recorded distributions other than `name` whose active
    /// dependencies include `name`. The result never contains `name`
    /// itself.
    #[verifier::loop_isolation(false)]
    pub fn required_by(&self, name: u64) -> (r: Vec<u64>)
        requires
            self.wf(),
        ensures
            sorted_strict(r@),
            forall|k: u64| #[trigger] r@.contains(k) <==> self.is_requirer(k, name),
            !r@.contains(name),
    {
        let mut out: Vec<u64> = Vec::new();
        let mut i: usize = 0;
        while i < self.forward.len()
            invariant
                i <= self.forward@.len(),
                sorted_strict(out@),
                forall|k: u64| #[trigger]
                    out@.contains(k) <==> (k != name && entry_requires_upto(
                        self.forward@,
                        i as int,
                        k,
                        name,
                    )),
            decreases self.forward@.len() - i,
        {
            let p = &self.forward[i];
            let ghost pre = out@;
            if p.0 != name && vec_contains(&p.1, name) {
                insert_sorted(&mut out, p.0);
            }
            proof {
                assert forall|k: u64| #[trigger]
                    out@.contains(k) <==> (k != name && entry_requires_upto(
                        self.forward@,
                        i + 1,
                        k,
                        name,
                    )) by {
                    if out@.contains(k) && !pre.contains(k) {
                        assert((self.forward@[i as int]).0 == k);
                    }
                    if k != name && entry_requires_upto(self.forward@, i + 1, k, name) {
                        let j = choose|j: int|
                            0 <= j < i + 1 && (#[trigger] self.forward@[j]).0 == k
                                && self.forward@[j].1@.contains(name);
                        if j < i {
                            assert(entry_requires_upto(self.forward@, i as int, k, name));
                        }
                    }
                }
            }
            i += 1;
        }
        let mut j: usize = 0;
        while j < self.requirers.len()
            invariant
                j <= self.requirers@.len(),
                sorted_strict(out@),
                forall|k: u64| #[trigger]
                    out@.contains(k) <==> (k != name && (entry_requires_upto(
                        self.forward@,
                        self.forward@.len() as int,
                        k,
                        name,
                    ) || entry_requires_upto(self.requirers@, j as int, k, name))),
            decreases self.requirers@.len() - j,
        {
            let q = &self.requirers[j];
            let ghost pre = out@;
            if q.0 != name && vec_contains(&q.1, name) {
                insert_sorted(&mut out, q.0);
            }
            proof {
                assert forall|k: u64| #[trigger]
                    out@.contains(k) <==> (k != name && (entry_requires_upto(
                        self.forward@,
                        self.forward@.len() as int,
                        k,
                        name,
                    ) || entry_requires_upto(self.requirers@, j + 1, k, name))) by {
                    if out@.contains(k) && !pre.contains(k) {
                        assert((self.requirers@[j as int]).0 == k);
                    }
                    if k != name && entry_requires_upto(self.requirers@, j + 1, k, name) {
                        let m = choose|m: int|
                            0 <= m < j + 1 && (#[trigger] self.requirers@[m]).0 == k
                                && self.requirers@[m].1@.contains(name);
                        if m < j {
                            assert(entry_requires_upto(self.requirers@, j as int, k, name));
                        }
                    }
                }
            }
            j += 1;
        }
        proof {
            assert forall|k: u64| #[trigger] out@.contains(k) <==> self.is_requirer(k, name) by {
                lemma_entry_requires_map(self.forward@, k, name);
                lemma_entry_requires_map(self.requirers@, k, name);
            }
        }
        out
    }
}

/// The builder: one forward pass over the query targets, then — only when
/// some target's metadata could be read — a single scan of the full
/// catalog that skips the names the forward pass already recorded.
#[verifier::loop_isolation(false)]
pub fn build_index(
    targets: &Vec<Distribution>,
    catalog: &Vec<Distribution>,
    context: &MarkerContext,
) -> (index: DependencyIndex)
    requires
        unique_names(targets@),
        unique_names(catalog@),
    ensures
        is_index_of(index, targets@, catalog@, context.true_markers@),
{
    let ghost ctx = context.true_markers@;
    let mut forward: Vec<(u64, Vec<u64>)> = Vec::new();
    let mut requirers: Vec<(u64, Vec<u64>)> = Vec::new();
    let mut parsed: Vec<u64> = Vec::new();

    let mut i: usize = 0;
    while i < targets.len()
        invariant
            i <= targets@.len(),
            unique_keys(forward@),
            forall|j: int|
                0 <= j < i && (#[trigger] targets@[j]).inspected() ==> assoc_map(
                    forward@,
                ).contains_key(targets@[j].name) && is_active_name_list(
                    assoc_map(forward@)[targets@[j].name],
                    targets@[j].declared(),
                    ctx,
                ),
            forall|k: u64| #[trigger]
                assoc_map(forward@).contains_key(k) ==> exists|j: int|
                    0 <= j < i && (#[trigger] targets@[j]).name == k && targets@[j].inspected(),
            parsed@ == target_names(targets@.take(i as int)),
        decreases targets@.len() - i,
    {
        let t = &targets[i];
        parsed.push(t.name);
        match &t.metadata {
            Metadata::Unavailable => {},
            Metadata::Parsed(reqs) => {
                let names = active_dependency_names(reqs, context);
                let ghost pre = forward@;
                proof {
                    if assoc_map(pre).contains_key(t.name) {
                        let j = choose|j: int|
                            0 <= j < i && (#[trigger] targets@[j]).name == t.name
                                && targets@[j].inspected();
                        assert(false);
                    }
                    lemma_assoc_map_domain(pre);
                }
                forward.push((t.name, names));
                proof {
                    lemma_assoc_map_push(pre, (t.name, names));
                    assert forall|i2: int, j2: int|
                        0 <= i2 < j2 < forward@.len() implies (#[trigger] forward@[i2]).0 != (
                    #[trigger] forward@[j2]).0 by {
                        if j2 == forward@.len() - 1 {
                            assert(pre[i2] == forward@[i2]);
                            assert(assoc_map(pre).contains_key(pre[i2].0));
                        } else {
                            assert(pre[i2] == forward@[i2] && pre[j2] == forward@[j2]);
                        }
                    }
                }
            },
        }
        proof {
            assert(targets@.take(i + 1).drop_last() =~= targets@.take(i as int));
            assert(targets@.take(i + 1).last() == targets@[i as int]);
            assert(parsed@ == target_names(targets@.take(i + 1)));
        }
        i += 1;
    }
    proof {
        assert(targets@.take(targets@.len() as int) == targets@);
        // The forward pass produced an entry exactly when some target's
        // metadata could be read.
        if forward@.len() > 0 {
            assert(assoc_map(forward@).contains_key(forward@.last().0));
        }
        if some_target_inspected(targets@) {
            let j = choose|j: int| 0 <= j < targets@.len() && (#[trigger] targets@[j]).inspected();
            assert(assoc_map(forward@).contains_key(targets@[j].name));
            if forward@.len() == 0 {
                assert(false);
            }
        }
    }

    if forward.len() > 0 {
        let mut c: usize = 0;
        while c < catalog.len()
            invariant
                c <= catalog@.len(),
                unique_keys(requirers@),
                forall|j: int|
                    0 <= j < c && !assoc_map(forward@).contains_key(
                        (#[trigger] catalog@[j]).name,
                    ) && catalog@[j].inspected() && has_some_active(catalog@[j].declared(), ctx)
                        ==> assoc_map(requirers@).contains_key(catalog@[j].name)
                        && is_active_name_list(
                        assoc_map(requirers@)[catalog@[j].name],
                        catalog@[j].declared(),
                        ctx,
                    ),
                forall|k: u64| #[trigger]
                    assoc_map(requirers@).contains_key(k) ==> !assoc_map(forward@).contains_key(k)
                        && exists|j: int|
                        0 <= j < c && (#[trigger] catalog@[j]).name == k
                            && catalog@[j].inspected() && has_some_active(
                            catalog@[j].declared(),
                            ctx,
                        ),
                parsed@ == target_names(targets@) + scan_names(
                    catalog@.take(c as int),
                    assoc_map(forward@),
                ),
            decreases catalog@.len() - c,
        {
            let d = &catalog[c];
            let already = assoc_contains(&forward, d.name);
            if !already {
                parsed.push(d.name);
                match &d.metadata {
                    Metadata::Unavailable => {},
                    Metadata::Parsed(reqs) => {
                        let names = active_dependency_names(reqs, context);
                        if names.len() > 0 {
                            let ghost pre = requirers@;
                            proof {
                                assert(has_some_active(d.declared(), ctx)) by {
                                    assert(names@.contains(names@[0]));
                                    assert(has_active_req(d.declared(), ctx, names@[0]));
                                    let j = choose|j: int|
                                        0 <= j < d.declared().len() && req_active(
                                            #[trigger] d.declared()[j],
                                            ctx,
                                        ) && d.declared()[j].name == names@[0];
                                    assert(req_active(d.declared()[j], ctx));
                                }
                                if assoc_map(pre).contains_key(d.name) {
                                    let j = choose|j: int|
                                        0 <= j < c && (#[trigger] catalog@[j]).name == d.name
                                            && catalog@[j].inspected() && has_some_active(
                                            catalog@[j].declared(),
                                            ctx,
                                        );
                                    assert(false);
                                }
                                lemma_assoc_map_domain(pre);
                            }
                            requirers.push((d.name, names));
                            proof {
                                lemma_assoc_map_push(pre, (d.name, names));
                                assert forall|i2: int, j2: int|
                                    0 <= i2 < j2 < requirers@.len() implies (
                                #[trigger] requirers@[i2]).0 != (#[trigger] requirers@[j2]).0 by {
                                    if j2 == requirers@.len() - 1 {
                                        assert(pre[i2] == requirers@[i2]);
                                        assert(assoc_map(pre).contains_key(pre[i2].0));
                                    } else {
                                        assert(pre[i2] == requirers@[i2] && pre[j2]
                                            == requirers@[j2]);
                                    }
                                }
                            }
                        } else {
                            proof {
                                if has_some_active(d.declared(), ctx) {
                                    let j = choose|j: int|
                                        0 <= j < d.declared().len() && req_active(
                                            #[trigger] d.declared()[j],
                                            ctx,
                                        );
                                    assert(has_active_req(
                                        d.declared(),
                                        ctx,
                                        d.declared()[j].name,
                                    ));
                                    assert(names@.contains(d.declared()[j].name));
                                }
                            }
                        }
                    },
                }
            }
            proof {
                assert(catalog@.take(c + 1).drop_last() =~= catalog@.take(c as int));
                assert(catalog@.take(c + 1).last() == catalog@[c as int]);
                assert(parsed@ == target_names(targets@) + scan_names(
                    catalog@.take(c + 1),
                    assoc_map(forward@),
                ));
            }
            c += 1;
        }
        proof {
            assert(catalog@.take(catalog@.len() as int) == catalog@);
        }
    }

    DependencyIndex { forward, requirers, parsed }
}

} // verus!
