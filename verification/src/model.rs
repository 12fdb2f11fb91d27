//! The data model: distributions, declared requirements, and the marker
//! context, together with the requirement evaluator.
//!
//! Package names are represented by `u64` keys. The caller assigns one key
//! per normalized package name; when the keys are assigned in lexicographic
//! order of the normalized names, the index's sorted output mirrors the
//! name-sorted output expected by a presentation layer. A marker predicate
//! is likewise represented by an opaque `u64` token; the marker context
//! records the tokens whose predicates evaluate to true in the current
//! environment.

use vstd::prelude::*;

verus! {

/// One declared requirement: the key of the package it references, plus an
/// optional marker token. A requirement with no marker is always active; one
/// with a marker is active exactly when its token evaluates to true under
/// the marker context.
pub struct Requirement {
    pub name: u64,
    pub marker: Option<u64>,
}

/// The resolved environment's marker context: the set of marker tokens that
/// evaluate to true. Fixed for the duration of one index build.
pub struct MarkerContext {
    pub true_markers: Vec<u64>,
}

/// The outcome of reading one distribution's metadata: either the raw list
/// of declared requirements, or an unreadable/malformed-metadata outcome.
pub enum Metadata {
    Unavailable,
    Parsed(Vec<Requirement>),
}

/// One installed distribution: its package-name key and the outcome of
/// reading its declared requirements. Distributions are immutable snapshots
/// of on-disk state at index-build time.
pub struct Distribution {
    pub name: u64,
    pub metadata: Metadata,
}

impl Distribution {
    /// Whether this distribution's metadata could be read.
    pub open spec fn inspected(self) -> bool {
        self.metadata is Parsed
    }

    /// The raw declared requirements (empty when the metadata is unreadable).
    pub open spec fn declared(self) -> Seq<Requirement> {
        match self.metadata {
            Metadata::Parsed(reqs) => reqs@,
            Metadata::Unavailable => Seq::empty(),
        }
    }
}

/// Whether a requirement is active under a marker context.
pub open spec fn req_active(req: Requirement, ctx: Seq<u64>) -> bool {
    match req.marker {
        None => true,
        Some(m) => ctx.contains(m),
    }
}

/// Whether some requirement in `reqs` is active under `ctx` and references
/// the package `n`.
pub open spec fn has_active_req(reqs: Seq<Requirement>, ctx: Seq<u64>, n: u64) -> bool {
    exists|i: int| 0 <= i < reqs.len() && req_active(#[trigger] reqs[i], ctx) && reqs[i].name == n
}

/// Whether some requirement in `reqs` is active under `ctx`.
pub open spec fn has_some_active(reqs: Seq<Requirement>, ctx: Seq<u64>) -> bool {
    exists|i: int| 0 <= i < reqs.len() && req_active(#[trigger] reqs[i], ctx)
}

/// Strictly increasing: sorted and free of duplicates.
pub open spec fn sorted_strict(s: Seq<u64>) -> bool {
    forall|i: int, j: int| 0 <= i < j < s.len() ==> s[i] < s[j]
}

/// `s` is the canonical result of evaluating `reqs` under `ctx`: a sorted,
/// deduplicated list holding exactly the names referenced by the active
/// requirements.
pub open spec fn is_active_name_list(s: Seq<u64>, reqs: Seq<Requirement>, ctx: Seq<u64>) -> bool {
    &&& sorted_strict(s)
    &&& forall|n: u64| #[trigger] s.contains(n) <==> has_active_req(reqs, ctx, n)
}

/// Linear membership scan.
pub fn vec_contains(v: &Vec<u64>, x: u64) -> (r: bool)
    ensures
        r == v@.contains(x),
{
    let mut i: usize = 0;
    while i < v.len()
        invariant
            i <= v@.len(),
            forall|j: int| 0 <= j < i ==> v@[j] != x,
        decreases v@.len() - i,
    {
        if v[i] == x {
            return true;
        }
        i += 1;
    }
    false
}

impl MarkerContext {
    /// Whether the marker token `m` evaluates to true in this context.
    pub fn evaluate(&self, m: u64) -> (r: bool)
        ensures
            r == self.true_markers@.contains(m),
    {
        vec_contains(&self.true_markers, m)
    }
}

/// Inserts `x` into a strictly sorted vector, keeping it strictly sorted;
/// a value already present is not duplicated.
pub fn insert_sorted(v: &mut Vec<u64>, x: u64)
    requires
        sorted_strict(old(v)@),
    ensures
        sorted_strict(final(v)@),
        forall|n: u64| #[trigger] final(v)@.contains(n) <==> (old(v)@.contains(n) || n == x),
{
    let ghost orig = v@;
    let mut k: usize = 0;
    while k < v.len() && v[k] < x
        invariant
            v@ == orig,
            sorted_strict(orig),
            k <= v@.len(),
            forall|j: int| 0 <= j < k ==> orig[j] < x,
        decreases v@.len() - k,
    {
        k += 1;
    }
    if k < v.len() && v[k] == x {
        proof {
            assert(orig.contains(x)) by {
                assert(orig[k as int] == x);
            }
            assert(forall|n: u64| #[trigger] v@.contains(n) <==> (orig.contains(n) || n == x));
        }
        return;
    }
    v.insert(k, x);
    proof {
        let s = v@;
        assert(s == orig.insert(k as int, x));
        assert forall|i: int, j: int| 0 <= i < j < s.len() implies s[i] < s[j] by {
            if j < k {
                assert(s[i] == orig[i] && s[j] == orig[j]);
            } else if i > k {
                assert(s[i] == orig[i - 1] && s[j] == orig[j - 1]);
            } else if i < k && j == k {
                assert(s[i] == orig[i] && s[j] == x);
            } else if i == k && j > k {
                assert(s[i] == x && s[j] == orig[j - 1]);
                assert(k < orig.len() ==> orig[k as int] > x);
                assert(orig[j - 1] >= orig[k as int] || j - 1 == k);
            } else if i < k && j > k {
                assert(s[i] == orig[i] && s[j] == orig[j - 1]);
                assert(orig[i] < x);
                assert(k < orig.len() ==> x < orig[k as int] && orig[k as int] <= orig[j - 1]);
            }
        }
        assert forall|n: u64| #[trigger] s.contains(n) implies (orig.contains(n) || n == x) by {
            let i = choose|i: int| 0 <= i < s.len() && s[i] == n;
            if i < k {
                assert(orig[i] == n);
            } else if i > k {
                assert(orig[i - 1] == n);
            }
        }
        assert forall|n: u64| (orig.contains(n) || n == x) implies #[trigger] s.contains(n) by {
            if orig.contains(n) {
                let i = choose|i: int| 0 <= i < orig.len() && orig[i] == n;
                if i < k {
                    assert(s[i] == n);
                } else {
                    assert(s[i + 1] == n);
                }
            } else {
                assert(s[k as int] == n);
            }
        }
    }
}

/// Whether `req` is active under the marker context.
pub fn requirement_active(req: &Requirement, context: &MarkerContext) -> (r: bool)
    ensures
        r == req_active(*req, context.true_markers@),
{
    match req.marker {
        None => true,
        Some(m) => context.evaluate(m),
    }
}

/// Extending the evaluated prefix by one requirement extends the set of
/// active names by that requirement's name, when it is active.
proof fn lemma_active_prefix_step(reqs: Seq<Requirement>, ctx: Seq<u64>, i: int, n: u64)
    requires
        0 <= i < reqs.len(),
    ensures
        has_active_req(reqs.take(i + 1), ctx, n) <==> (has_active_req(reqs.take(i), ctx, n) || (
        req_active(reqs[i], ctx) && reqs[i].name == n)),
{
    let pre = reqs.take(i);
    let ext = reqs.take(i + 1);
    assert(forall|j: int| 0 <= j < ext.len() ==> ext[j] == reqs[j]);
    if has_active_req(ext, ctx, n) {
        let j = choose|j: int| 0 <= j < ext.len() && req_active(#[trigger] ext[j], ctx)
            && ext[j].name == n;
        if j < i {
            assert(pre[j] == reqs[j]);
            assert(req_active(pre[j], ctx) && pre[j].name == n);
        }
    }
    if has_active_req(pre, ctx, n) {
        let j = choose|j: int| 0 <= j < pre.len() && req_active(#[trigger] pre[j], ctx)
            && pre[j].name == n;
        assert(req_active(ext[j], ctx) && ext[j].name == n);
    }
    if req_active(reqs[i], ctx) && reqs[i].name == n {
        assert(req_active(ext[i], ctx) && ext[i].name == n);
    }
}

/// The requirement evaluator: retains the requirements active under the
/// marker context, projects each to the package name it references, and
/// returns the names sorted and deduplicated.
pub fn active_dependency_names(reqs: &Vec<Requirement>, context: &MarkerContext) -> (names: Vec<
    u64,
>)
    ensures
        is_active_name_list(names@, reqs@, context.true_markers@),
{
    let ghost ctx = context.true_markers@;
    let mut names: Vec<u64> = Vec::new();
    let mut i: usize = 0;
    while i < reqs.len()
        invariant
            i <= reqs@.len(),
            sorted_strict(names@),
            forall|n: u64| #[trigger] names@.contains(n) <==> has_active_req(
                reqs@.take(i as int),
                ctx,
                n,
            ),
            ctx == context.true_markers@,
        decreases reqs@.len() - i,
    {
        let req = &reqs[i];
        if requirement_active(req, context) {
            insert_sorted(&mut names, req.name);
        }
        proof {
            assert forall|n: u64| #[trigger] names@.contains(n) <==> has_active_req(
                reqs@.take(i + 1),
                ctx,
                n,
            ) by {
                lemma_active_prefix_step(reqs@, ctx, i as int, n);
            }
        }
        i += 1;
    }
    proof {
        assert(reqs@.take(reqs@.len() as int) == reqs@);
    }
    names
}

/// Two strictly sorted sequences with the same members are equal.
pub proof fn lemma_sorted_strict_same_members_equal(a: Seq<u64>, b: Seq<u64>)
    requires
        sorted_strict(a),
        sorted_strict(b),
        forall|n: u64|
            #![trigger a.contains(n)]
            #![trigger b.contains(n)]
            a.contains(n) <==> b.contains(n),
    ensures
        a == b,
    decreases a.len(),
{
    if a.len() == 0 {
        if b.len() > 0 {
            assert(b.contains(b[0]));
        }
        assert(a =~= b);
    } else {
        assert(a.contains(a.last())) by {
            assert(a[a.len() - 1] == a.last());
        }
        if b.len() == 0 {
            assert(false);
        }
        assert(b.contains(b.last())) by {
            assert(b[b.len() - 1] == b.last());
        }
        // The last element of each is its maximum, and both sequences hold
        // the same members, so the last elements agree.
        let ja = choose|j: int| 0 <= j < b.len() && b[j] == a.last();
        assert(a.last() <= b.last());
        let jb = choose|j: int| 0 <= j < a.len() && a[j] == b.last();
        assert(b.last() <= a.last());
        // Membership in the strictly sorted remainder is membership in a
        // value below the maximum.
        assert forall|n: u64| #[trigger] a.drop_last().contains(n) <==> (a.contains(n) && n
            < a.last()) by {
            lemma_drop_last_members(a, n);
        }
        assert forall|n: u64| #[trigger] b.drop_last().contains(n) <==> (b.contains(n) && n
            < b.last()) by {
            lemma_drop_last_members(b, n);
        }
        lemma_sorted_strict_same_members_equal(a.drop_last(), b.drop_last());
        assert(a =~= b) by {
            assert(a.drop_last() =~= b.drop_last());
            assert(forall|i: int| 0 <= i < a.len() - 1 ==> a[i] == a.drop_last()[i]);
            assert(forall|i: int| 0 <= i < b.len() - 1 ==> b[i] == b.drop_last()[i]);
        }
    }
}

/// In a strictly sorted sequence, the members of `drop_last` are exactly the
/// members below the last element.
proof fn lemma_drop_last_members(s: Seq<u64>, n: u64)
    requires
        sorted_strict(s),
        s.len() > 0,
    ensures
        s.drop_last().contains(n) <==> (s.contains(n) && n < s.last()),
{
    if s.drop_last().contains(n) {
        let i = choose|i: int| 0 <= i < s.drop_last().len() && s.drop_last()[i] == n;
        assert(s[i] == n);
        assert(s[i] < s[s.len() - 1]);
    }
    if s.contains(n) && n < s.last() {
        let i = choose|i: int| 0 <= i < s.len() && s[i] == n;
        assert(i != s.len() - 1);
        assert(s.drop_last()[i] == n);
    }
}

} // verus!
