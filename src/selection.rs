//! Per-query narrowing of the catalog: from the hits of the semantic index,
//! the at most `k` most relevant tools that the catalog still holds.
use vstd::prelude::*;
use crate::catalog::ToolView;
use crate::manager::{McpManager, addressed};

verus! {

/// One result of a similarity query: the address the index stored the tool
/// under, and its relevance. Higher scores are more relevant.
#[derive(Debug, Clone, PartialEq, Eq)]
pub struct Hit {
    pub name: String,
    pub score: i64,
}

/// Hit `i` names a tool of the catalog, and no earlier hit names it.
pub open spec fn eligible(cat: Seq<ToolView>, hits: Seq<Hit>, i: int) -> bool {
    &&& 0 <= i < hits.len()
    &&& addressed(cat, hits[i].name@)
    &&& forall|j: int| 0 <= j < i ==> hits[j].name@ != hits[i].name@
}

/// Hit `i` comes before hit `j`: a higher score, or an equal score and an
/// earlier place among the hits.
pub open spec fn ranks_before(hits: Seq<Hit>, i: int, j: int) -> bool {
    hits[i].score > hits[j].score || (hits[i].score == hits[j].score && i < j)
}

/// `r` is the list of the (at most) `k` first eligible hits, in rank order.
pub open spec fn is_top_k(cat: Seq<ToolView>, hits: Seq<Hit>, k: nat, r: Seq<int>) -> bool {
    &&& r.len() <= k
    &&& forall|a: int| 0 <= a < r.len() ==> eligible(cat, hits, #[trigger] r[a])
    &&& forall|a: int, b: int| 0 <= a < b < r.len() ==> ranks_before(hits, r[a], r[b])
    &&& forall|i: int| #![trigger r.contains(i)]
        eligible(cat, hits, i) && !r.contains(i) ==> {
            &&& r.len() == k
            &&& forall|a: int| 0 <= a < r.len() ==> ranks_before(hits, #[trigger] r[a], i)
        }
}

/// `out` gives, for each chosen hit of `r`, the catalog position of its tool.
pub open spec fn positions_of(cat: Seq<ToolView>, hits: Seq<Hit>, r: Seq<int>, out: Seq<usize>) -> bool {
    &&& out.len() == r.len()
    &&& forall|a: int| 0 <= a < r.len() ==>
        (#[trigger] out[a]) < cat.len() && cat[out[a] as int].qualified == hits[r[a]].name@
}

/// What `select` returns for the hits `hits` and the bound `k`.
pub open spec fn is_selection(cat: Seq<ToolView>, hits: Seq<Hit>, k: nat, out: Seq<usize>) -> bool {
    exists|r: Seq<int>| is_top_k(cat, hits, k, r) && positions_of(cat, hits, r, out)
}

/// A selection holds at most `k` tools, each chosen for a hit on its
/// address, in order of non-increasing score, and is empty when the catalog
/// is.
pub proof fn lemma_selection_bounded(cat: Seq<ToolView>, hits: Seq<Hit>, k: nat, out: Seq<usize>)
    requires
        is_selection(cat, hits, k, out),
    ensures
        out.len() <= k,
        cat.len() == 0 ==> out.len() == 0,
        exists|r: Seq<int>| #![trigger positions_of(cat, hits, r, out)]
            positions_of(cat, hits, r, out)
            && forall|a: int, b: int| 0 <= a < b < r.len() ==> hits[r[a]].score >= hits[r[b]].score,
{
    let r = choose|r: Seq<int>| is_top_k(cat, hits, k, r) && positions_of(cat, hits, r, out);
    assert forall|a: int, b: int| 0 <= a < b < r.len() implies hits[r[a]].score >= hits[r[b]].score by {
        assert(ranks_before(hits, r[a], r[b]));
    }
    if cat.len() == 0 && r.len() > 0 {
        assert(eligible(cat, hits, r[0]));
    }
}

/// Rank lists that meet `is_top_k` for the same catalog, hits and bound are
/// equal.
proof fn lemma_top_k_unique(cat: Seq<ToolView>, hits: Seq<Hit>, k: nat, r1: Seq<int>, r2: Seq<int>)
    requires
        is_top_k(cat, hits, k, r1),
        is_top_k(cat, hits, k, r2),
    ensures
        r1 == r2,
{
    if r1 != r2 {
        let n = if r1.len() < r2.len() { r1.len() } else { r2.len() };
        if forall|a: int| 0 <= a < n ==> r1[a] == r2[a] {
            if r1.len() < r2.len() {
                lemma_not_contained(hits, r1, r2, r1.len() as int);
                assert(!r1.contains(r2[r1.len() as int]));
                assert(eligible(cat, hits, r2[r1.len() as int]));
            } else if r2.len() < r1.len() {
                lemma_not_contained(hits, r2, r1, r2.len() as int);
                assert(!r2.contains(r1[r2.len() as int]));
                assert(eligible(cat, hits, r1[r2.len() as int]));
            } else {
                assert(r1 =~= r2);
            }
        } else {
            lemma_agree_upto(cat, hits, k, r1, r2, n as int);
        }
    }
}

/// When `r` agrees with `s` below `a`, `s[a]` is not among the first `a`
/// entries of `s`, hence not in `r` if `r` has length `a`.
proof fn lemma_not_contained(hits: Seq<Hit>, r: Seq<int>, s: Seq<int>, a: int)
    requires
        0 <= a < s.len(),
        r.len() == a,
        forall|x: int| 0 <= x < a ==> r[x] == s[x],
        forall|x: int, y: int| 0 <= x < y < s.len() ==> ranks_before(hits, s[x], s[y]),
    ensures
        !r.contains(s[a]),
{
    if r.contains(s[a]) {
        let x = choose|x: int| 0 <= x < r.len() && r[x] == s[a];
        assert(ranks_before(hits, s[x], s[a]));
    }
}

/// The two rank lists agree on their first `d` entries.
proof fn lemma_agree_upto(cat: Seq<ToolView>, hits: Seq<Hit>, k: nat, r1: Seq<int>, r2: Seq<int>, d: int)
    requires
        is_top_k(cat, hits, k, r1),
        is_top_k(cat, hits, k, r2),
        0 <= d <= r1.len(),
        d <= r2.len(),
    ensures
        forall|a: int| 0 <= a < d ==> r1[a] == r2[a],
    decreases d,
{
    if d > 0 {
        lemma_agree_upto(cat, hits, k, r1, r2, d - 1);
        let e = d - 1;
        if r1[e] != r2[e] {
            // One of the two hits ranks before the other; neither can.
            lemma_not_before(cat, hits, k, r1, r2, e);
            lemma_not_before(cat, hits, k, r2, r1, e);
        }
    }
}

/// At the first difference `d`, `r1[d]` does not rank before `r2[d]`.
proof fn lemma_not_before(cat: Seq<ToolView>, hits: Seq<Hit>, k: nat, r1: Seq<int>, r2: Seq<int>, d: int)
    requires
        is_top_k(cat, hits, k, r1),
        is_top_k(cat, hits, k, r2),
        0 <= d < r1.len(),
        d < r2.len(),
        forall|a: int| 0 <= a < d ==> r1[a] == r2[a],
        r1[d] != r2[d],
    ensures
        !ranks_before(hits, r1[d], r2[d]),
{
    let x = r1[d];
    assert(eligible(cat, hits, x));
    if !ranks_before(hits, x, r2[d]) {
    } else if r2.contains(x) {
        let b = choose|b: int| 0 <= b < r2.len() && r2[b] == x;
        if b < d {
            assert(r1[b] == x);
            assert(ranks_before(hits, r1[b], r1[d]));
        } else {
            assert(b > d);
            assert(ranks_before(hits, r2[d], r2[b]));
        }
    } else {
        assert(ranks_before(hits, r2[d], x));
    }
}

/// Selecting twice over the same catalog, with the same hits and bound,
/// yields the same tools in the same order.
pub proof fn lemma_selection_deterministic<C>(
    m: McpManager<C>,
    hits: Seq<Hit>,
    k: nat,
    out1: Seq<usize>,
    out2: Seq<usize>,
)
    requires
        m.wf(),
        is_selection(m.catalog(), hits, k, out1),
        is_selection(m.catalog(), hits, k, out2),
    ensures
        out1 == out2,
{
    let cat = m.catalog();
    m.lemma_addresses_unique();
    let r1 = choose|r: Seq<int>| is_top_k(cat, hits, k, r) && positions_of(cat, hits, r, out1);
    let r2 = choose|r: Seq<int>| is_top_k(cat, hits, k, r) && positions_of(cat, hits, r, out2);
    lemma_top_k_unique(cat, hits, k, r1, r2);
    assert forall|a: int| 0 <= a < out1.len() implies out1[a] == out2[a] by {
        let p1 = out1[a] as int;
        let p2 = out2[a] as int;
        assert(cat[p1].qualified == cat[p2].qualified);
        if p1 < p2 {
            assert(cat[p1].qualified != cat[p2].qualified);
        } else if p2 < p1 {
            assert(cat[p2].qualified != cat[p1].qualified);
        }
    }
    assert(out1 =~= out2);
}

impl<C> McpManager<C> {
    /// For each hit, the catalog position of its tool if the hit is eligible.
    fn resolve_hits(&self, hits: &Vec<Hit>) -> (r: Vec<Option<usize>>)
        ensures
            r@.len() == hits@.len(),
            forall|i: int| 0 <= i < hits@.len() ==> ((#[trigger] r@[i]) is Some <==> eligible(self.catalog(), hits@, i)),
            forall|i: int| 0 <= i < hits@.len() ==> (#[trigger] r@[i] matches Some(p)
                ==> p < self.catalog().len() && self.catalog()[p as int].qualified == hits@[i].name@),
    {
        let mut r: Vec<Option<usize>> = Vec::new();
        let mut i: usize = 0;
        while i < hits.len()
            invariant
                i <= hits@.len(),
                r@.len() == i,
                forall|x: int| 0 <= x < i ==> ((#[trigger] r@[x]) is Some <==> eligible(self.catalog(), hits@, x)),
                forall|x: int| 0 <= x < i ==> (#[trigger] r@[x] matches Some(p)
                    ==> p < self.catalog().len() && self.catalog()[p as int].qualified == hits@[x].name@),
            decreases hits@.len() - i,
        {
            let mut first = true;
            let mut j: usize = 0;
            while j < i
                invariant
                    j <= i < hits@.len(),
                    first <==> forall|y: int| 0 <= y < j ==> hits@[y].name@ != hits@[i as int].name@,
                decreases i - j,
            {
                if hits[j].name == hits[i].name {
                    first = false;
                }
                j = j + 1;
            }
            let found = if first { self.find_tool(&hits[i].name) } else { None };
            r.push(found);
            i = i + 1;
        }
        r
    }

    /// The at most `k` most relevant tools among the hits of a similarity
    /// query, as catalog positions, most relevant first. Hits whose address
    /// the catalog does not hold, and repeats of an earlier hit, are passed
    /// over; equal scores keep the order of the hits.
    pub fn select(&self, hits: &Vec<Hit>, k: usize) -> (out: Vec<usize>)
        ensures
            is_selection(self.catalog(), hits@, k as nat, out@),
    {
        let ghost cat = self.catalog();
        let pos = self.resolve_hits(hits);
        let n = hits.len();
        let mut taken: Vec<bool> = Vec::new();
        let mut t: usize = 0;
        while t < n
            invariant
                t <= n,
                taken@.len() == t,
                forall|x: int| 0 <= x < t ==> !taken@[x],
            decreases n - t,
        {
            taken.push(false);
            t = t + 1;
        }
        let mut out: Vec<usize> = Vec::new();
        let ghost mut r: Seq<int> = Seq::empty();
        let mut exhausted = false;
        while out.len() < k && !exhausted
            invariant
                cat == self.catalog(),
                n == hits@.len(),
                pos@.len() == n,
                forall|i: int| 0 <= i < n ==> ((#[trigger] pos@[i]) is Some <==> eligible(cat, hits@, i)),
                forall|i: int| 0 <= i < n ==> (#[trigger] pos@[i] matches Some(p)
                    ==> p < cat.len() && cat[p as int].qualified == hits@[i].name@),
                taken@.len() == n,
                forall|i: int| 0 <= i < n ==> (taken@[i] <==> r.contains(i)),
                r.len() <= k,
                positions_of(cat, hits@, r, out@),
                forall|a: int| 0 <= a < r.len() ==> eligible(cat, hits@, #[trigger] r[a]),
                forall|a: int, b: int| 0 <= a < b < r.len() ==> ranks_before(hits@, r[a], r[b]),
                forall|i: int| eligible(cat, hits@, i) && !r.contains(i)
                    ==> forall|a: int| 0 <= a < r.len() ==> ranks_before(hits@, #[trigger] r[a], i),
                exhausted ==> forall|i: int| eligible(cat, hits@, i) ==> r.contains(i),
            decreases k - out@.len(), (if exhausted { 0int } else { 1int }),
        {
            let mut best: Option<usize> = None;
            let mut i: usize = 0;
            while i < n
                invariant
                    n == hits@.len(),
                    pos@.len() == n,
                    taken@.len() == n,
                    i <= n,
                    forall|x: int| 0 <= x < n ==> ((#[trigger] pos@[x]) is Some <==> eligible(cat, hits@, x)),
                    forall|x: int| 0 <= x < n ==> (taken@[x] <==> r.contains(x)),
                    best matches Some(b) ==> b < i && eligible(cat, hits@, b as int) && !r.contains(b as int),
                    forall|x: int| 0 <= x < i && eligible(cat, hits@, x) && !r.contains(x)
                        ==> (best matches Some(b) && (b == x || ranks_before(hits@, b as int, x))),
                decreases n - i,
            {
                if pos[i].is_some() && !taken[i] {
                    match best {
                        None => {
                            best = Some(i);
                        },
                        Some(b) => {
                            if hits[i].score > hits[b].score {
                                best = Some(i);
                            }
                        },
                    }
                }
                i = i + 1;
            }
            match best {
                None => {
                    exhausted = true;
                },
                Some(b) => {
                    let p = pos[b].unwrap();
                    out.push(p);
                    taken.set(b, true);
                    proof {
                        let r0 = r;
                        r = r.push(b as int);
                        assert(forall|x: int| r.contains(x) <==> (r0.contains(x) || x == b)) by {
                            assert forall|x: int| r.contains(x) implies (r0.contains(x) || x == b) by {
                                let y = choose|y: int| 0 <= y < r.len() && r[y] == x;
                                if y < r0.len() {
                                    assert(r0[y] == x);
                                }
                            }
                            assert forall|x: int| r0.contains(x) implies r.contains(x) by {
                                let y = choose|y: int| 0 <= y < r0.len() && r0[y] == x;
                                assert(r[y] == x);
                            }
                            assert(r[r.len() - 1] == b);
                        }
                        assert forall|a: int| 0 <= a < r.len() implies eligible(cat, hits@, #[trigger] r[a]) by {
                            if a < r0.len() {
                                assert(r[a] == r0[a]);
                            }
                        }
                        assert forall|a: int, c: int| 0 <= a < c < r.len() implies ranks_before(hits@, r[a], r[c]) by {
                            assert(r[a] == r0[a]);
                            if c < r0.len() {
                                assert(r[c] == r0[c]);
                            }
                        }
                        assert forall|x: int| eligible(cat, hits@, x) && !r.contains(x) implies
                            forall|a: int| 0 <= a < r.len() ==> ranks_before(hits@, #[trigger] r[a], x) by {
                            assert forall|a: int| 0 <= a < r.len() implies ranks_before(hits@, #[trigger] r[a], x) by {
                                if a < r0.len() {
                                    assert(r[a] == r0[a]);
                                }
                            }
                        }
                        assert forall|a: int| 0 <= a < r.len() implies
                            (#[trigger] out@[a]) < cat.len() && cat[out@[a] as int].qualified == hits@[r[a]].name@ by {
                            if a < r0.len() {
                                assert(r[a] == r0[a]);
                            }
                        }
                    }
                },
            }
        }
        proof {
            assert(is_top_k(cat, hits@, k as nat, r));
        }
        out
    }
}

} // verus!
