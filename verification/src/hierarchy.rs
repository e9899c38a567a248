//! Reconstruction of a node tree from a flat list of parent links.
//!
//! Records are addressed by their position in the list. A record is
//! *resolved* when its parent reference can be followed and it is not its
//! own ancestor; every other record is dropped. Resolution works leaves
//! first and never recurses, so a cycle cannot make it loop.

use crate::document::{same_text, NodeRecord};
use vstd::prelude::*;
use vstd::set_lib::{lemma_int_range, lemma_len_subset, set_int_range};

verus! {

/// How one record is attached to the list it stands in.
#[derive(Clone, Copy, Debug, PartialEq, Eq, Structural)]
pub enum Link {
    /// The record names no parent.
    Root,
    /// The record's parent is the record at this position.
    Child(usize),
    /// The record names a parent that no record of the list carries.
    Dangling,
}

/// Every parent position points into the list.
pub open spec fn links_in_range(links: Seq<Link>) -> bool {
    forall|i: int|
        0 <= i < links.len() ==> (#[trigger] links[i] matches Link::Child(p) ==> p < links.len())
}

/// The `k`-th ancestor of record `i`: the record itself for `k == 0`, its
/// parent for `k == 1`, and so on; `None` once the chain of parents ends.
pub open spec fn ancestor(links: Seq<Link>, i: int, k: nat) -> Option<int>
    decreases k,
{
    if k == 0 {
        Some(i)
    } else if 0 <= i < links.len() {
        match links[i] {
            Link::Child(p) => ancestor(links, p as int, (k - 1) as nat),
            _ => None,
        }
    } else {
        None
    }
}

/// Record `j` names record `i` as its parent.
pub open spec fn is_child_of(links: Seq<Link>, j: int, i: int) -> bool {
    0 <= j < links.len() && match links[j] {
        Link::Child(p) => p as int == i,
        _ => false,
    }
}

/// Record `i` is its own ancestor.
pub open spec fn on_cycle(links: Seq<Link>, i: int) -> bool {
    exists|k: nat| k >= 1 && #[trigger] ancestor(links, i, k) == Some(i)
}

/// Record `i` can be resolved: its parent reference can be followed and the
/// record does not lie on a cycle.
pub open spec fn resolvable(links: Seq<Link>, i: int) -> bool {
    links[i] != Link::Dangling && !on_cycle(links, i)
}

/// `cs` lists, in ascending order, exactly the positions below `bound` whose
/// parent is record `i`.
pub open spec fn lists_children(links: Seq<Link>, i: usize, cs: Seq<usize>, bound: int) -> bool {
    &&& forall|k: int|
        0 <= k < cs.len() ==> 0 <= #[trigger] cs[k] < bound && is_child_of(
            links,
            cs[k] as int,
            i as int,
        )
    &&& forall|a: int, b: int| 0 <= a < b < cs.len() ==> cs[a] < cs[b]
    &&& forall|j: int|
        0 <= j < bound && #[trigger] is_child_of(links, j, i as int) ==> exists|k: int|
            0 <= k < cs.len() && cs[k] == j
}

/// The positions below `bound` that `flags` marks, in ascending order.
pub open spec fn marked(flags: Seq<bool>, bound: nat) -> Seq<usize>
    decreases bound,
{
    if bound == 0 || bound > flags.len() {
        Seq::empty()
    } else if flags[bound - 1] {
        marked(flags, (bound - 1) as nat).push((bound - 1) as usize)
    } else {
        marked(flags, (bound - 1) as nat)
    }
}

/// The outcome of resolving a list of links.
#[derive(Clone, Debug)]
pub struct Hierarchy {
    /// For each record, how it is attached.
    pub links: Vec<Link>,
    /// For each record, whether it was resolved.
    pub kept: Vec<bool>,
    /// For each record, the positions of the records whose parent it is, in
    /// file order.
    pub children: Vec<Vec<usize>>,
    /// The resolved records, leaves first: each stands after all of its
    /// children.
    pub order: Vec<usize>,
    /// The resolved records without a parent, in file order.
    pub roots: Vec<usize>,
    /// The records that were dropped, in file order.
    pub dropped: Vec<usize>,
}

impl Hierarchy {
    /// Whether this value is the resolution of `links`.
    pub open spec fn resolves(&self, links: Seq<Link>) -> bool {
        let n = links.len() as int;
        &&& self.links@ == links
        &&& links.len() <= usize::MAX
        &&& self.kept@.len() == n
        &&& self.children@.len() == n
        &&& forall|i: int| 0 <= i < n ==> #[trigger] self.kept@[i] == resolvable(links, i)
        &&& forall|i: int|
            0 <= i < n ==> lists_children(links, i as usize, #[trigger] self.children@[i]@, n)
        &&& self.order@.no_duplicates()
        &&& forall|q: int|
            0 <= q < self.order@.len() ==> 0 <= #[trigger] self.order@[q] < n
                && self.kept@[self.order@[q] as int]
        &&& forall|i: int| 0 <= i < n && #[trigger] self.kept@[i] ==> self.order@.contains(i as usize)
        &&& forall|q: int, j: int|
            0 <= q < self.order@.len() && #[trigger] is_child_of(
                links,
                j,
                #[trigger] self.order@[q] as int,
            ) ==> exists|r: int| 0 <= r < q && self.order@[r] == j
        &&& self.roots@ == marked(
            Seq::new(links.len(), |i: int| self.kept@[i] && links[i] == Link::Root),
            links.len(),
        )
        &&& self.dropped@ == marked(Seq::new(links.len(), |i: int| !self.kept@[i]), links.len())
    }
}

/// The ranking that a leaves-first resolution keeps: a record of rank `-1`
/// has not been queued; a queued record ranks above each of its children.
pub open spec fn ranked(links: Seq<Link>, pos: Seq<int>) -> bool {
    &&& pos.len() == links.len()
    &&& forall|i: int, j: int|
        0 <= i < links.len() && pos[i] >= 0 && #[trigger] is_child_of(links, j, i) ==> 0 <= pos[j]
            < pos[i]
}

/// Below a ranked record every descendant is ranked too, and lower.
pub proof fn lemma_descendants_rank_lower(links: Seq<Link>, pos: Seq<int>, x: int, a: int, k: nat)
    requires
        links_in_range(links),
        ranked(links, pos),
        0 <= x < links.len(),
        0 <= a < links.len(),
        k >= 1,
        ancestor(links, x, k) == Some(a),
        pos[a] >= 0,
    ensures
        0 <= pos[x] < pos[a],
    decreases k,
{
    match links[x] {
        Link::Child(p) => {
            assert(is_child_of(links, x, p as int));
            if k == 1 {
                assert(ancestor(links, p as int, 0) == Some(p as int));
                assert(p as int == a);
            } else {
                lemma_descendants_rank_lower(links, pos, p as int, a, (k - 1) as nat);
            }
        },
        _ => {},
    }
}

/// A ranked record does not lie on a cycle.
pub proof fn lemma_ranked_not_on_cycle(links: Seq<Link>, pos: Seq<int>, i: int)
    requires
        links_in_range(links),
        ranked(links, pos),
        0 <= i < links.len(),
        pos[i] >= 0,
    ensures
        !on_cycle(links, i),
{
    if on_cycle(links, i) {
        let k = choose|k: nat| k >= 1 && #[trigger] ancestor(links, i, k) == Some(i);
        lemma_descendants_rank_lower(links, pos, i, i, k);
    }
}

/// Walking up `a` steps and then `b` steps is walking up `a + b` steps.
pub proof fn lemma_ancestor_compose(links: Seq<Link>, x: int, a: nat, b: nat)
    ensures
        ancestor(links, x, a + b) == match ancestor(links, x, a) {
            Some(y) => ancestor(links, y, b),
            None => None,
        },
    decreases a,
{
    if a > 0 && 0 <= x < links.len() {
        match links[x] {
            Link::Child(p) => {
                lemma_ancestor_compose(links, p as int, (a - 1) as nat, b);
                assert(ancestor(links, x, a + b) == ancestor(links, p as int, (a + b - 1) as nat));
            },
            _ => {},
        }
    }
}

/// More values than there are numbers below `n` cannot all differ.
pub proof fn lemma_pigeonhole(s: Seq<int>, n: int)
    requires
        0 <= n < s.len(),
        forall|k: int| 0 <= k < s.len() ==> 0 <= #[trigger] s[k] < n,
    ensures
        exists|a: int, b: int| 0 <= a < b < s.len() && s[a] == s[b],
{
    if s.no_duplicates() {
        s.unique_seq_to_set();
        lemma_int_range(0, n);
        assert(s.to_set().subset_of(set_int_range(0, n))) by {
            assert forall|v: int| s.to_set().contains(v) implies set_int_range(0, n).contains(
                v,
            ) by {
                let k = choose|k: int| 0 <= k < s.len() && s[k] == v;
                assert(0 <= s[k] < n);
            }
        }
        lemma_len_subset(s.to_set(), set_int_range(0, n));
    } else {
        let (i, j) = choose|i: int, j: int|
            0 <= i < s.len() && 0 <= j < s.len() && i != j && s[i] == s[j];
        if i < j {
            assert(0 <= i < j < s.len() && s[i] == s[j]);
        } else {
            assert(0 <= j < i < s.len() && s[j] == s[i]);
        }
    }
}

/// Every record that is neither marked in `kept` nor dangling has a child
/// that is not marked either.
#[verifier::opaque]
pub open spec fn stuck_below(links: Seq<Link>, kept: Seq<bool>) -> bool {
    &&& kept.len() == links.len()
    &&& forall|i: int|
        0 <= i < links.len() && !#[trigger] kept[i] && links[i] != Link::Dangling ==> exists|j: int|
            #[trigger] is_child_of(links, j, i) && !kept[j]
}

/// An unmarked child of record `i`.
pub open spec fn stuck_child(links: Seq<Link>, kept: Seq<bool>, i: int) -> int {
    choose|j: int| #[trigger] is_child_of(links, j, i) && !kept[j]
}

/// The record reached from `i` by stepping `m` times to an unmarked child.
pub open spec fn descend(links: Seq<Link>, kept: Seq<bool>, i: int, m: nat) -> int
    decreases m,
{
    if m == 0 {
        i
    } else {
        stuck_child(links, kept, descend(links, kept, i, (m - 1) as nat))
    }
}

/// Each step of the descent stays among the unmarked records, and leads
/// back up to where the step before it stood.
pub proof fn lemma_descend(links: Seq<Link>, kept: Seq<bool>, i: int, m: nat)
    requires
        stuck_below(links, kept),
        0 <= i < links.len(),
        !kept[i],
        links[i] != Link::Dangling,
    ensures
        0 <= descend(links, kept, i, m) < links.len(),
        !kept[descend(links, kept, i, m)],
        links[descend(links, kept, i, m)] != Link::Dangling,
        m >= 1 ==> is_child_of(
            links,
            descend(links, kept, i, m),
            descend(links, kept, i, (m - 1) as nat),
        ),
    decreases m,
{
    if m > 0 {
        lemma_descend(links, kept, i, (m - 1) as nat);
        let d = descend(links, kept, i, (m - 1) as nat);
        assert(!kept[d]);
        reveal(stuck_below);
    }
}

/// From a later step of the descent, walking up leads to each earlier one.
pub proof fn lemma_descend_ancestor(links: Seq<Link>, kept: Seq<bool>, i: int, a: nat, b: nat)
    requires
        stuck_below(links, kept),
        0 <= i < links.len(),
        !kept[i],
        links[i] != Link::Dangling,
        a <= b,
    ensures
        ancestor(links, descend(links, kept, i, b), (b - a) as nat) == Some(
            descend(links, kept, i, a),
        ),
    decreases b - a,
{
    if a < b {
        lemma_descend(links, kept, i, b);
        lemma_descend(links, kept, i, (b - 1) as nat);
        lemma_descend_ancestor(links, kept, i, a, (b - 1) as nat);
        let x = descend(links, kept, i, b);
        let y = descend(links, kept, i, (b - 1) as nat);
        assert(is_child_of(links, x, y));
        assert(ancestor(links, x, (b - a) as nat) == ancestor(links, y, (b - a - 1) as nat));
    }
}

/// A record that stays unmarked although its parent reference can be
/// followed is its own ancestor.
pub proof fn lemma_stuck_on_cycle(links: Seq<Link>, kept: Seq<bool>, i: int)
    requires
        stuck_below(links, kept),
        0 <= i < links.len(),
        !kept[i],
        links[i] != Link::Dangling,
    ensures
        on_cycle(links, i),
{
    let n = links.len() as int;
    let s = Seq::new((n + 1) as nat, |m: int| descend(links, kept, i, m as nat));
    assert forall|k: int| 0 <= k < s.len() implies 0 <= #[trigger] s[k] < n by {
        lemma_descend(links, kept, i, k as nat);
    }
    lemma_pigeonhole(s, n);
    let (a, b) = choose|a: int, b: int| 0 <= a < b < s.len() && s[a] == s[b];
    let d = descend(links, kept, i, a as nat);
    let k = (b - a) as nat;
    lemma_descend_ancestor(links, kept, i, a as nat, b as nat);
    assert(ancestor(links, d, k) == Some(d));
    lemma_descend_ancestor(links, kept, i, 0, a as nat);
    assert(ancestor(links, d, a as nat) == Some(i));
    lemma_ancestor_compose(links, d, a as nat, k);
    lemma_ancestor_compose(links, d, k, a as nat);
    assert(a as nat + k == k + a as nat);
    assert(ancestor(links, i, k) == Some(i));
}

/// Record `i` can be finalized once `kept` marks all that is finalized: its
/// parent reference can be followed and each of its children is marked.
pub open spec fn ready(links: Seq<Link>, kept: Seq<bool>, i: int) -> bool {
    links[i] != Link::Dangling && forall|j: int| #[trigger] is_child_of(links, j, i) ==> kept[j]
}

/// Distinct positions below `n` are at most `n` many.
proof fn lemma_queue_bounded(order: Seq<usize>, pos: Seq<int>, n: int)
    requires
        0 <= n,
        pos.len() == n,
        forall|q: int|
            0 <= q < order.len() ==> 0 <= #[trigger] order[q] < n && pos[order[q] as int] == q,
    ensures
        order.len() <= n,
{
    if order.len() > n {
        let s = Seq::new(order.len(), |q: int| order[q] as int);
        lemma_pigeonhole(s, n);
        let (a, b) = choose|a: int, b: int| 0 <= a < b < s.len() && s[a] == s[b];
        assert(pos[order[a] as int] == a);
        assert(pos[order[b] as int] == b);
    }
}

/// For each record the positions of its children, in file order.
fn collect_children(links: &Vec<Link>) -> (children: Vec<Vec<usize>>)
    requires
        links_in_range(links@),
    ensures
        children@.len() == links@.len(),
        forall|i: int|
            0 <= i < links@.len() ==> lists_children(
                links@,
                i as usize,
                #[trigger] children@[i]@,
                links@.len() as int,
            ),
{
    let n: usize = links.len();
    let mut children: Vec<Vec<usize>> = Vec::new();
    let mut i: usize = 0;
    while i < n
        invariant
            i <= n,
            children@.len() == i,
            forall|k: int| 0 <= k < i ==> (#[trigger] children@[k])@.len() == 0,
        decreases n - i,
    {
        children.push(Vec::new());
        i += 1;
    }
    let mut j: usize = 0;
    while j < n
        invariant
            n == links@.len(),
            links_in_range(links@),
            j <= n,
            children@.len() == n,
            forall|i: int|
                0 <= i < n ==> lists_children(links@, i as usize, #[trigger] children@[i]@, j as int),
        decreases n - j,
    {
        let ghost before = children@;
        match links[j] {
            Link::Child(p) => {
                children[p].push(j);
                proof {
                    assert(children@[p as int]@ == before[p as int]@.push(j));
                    assert forall|i: int| 0 <= i < n implies lists_children(
                        links@,
                        i as usize,
                        #[trigger] children@[i]@,
                        j + 1,
                    ) by {
                        let old_cs = before[i]@;
                        let cs = children@[i]@;
                        assert(lists_children(links@, i as usize, old_cs, j as int));
                        if i == p as int {
                            assert forall|x: int|
                                0 <= x < j + 1 && #[trigger] is_child_of(
                                    links@,
                                    x,
                                    i,
                                ) implies exists|k: int| 0 <= k < cs.len() && cs[k] == x by {
                                if x < j {
                                    let k = choose|k: int| 0 <= k < old_cs.len() && old_cs[k] == x;
                                    assert(cs[k] == x);
                                } else {
                                    assert(cs[old_cs.len() as int] == x);
                                }
                            }
                        } else {
                            assert(cs == old_cs);
                            assert(!is_child_of(links@, j as int, i));
                        }
                    }
                }
            },
            _ => {
                proof {
                    assert forall|i: int| 0 <= i < n implies lists_children(
                        links@,
                        i as usize,
                        #[trigger] children@[i]@,
                        j + 1,
                    ) by {
                        assert(lists_children(links@, i as usize, before[i]@, j as int));
                        assert(!is_child_of(links@, j as int, i));
                    }
                }
            },
        }
        j += 1;
    }
    children
}

/// How many of the positions that `cs` lists `kept` does not mark.
pub open spec fn unfinished(cs: Seq<usize>, kept: Seq<bool>) -> nat
    decreases cs.len(),
{
    if cs.len() == 0 {
        0
    } else {
        unfinished(cs.drop_last(), kept) + if kept[cs.last() as int] {
            0nat
        } else {
            1nat
        }
    }
}

/// Where nothing is marked, everything listed is unfinished; and nothing
/// is unfinished exactly where everything listed is marked.
proof fn lemma_unfinished(cs: Seq<usize>, kept: Seq<bool>)
    ensures
        (forall|x: int| 0 <= x < kept.len() ==> !#[trigger] kept[x]) && (forall|k: int|
            0 <= k < cs.len() ==> #[trigger] cs[k] < kept.len()) ==> unfinished(cs, kept)
            == cs.len(),
        unfinished(cs, kept) == 0 <==> forall|k: int|
            0 <= k < cs.len() ==> kept[#[trigger] cs[k] as int],
    decreases cs.len(),
{
    if cs.len() > 0 {
        let rest = cs.drop_last();
        lemma_unfinished(rest, kept);
        assert forall|k: int| 0 <= k < rest.len() implies rest[k] == cs[k] by {}
        if unfinished(cs, kept) == 0 {
            assert forall|k: int| 0 <= k < cs.len() implies kept[#[trigger] cs[k] as int] by {
                if k < rest.len() {
                    assert(kept[rest[k] as int]);
                }
            }
        }
        if forall|k: int| 0 <= k < cs.len() ==> kept[#[trigger] cs[k] as int] {
            assert forall|k: int| 0 <= k < rest.len() implies kept[#[trigger] rest[k] as int] by {
                assert(kept[cs[k] as int]);
            }
            assert(kept[cs[cs.len() - 1] as int]);
        }
    }
}

/// Marking a position that was not marked takes one from the count of a
/// list that holds the position, and leaves the count of any other list.
proof fn lemma_unfinished_mark(cs: Seq<usize>, kept: Seq<bool>, c: int)
    requires
        0 <= c < kept.len(),
        !kept[c],
        forall|k: int| 0 <= k < cs.len() ==> #[trigger] cs[k] < kept.len(),
        forall|a: int, b: int| 0 <= a < b < cs.len() ==> cs[a] < cs[b],
    ensures
        unfinished(cs, kept.update(c, true)) + (if exists|k: int|
            0 <= k < cs.len() && cs[k] == c {
            1nat
        } else {
            0nat
        }) == unfinished(cs, kept),
    decreases cs.len(),
{
    if cs.len() > 0 {
        let rest = cs.drop_last();
        let last = cs.len() - 1;
        lemma_unfinished_mark(rest, kept, c);
        assert forall|k: int| 0 <= k < rest.len() implies rest[k] == cs[k] by {}
        if exists|k: int| 0 <= k < rest.len() && rest[k] == c {
            let k = choose|k: int| 0 <= k < rest.len() && rest[k] == c;
            assert(cs[k] == c);
            assert(cs[k] < cs[last]);
        } else if cs[last] == c {
        } else {
            assert forall|k: int| 0 <= k < cs.len() implies cs[k] != c by {
                if k < rest.len() {
                    assert(rest[k] == cs[k]);
                }
            }
        }
    }
}

/// The positions that `flags` marks, in ascending order.
fn collect_marked(flags: &Vec<bool>) -> (r: Vec<usize>)
    ensures
        r@ == marked(flags@, flags@.len()),
{
    let mut r: Vec<usize> = Vec::new();
    let mut i: usize = 0;
    while i < flags.len()
        invariant
            i <= flags@.len(),
            r@ == marked(flags@, i as nat),
        decreases flags@.len() - i,
    {
        if flags[i] {
            r.push(i);
        }
        i += 1;
    }
    r
}

/// Resolves a list of links, leaves first.
///
/// A record is finalized once all of its children are; a record on a cycle
/// never gets there, and is dropped together with every record whose parent
/// reference leads nowhere. The records below a dropped one are kept.
pub fn resolve_links(links: Vec<Link>) -> (h: Hierarchy)
    requires
        links_in_range(links@),
    ensures
        h.resolves(links@),
{
    let n: usize = links.len();
    let children = collect_children(&links);
    let mut kept: Vec<bool> = Vec::new();
    let mut pending: Vec<usize> = Vec::new();
    let mut order: Vec<usize> = Vec::new();
    let ghost mut pos: Seq<int> = Seq::new(n as nat, |i: int| -1int);
    let mut i: usize = 0;
    while i < n
        invariant
            n == links@.len(),
            i <= n,
            kept@.len() == i,
            pending@.len() == i,
            pos.len() == n,
            children@.len() == n,
            forall|x: int| 0 <= x < i ==> #[trigger] pending@[x] == children@[x]@.len(),
            forall|x: int| 0 <= x < i ==> !#[trigger] kept@[x],
            forall|q: int|
                0 <= q < order@.len() ==> 0 <= #[trigger] order@[q] < i && pos[order@[q] as int]
                    == q,
            forall|x: int|
                0 <= x < n ==> -1 <= #[trigger] pos[x] < order@.len() && (pos[x] >= 0
                    ==> order@[pos[x]] == x),
            forall|x: int|
                0 <= x < i ==> (#[trigger] pos[x] >= 0 <==> links@[x] != Link::Dangling
                    && children@[x]@.len() == 0),
            forall|x: int| i <= x < n ==> #[trigger] pos[x] == -1,
        decreases n - i,
    {
        kept.push(false);
        pending.push(children[i].len());
        let dangling = match links[i] {
            Link::Dangling => true,
            _ => false,
        };
        if !dangling && children[i].len() == 0 {
            proof {
                pos = pos.update(i as int, order@.len() as int);
            }
            order.push(i);
        }
        i += 1;
    }
    proof {
        assert forall|x: int| 0 <= x < n implies (#[trigger] pos[x] >= 0 <==> ready(
            links@,
            kept@,
            x,
        )) by {
            let cs = children@[x]@;
            assert(lists_children(links@, x as usize, cs, n as int));
            if cs.len() > 0 {
                assert(is_child_of(links@, cs[0] as int, x));
            }
        }
        assert forall|x: int| 0 <= x < n implies #[trigger] pending@[x] == unfinished(
            children@[x]@,
            kept@,
        ) by {
            assert(lists_children(links@, x as usize, children@[x]@, n as int));
            lemma_unfinished(children@[x]@, kept@);
        }
    }
    let mut head: usize = 0;
    while head < order.len()
        invariant
            n == links@.len(),
            links_in_range(links@),
            kept@.len() == n,
            pending@.len() == n,
            pos.len() == n,
            children@.len() == n,
            forall|x: int|
                0 <= x < n ==> lists_children(links@, x as usize, #[trigger] children@[x]@, n as int),
            forall|x: int|
                0 <= x < n ==> #[trigger] pending@[x] == unfinished(children@[x]@, kept@),
            head <= order@.len(),
            forall|q: int|
                0 <= q < order@.len() ==> 0 <= #[trigger] order@[q] < n && pos[order@[q] as int]
                    == q,
            forall|x: int|
                0 <= x < n ==> -1 <= #[trigger] pos[x] < order@.len() && (pos[x] >= 0
                    ==> order@[pos[x]] == x),
            forall|x: int| 0 <= x < n ==> (#[trigger] kept@[x] <==> 0 <= pos[x] < head),
            forall|x: int| 0 <= x < n ==> (#[trigger] pos[x] >= 0 <==> ready(links@, kept@, x)),
            ranked(links@, pos),
        decreases n - head,
    {
        proof {
            lemma_queue_bounded(order@, pos, n as int);
        }
        let c: usize = order[head];
        let ghost kept_before = kept@;
        let ghost pos_before = pos;
        let ghost pending_before = pending@;
        kept.set(c, true);
        head += 1;
        proof {
            assert forall|x: int| 0 <= x < n implies unfinished(children@[x]@, kept@) + (
            if is_child_of(links@, c as int, x) {
                1nat
            } else {
                0nat
            }) == #[trigger] pending@[x] by {
                let cs = children@[x]@;
                assert(lists_children(links@, x as usize, cs, n as int));
                lemma_unfinished_mark(cs, kept_before, c as int);
                if exists|k: int| 0 <= k < cs.len() && cs[k] == c {
                    let k = choose|k: int| 0 <= k < cs.len() && cs[k] == c;
                    assert(is_child_of(links@, cs[k] as int, x));
                }
            }
        }
        let mut queued: bool = false;
        let mut parent: usize = 0;
        match links[c] {
            Link::Child(p) => {
                let dangling = match links[p] {
                    Link::Dangling => true,
                    _ => false,
                };
                proof {
                    assert(lists_children(links@, p as usize, children@[p as int]@, n as int));
                    assert(is_child_of(links@, c as int, p as int));
                    assert(!ready(links@, kept_before, p as int));
                }
                proof {
                    lemma_unfinished(children@[p as int]@, kept@);
                }
                pending.set(p, pending[p] - 1);
                if !dangling && pending[p] == 0 {
                    proof {
                        pos = pos.update(p as int, order@.len() as int);
                    }
                    order.push(p);
                    queued = true;
                    parent = p;
                    proof {
                        assert forall|j: int| #[trigger]
                            is_child_of(links@, j, p as int) implies kept@[j] by {
                            let cs = children@[p as int]@;
                            let k = choose|k: int| 0 <= k < cs.len() && cs[k] == j;
                            assert(kept@[cs[k] as int]);
                        }
                        assert(ready(links@, kept@, p as int));
                    }
                } else {
                    proof {
                        if !dangling {
                            let cs = children@[p as int]@;
                            let k = choose|k: int| 0 <= k < cs.len() && !kept@[#[trigger] cs[k] as int];
                            assert(is_child_of(links@, cs[k] as int, p as int));
                            assert(!ready(links@, kept@, p as int));
                        }
                    }
                }
            },
            _ => {},
        }
        proof {
            assert forall|x: int| 0 <= x < n implies #[trigger] pending@[x] == unfinished(
                children@[x]@,
                kept@,
            ) by {
                assert(pending_before[x] == unfinished(children@[x]@, kept@) + (if is_child_of(
                    links@,
                    c as int,
                    x,
                ) {
                    1nat
                } else {
                    0nat
                }));
            }
            assert forall|x: int| 0 <= x < n implies (#[trigger] pos[x] >= 0 <==> ready(
                links@,
                kept@,
                x,
            )) by {
                if pos_before[x] >= 0 {
                    assert(ready(links@, kept_before, x));
                    assert forall|j: int| #[trigger] is_child_of(links@, j, x) implies kept@[j] by {
                        assert(kept_before[j]);
                    }
                } else if is_child_of(links@, c as int, x) {
                } else if links@[x] != Link::Dangling {
                    assert(!ready(links@, kept_before, x));
                    let j = choose|j: int| #[trigger] is_child_of(links@, j, x) && !kept_before[j];
                    assert(j != c);
                    assert(!kept@[j]);
                }
            }
            assert forall|a: int, j: int|
                0 <= a < n && pos[a] >= 0 && #[trigger] is_child_of(links@, j, a) implies 0
                <= pos[j] < pos[a] by {
                if queued && a == parent as int {
                    assert(ready(links@, kept@, a));
                    assert(kept@[j]);
                    assert(j != c ==> kept_before[j]);
                } else {
                    assert(pos_before[a] >= 0);
                }
            }
        }
    }
    proof {
        assert(stuck_below(links@, kept@)) by {
            reveal(stuck_below);
            assert forall|x: int|
                0 <= x < n && !#[trigger] kept@[x] && links@[x] != Link::Dangling implies exists|
                j: int,
            | #[trigger] is_child_of(links@, j, x) && !kept@[j] by {
                assert(!ready(links@, kept@, x));
            }
        }
        assert forall|x: int| 0 <= x < n implies #[trigger] kept@[x] == resolvable(links@, x) by {
            if kept@[x] {
                assert(ready(links@, kept@, x));
                lemma_ranked_not_on_cycle(links@, pos, x);
            } else if links@[x] != Link::Dangling {
                lemma_stuck_on_cycle(links@, kept@, x);
            }
        }
        assert forall|x: int| 0 <= x < n && #[trigger] kept@[x] implies order@.contains(
            x as usize,
        ) by {
            assert(order@[pos[x]] == x as usize);
        }
        assert forall|q: int, j: int|
            0 <= q < order@.len() && #[trigger] is_child_of(
                links@,
                j,
                #[trigger] order@[q] as int,
            ) implies exists|r: int| 0 <= r < q && order@[r] == j by {
            assert(pos[order@[q] as int] == q);
            assert(order@[pos[j]] == j);
        }
    }
    let mut root_flags: Vec<bool> = Vec::new();
    let mut drop_flags: Vec<bool> = Vec::new();
    let mut k: usize = 0;
    while k < n
        invariant
            n == links@.len(),
            kept@.len() == n,
            k <= n,
            root_flags@.len() == k,
            drop_flags@.len() == k,
            forall|x: int|
                0 <= x < k ==> #[trigger] root_flags@[x] == (kept@[x] && links@[x] == Link::Root),
            forall|x: int| 0 <= x < k ==> #[trigger] drop_flags@[x] == !kept@[x],
        decreases n - k,
    {
        let is_root = match links[k] {
            Link::Root => true,
            _ => false,
        };
        root_flags.push(kept[k] && is_root);
        drop_flags.push(!kept[k]);
        k += 1;
    }
    let roots = collect_marked(&root_flags);
    let dropped = collect_marked(&drop_flags);
    proof {
        assert(root_flags@ =~= Seq::new(
            links@.len(),
            |i: int| kept@[i] && links@[i] == Link::Root,
        ));
        assert(drop_flags@ =~= Seq::new(links@.len(), |i: int| !kept@[i]));
    }
    Hierarchy { links, kept, children, order, roots, dropped }
}

/// `link` is how record `i` of `records` is attached: a record without a
/// parent is a root; one with a parent is the child of the first record
/// that carries the parent's identifier, wherever in the list that record
/// stands; where no record carries it, the link dangles.
pub open spec fn link_of(records: Seq<NodeRecord>, i: int, link: Link) -> bool {
    match records[i].parent {
        None => link == Link::Root,
        Some(parent) => match link {
            Link::Root => false,
            Link::Child(p) => p < records.len() && records[p as int].id@ == parent@ && forall|
                k: int,
            | 0 <= k < p ==> (#[trigger] records[k]).id@ != parent@,
            Link::Dangling => forall|k: int|
                0 <= k < records.len() ==> (#[trigger] records[k]).id@ != parent@,
        },
    }
}

/// `links` attaches each record of `records`.
pub open spec fn links_of(records: Seq<NodeRecord>, links: Seq<Link>) -> bool {
    &&& links.len() == records.len()
    &&& forall|i: int| 0 <= i < records.len() ==> link_of(records, i, #[trigger] links[i])
}

/// The first record that carries the identifier `id`.
pub fn find_record(records: &Vec<NodeRecord>, id: &str) -> (r: Option<usize>)
    ensures
        match r {
            Some(p) => p < records@.len() && records@[p as int].id@ == id@ && forall|k: int|
                0 <= k < p ==> (#[trigger] records@[k]).id@ != id@,
            None => forall|k: int| 0 <= k < records@.len() ==> (#[trigger] records@[k]).id@ != id@,
        },
{
    let mut k: usize = 0;
    while k < records.len()
        invariant
            k <= records@.len(),
            forall|x: int| 0 <= x < k ==> (#[trigger] records@[x]).id@ != id@,
        decreases records@.len() - k,
    {
        if same_text(records[k].id.as_str(), id) {
            return Some(k);
        }
        k += 1;
    }
    None
}

/// Attaches each record to its parent by identifier.
pub fn link_parents(records: &Vec<NodeRecord>) -> (links: Vec<Link>)
    ensures
        links_of(records@, links@),
        links_in_range(links@),
{
    let mut links: Vec<Link> = Vec::new();
    let mut i: usize = 0;
    while i < records.len()
        invariant
            i <= records@.len(),
            links@.len() == i,
            forall|x: int| 0 <= x < i ==> link_of(records@, x, #[trigger] links@[x]),
            forall|x: int|
                0 <= x < i ==> (#[trigger] links@[x] matches Link::Child(p) ==> p < records@.len()),
        decreases records@.len() - i,
    {
        let link = match &records[i].parent {
            None => Link::Root,
            Some(parent) => match find_record(records, parent.as_str()) {
                Some(p) => Link::Child(p),
                None => Link::Dangling,
            },
        };
        links.push(link);
        i += 1;
    }
    links
}

/// Turns a flat list of records into a tree: attaches each record to its
/// parent, then resolves the links leaves first.
pub fn resolve(records: &Vec<NodeRecord>) -> (h: Hierarchy)
    ensures
        links_of(records@, h.links@),
        links_in_range(h.links@),
        h.resolves(h.links@),
{
    resolve_links(link_parents(records))
}

/// `marked` lists exactly the marked positions, in ascending order.
pub proof fn lemma_marked(flags: Seq<bool>, bound: nat)
    requires
        bound <= flags.len() <= usize::MAX,
    ensures
        forall|i: int|
            0 <= i < bound && flags[i] ==> #[trigger] marked(flags, bound).contains(i as usize),
        forall|k: int|
            0 <= k < marked(flags, bound).len() ==> 0 <= #[trigger] marked(flags, bound)[k] < bound
                && flags[marked(flags, bound)[k] as int],
        forall|a: int, b: int|
            0 <= a < b < marked(flags, bound).len() ==> marked(flags, bound)[a] < marked(
                flags,
                bound,
            )[b],
    decreases bound,
{
    if bound > 0 {
        let rest = marked(flags, (bound - 1) as nat);
        let all = marked(flags, bound);
        lemma_marked(flags, (bound - 1) as nat);
        assert forall|i: int| 0 <= i < bound && flags[i] implies #[trigger] all.contains(
            i as usize,
        ) by {
            if i < bound - 1 {
                assert(rest.contains(i as usize));
                let k = choose|k: int| 0 <= k < rest.len() && rest[k] == i as usize;
                assert(all[k] == i as usize);
            } else {
                assert(all[all.len() - 1] == i as usize);
            }
        }
    }
}

/// Where every record that names a parent stands after it, no record lies
/// on a cycle.
pub proof fn lemma_parents_first_acyclic(links: Seq<Link>, i: int, k: nat)
    requires
        forall|x: int|
            0 <= x < links.len() ==> (#[trigger] links[x] matches Link::Child(p) ==> p < x),
        0 <= i < links.len(),
        k >= 1,
    ensures
        ancestor(links, i, k) matches Some(a) ==> 0 <= a < i,
    decreases k,
{
    match links[i] {
        Link::Child(p) => {
            if k > 1 {
                lemma_parents_first_acyclic(links, p as int, (k - 1) as nat);
            }
        },
        _ => {},
    }
}

/// In a list without dangling references in which every parent stands
/// before its children, resolution keeps every record and drops none, and
/// its roots are exactly the records that name no parent.
pub proof fn law_parents_first_keeps_all(h: Hierarchy)
    requires
        h.resolves(h.links@),
        forall|x: int|
            0 <= x < h.links@.len() ==> match #[trigger] h.links@[x] {
                Link::Root => true,
                Link::Child(p) => p < x,
                Link::Dangling => false,
            },
    ensures
        forall|i: int|
            0 <= i < h.links@.len() ==> #[trigger] h.kept@[i] && h.order@.contains(i as usize),
        h.dropped@.len() == 0,
        forall|i: int|
            0 <= i < h.links@.len() ==> (h.roots@.contains(i as usize) <==> #[trigger] h.links@[i]
                == Link::Root),
{
    let links = h.links@;
    let n = links.len();
    assert forall|i: int| 0 <= i < n implies #[trigger] h.kept@[i] by {
        if on_cycle(links, i) {
            let k = choose|k: nat| k >= 1 && #[trigger] ancestor(links, i, k) == Some(i);
            lemma_parents_first_acyclic(links, i, k);
        }
        assert(h.kept@[i] == resolvable(links, i));
    }
    let drop_flags = Seq::new(n, |i: int| !h.kept@[i]);
    lemma_marked(drop_flags, n);
    if h.dropped@.len() > 0 {
        let d = h.dropped@[0];
        assert(drop_flags[d as int]);
    }
    let root_flags = Seq::new(n, |i: int| h.kept@[i] && links[i] == Link::Root);
    lemma_marked(root_flags, n);
    assert forall|i: int| 0 <= i < n implies (h.roots@.contains(i as usize) <==> #[trigger] links[i]
        == Link::Root) by {
        if h.roots@.contains(i as usize) {
            let k = choose|k: int| 0 <= k < h.roots@.len() && h.roots@[k] == i as usize;
            assert(root_flags[h.roots@[k] as int]);
        }
        if links[i] == Link::Root {
            assert(h.kept@[i]);
            assert(root_flags[i]);
        }
    }
}

/// Resolution drops exactly the records that lie on a cycle and those whose
/// parent reference dangles; every other record is kept and stands in the
/// leaves-first order, whatever was dropped around it.
pub proof fn law_cycles_dropped_rest_kept(h: Hierarchy, i: int)
    requires
        h.resolves(h.links@),
        0 <= i < h.links@.len(),
    ensures
        on_cycle(h.links@, i) ==> !h.kept@[i] && h.dropped@.contains(i as usize)
            && !h.order@.contains(i as usize),
        h.links@[i] == Link::Dangling ==> !h.kept@[i] && h.dropped@.contains(i as usize),
        !on_cycle(h.links@, i) && h.links@[i] != Link::Dangling ==> h.kept@[i]
            && !h.dropped@.contains(i as usize) && h.order@.contains(i as usize),
{
    let links = h.links@;
    let n = links.len();
    assert(h.kept@[i] == resolvable(links, i));
    let drop_flags = Seq::new(n, |x: int| !h.kept@[x]);
    lemma_marked(drop_flags, n);
    if h.dropped@.contains(i as usize) {
        let k = choose|k: int| 0 <= k < h.dropped@.len() && h.dropped@[k] == i as usize;
        assert(drop_flags[h.dropped@[k] as int]);
    }
    if !h.kept@[i] {
        assert(drop_flags[i]);
        if h.order@.contains(i as usize) {
            let q = choose|q: int| 0 <= q < h.order@.len() && h.order@[q] == i as usize;
            assert(h.kept@[h.order@[q] as int]);
        }
    }
}

/// What to do with a list that cannot be resolved whole.
#[derive(Clone, Copy, Debug, PartialEq, Eq, Structural)]
pub enum Validation {
    /// Drop the records that cannot be resolved and keep the rest.
    Permissive,
    /// Refuse the list if any record would be dropped.
    Strict,
}

/// Resolves a list of records under the given validation. The resolution
/// is handed out either way: as `Err` where the validation is strict and a
/// record was dropped, as `Ok` in every other case.
pub fn resolve_with(records: &Vec<NodeRecord>, validation: Validation) -> (r: Result<
    Hierarchy,
    Hierarchy,
>)
    ensures
        ({
            let h = match r {
                Ok(h) => h,
                Err(h) => h,
            };
            &&& links_of(records@, h.links@)
            &&& links_in_range(h.links@)
            &&& h.resolves(h.links@)
            &&& r is Err <==> validation == Validation::Strict && h.dropped@.len() > 0
        }),
{
    let h = resolve(records);
    let refused = match validation {
        Validation::Strict => h.dropped.len() > 0,
        Validation::Permissive => false,
    };
    if refused {
        Err(h)
    } else {
        Ok(h)
    }
}

} // verus!
