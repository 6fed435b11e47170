//! Message threading: a flat arena of containers linked by index
//! (parent, first child, next sibling), built from the Message-ID and
//! References headers of a collection, with the root set of the threads
//! and a sorted presentation tree.
use crate::envelope::Envelope;
use vstd::multiset::Multiset;
use vstd::prelude::*;
use vstd::string::StringSliceAdditionalSpecFns;

verus! {

#[derive(Clone, Copy, Debug, PartialEq, Eq, Structural)]
pub enum SortOrder {
    Asc,
    Desc,
}

#[derive(Clone, Copy, Debug, PartialEq, Eq, Structural)]
pub enum SortField {
    Subject,
    Date,
}

impl Default for SortField {
    fn default() -> (r: SortField)
        ensures
            r == SortField::Date,
    {
        SortField::Date
    }
}

impl Default for SortOrder {
    fn default() -> (r: SortOrder)
        ensures
            r == SortOrder::Desc,
    {
        SortOrder::Desc
    }
}

/// One node of the thread arena: a message of the collection, or a
/// placeholder for a message that is referenced but absent.
#[derive(Clone, Copy, Debug, PartialEq, Eq, Structural)]
pub struct Container {
    pub id: usize,
    pub message: Option<usize>,
    pub parent: Option<usize>,
    pub first_child: Option<usize>,
    pub next_sibling: Option<usize>,
    pub date: u64,
    pub indentation: usize,
    pub show_subject: bool,
}

impl Container {
    pub fn date(&self) -> (r: u64)
        ensures
            r == self.date,
    {
        self.date
    }

    pub fn message(&self) -> (r: Option<usize>)
        ensures
            r == self.message,
    {
        self.message
    }

    pub fn parent(&self) -> (r: Option<usize>)
        ensures
            r == self.parent,
    {
        self.parent
    }

    pub fn has_parent(&self) -> (r: bool)
        ensures
            r == self.parent.is_some(),
    {
        self.parent.is_some()
    }

    pub fn first_child(&self) -> (r: Option<usize>)
        ensures
            r == self.first_child,
    {
        self.first_child
    }

    pub fn next_sibling(&self) -> (r: Option<usize>)
        ensures
            r == self.next_sibling,
    {
        self.next_sibling
    }

    pub fn has_children(&self) -> (r: bool)
        ensures
            r == self.first_child.is_some(),
    {
        self.first_child.is_some()
    }

    pub fn has_sibling(&self) -> (r: bool)
        ensures
            r == self.next_sibling.is_some(),
    {
        self.next_sibling.is_some()
    }

    pub fn has_message(&self) -> (r: bool)
        ensures
            r == self.message.is_some(),
    {
        self.message.is_some()
    }

    pub fn indentation(&self) -> (r: usize)
        ensures
            r == self.indentation,
    {
        self.indentation
    }

    pub fn show_subject(&self) -> (r: bool)
        ensures
            r == self.show_subject,
    {
        self.show_subject
    }
}

/// `b` is the first child or the next sibling of `a`.
pub open spec fn edge(c: Seq<Container>, a: int, b: int) -> bool {
    0 <= a < c.len() && ((c[a].first_child matches Some(x) && x == b) || (
    c[a].next_sibling matches Some(x) && x == b))
}

/// Step `i` of the walk `p` follows a link.
pub open spec fn link_at(c: Seq<Container>, p: Seq<int>, i: int) -> bool {
    edge(c, p[i], p[i + 1])
}

/// A walk along first-child and next-sibling links.
pub open spec fn is_path(c: Seq<Container>, p: Seq<int>) -> bool {
    p.len() >= 1 && forall|i: int| 0 <= i < p.len() - 1 ==> #[trigger] link_at(c, p, i)
}

/// `b` is `a` or lies below it through first-child and next-sibling links.
pub open spec fn reaches(c: Seq<Container>, a: int, b: int) -> bool {
    exists|p: Seq<int>| #[trigger] is_path(c, p) && p[0] == a && p.last() == b
}

/// No container can be reached from itself by one or more links.
pub open spec fn acyclic(c: Seq<Container>) -> bool {
    forall|p: Seq<int>| #[trigger] is_path(c, p) && p.len() > 1 ==> p[0] != p.last()
}

/// Every link leads to a container of lower rank.
pub open spec fn ranked(c: Seq<Container>, rank: Seq<nat>) -> bool {
    &&& rank.len() == c.len()
    &&& forall|a: int, b: int| #[trigger] edge(c, a, b) ==> b < c.len() && rank[a] > rank[b]
}

/// The arena's shape: ids are positions, links stay inside the arena and
/// only lead to containers that hold a message, messages index a collection
/// of `n` envelopes, and the links are ranked by `rank`.
pub open spec fn arena_wf(c: Seq<Container>, rank: Seq<nat>, n: nat) -> bool {
    &&& ranked(c, rank)
    &&& forall|a: int|
        #![trigger c[a]]
        0 <= a < c.len() ==> {
            &&& c[a].id == a
            &&& (c[a].parent matches Some(x) ==> x < c.len())
            &&& (c[a].first_child matches Some(x) ==> x < c.len() && c[x as int].message is Some)
            &&& (c[a].next_sibling matches Some(x) ==> x < c.len() && c[x as int].message is Some)
            &&& (c[a].message matches Some(m) ==> m < n)
        }
}

proof fn lemma_path_rank(c: Seq<Container>, rank: Seq<nat>, p: Seq<int>)
    requires
        ranked(c, rank),
        is_path(c, p),
        0 <= p[0] < c.len(),
    ensures
        0 <= p.last() < c.len(),
        p.len() > 1 ==> rank[p[0]] > rank[p.last()],
    decreases p.len(),
{
    if p.len() > 1 {
        let q = p.subrange(1, p.len() as int);
        assert(link_at(c, p, 0));
        assert forall|i: int| 0 <= i < q.len() - 1 implies #[trigger] link_at(c, q, i) by {
            assert(link_at(c, p, i + 1));
        }
        lemma_path_rank(c, rank, q);
        assert(q.last() == p.last());
    }
}

/// A ranked arena has no cycle.
pub proof fn lemma_ranked_acyclic(c: Seq<Container>, rank: Seq<nat>)
    requires
        ranked(c, rank),
    ensures
        acyclic(c),
{
    assert forall|p: Seq<int>| #[trigger] is_path(c, p) && p.len() > 1 implies p[0] != p.last() by {
        assert(link_at(c, p, 0));
        lemma_path_rank(c, rank, p);
    }
}

proof fn lemma_reach_self(c: Seq<Container>, a: int)
    ensures
        reaches(c, a, a),
{
    let p = seq![a];
    assert(is_path(c, p));
}

proof fn lemma_reach_prepend(c: Seq<Container>, a: int, w: int, b: int)
    requires
        edge(c, a, w),
        reaches(c, w, b),
    ensures
        reaches(c, a, b),
{
    let p = choose|p: Seq<int>| #[trigger] is_path(c, p) && p[0] == w && p.last() == b;
    let q = seq![a] + p;
    assert forall|i: int| 0 <= i < q.len() - 1 implies #[trigger] link_at(c, q, i) by {
        if i > 0 {
            assert(link_at(c, p, i - 1));
            assert(q[i] == p[i - 1] && q[i + 1] == p[i]);
        }
    }
    assert(is_path(c, q));
    assert(q[0] == a && q.last() == b);
}

proof fn lemma_no_reach(c: Seq<Container>, a: int, b: int)
    requires
        a != b,
        forall|w: int| edge(c, a, w) ==> !reaches(c, w, b),
    ensures
        !reaches(c, a, b),
{
    if reaches(c, a, b) {
        let p = choose|p: Seq<int>| #[trigger] is_path(c, p) && p[0] == a && p.last() == b;
        assert(p.len() > 1);
        assert(link_at(c, p, 0));
        let q = p.subrange(1, p.len() as int);
        assert forall|i: int| 0 <= i < q.len() - 1 implies #[trigger] link_at(c, q, i) by {
            assert(link_at(c, p, i + 1));
        }
        assert(is_path(c, q) && q[0] == p[1] && q.last() == b);
    }
}

/// Is `b` equal to `a` or below it?
fn is_descendant(c: &Vec<Container>, Ghost(rank): Ghost<Seq<nat>>, Ghost(n): Ghost<nat>, a: usize, b: usize) -> (r: bool)
    requires
        arena_wf(c@, rank, n),
        a < c@.len(),
        b < c@.len(),
    ensures
        r == reaches(c@, a as int, b as int),
    decreases rank[a as int],
{
    if a == b {
        proof {
            lemma_reach_self(c@, a as int);
        }
        return true;
    }
    let fc = c[a].first_child;
    let ns = c[a].next_sibling;
    let r1 = match fc {
        Some(v) => {
            assert(edge(c@, a as int, v as int));
            is_descendant(c, Ghost(rank), Ghost(n), v, b)
        },
        None => false,
    };
    let r2 = match ns {
        Some(v) => {
            assert(edge(c@, a as int, v as int));
            is_descendant(c, Ghost(rank), Ghost(n), v, b)
        },
        None => false,
    };
    if r1 || r2 {
        proof {
            if r1 {
                lemma_reach_prepend(c@, a as int, fc.unwrap() as int, b as int);
            } else {
                lemma_reach_prepend(c@, a as int, ns.unwrap() as int, b as int);
            }
        }
        return true;
    }
    proof {
        assert forall|w: int| edge(c@, a as int, w) implies !reaches(c@, w, b as int) by {
            if fc matches Some(x) && x == w {
            } else {
                assert(ns matches Some(x) && x == w);
            }
        }
        lemma_no_reach(c@, a as int, b as int);
    }
    false
}

} // verus!

verus! {

/// The two arenas have the same containers up to parents and dates.
pub open spec fn same_links(c1: Seq<Container>, c2: Seq<Container>) -> bool {
    &&& c1.len() == c2.len()
    &&& forall|k: int|
        #![trigger c2[k]]
        0 <= k < c1.len() ==> {
            &&& c2[k].id == c1[k].id
            &&& c2[k].message == c1[k].message
            &&& c2[k].first_child == c1[k].first_child
            &&& c2[k].next_sibling == c1[k].next_sibling
        }
}

/// Changing parents and dates keeps the links and thus reachability.
proof fn lemma_same_links(c1: Seq<Container>, c2: Seq<Container>, rank: Seq<nat>, n: nat)
    requires
        same_links(c1, c2),
        arena_wf(c1, rank, n),
        forall|k: int| 0 <= k < c2.len() ==> (#[trigger] c2[k].parent matches Some(x) ==> x < c2.len()),
    ensures
        arena_wf(c2, rank, n),
        forall|a: int, b: int| #[trigger] edge(c2, a, b) == edge(c1, a, b),
        forall|a: int, b: int| #[trigger] reaches(c2, a, b) == reaches(c1, a, b),
{
    assert forall|a: int, b: int| #[trigger] edge(c2, a, b) == edge(c1, a, b) by {
        if 0 <= a < c1.len() {
            assert(c2[a].first_child == c1[a].first_child);
        }
    }
    assert forall|p: Seq<int>| #[trigger] is_path(c2, p) == is_path(c1, p) by {
        if is_path(c1, p) {
            assert forall|i: int| 0 <= i < p.len() - 1 implies #[trigger] link_at(c2, p, i) by {
                assert(link_at(c1, p, i));
            }
        }
        if is_path(c2, p) {
            assert forall|i: int| 0 <= i < p.len() - 1 implies #[trigger] link_at(c1, p, i) by {
                assert(link_at(c2, p, i));
            }
        }
    }
    assert forall|a: int, b: int| #[trigger] reaches(c2, a, b) == reaches(c1, a, b) by {
        if reaches(c1, a, b) {
            let p = choose|p: Seq<int>| #[trigger] is_path(c1, p) && p[0] == a && p.last() == b;
            assert(is_path(c2, p));
        }
        if reaches(c2, a, b) {
            let p = choose|p: Seq<int>| #[trigger] is_path(c2, p) && p[0] == a && p.last() == b;
            assert(is_path(c1, p));
        }
    }
    assert forall|a: int| #![trigger c2[a]] 0 <= a < c2.len() implies {
        &&& (c2[a].first_child matches Some(x) ==> x < c2.len() && c2[x as int].message is Some)
        &&& (c2[a].next_sibling matches Some(x) ==> x < c2.len() && c2[x as int].message is Some)
    } by {
        assert(c1[a].first_child == c2[a].first_child);
        if let Some(x) = c2[a].first_child {
            assert(c2[x as int].message == c1[x as int].message);
        }
        if let Some(x) = c2[a].next_sibling {
            assert(c2[x as int].message == c1[x as int].message);
        }
    }
}

/// Appends a container holding `message` (or a placeholder) whose first
/// child is `first_child`.
fn push_container(
    c: &mut Vec<Container>,
    Ghost(rank): Ghost<Seq<nat>>,
    Ghost(n): Ghost<nat>,
    message: Option<usize>,
    first_child: Option<usize>,
    date: u64,
) -> (r: Ghost<Seq<nat>>)
    requires
        arena_wf(old(c)@, rank, n),
        message matches Some(m) ==> m < n,
        first_child matches Some(x) ==> x < old(c)@.len() && old(c)@[x as int].message is Some,
    ensures
        arena_wf(final(c)@, r@, n),
        final(c)@ == old(c)@.push(
            Container {
                id: old(c)@.len() as usize,
                message,
                parent: None,
                first_child,
                next_sibling: None,
                date,
                indentation: 0,
                show_subject: true,
            },
        ),
{
    let id = c.len();
    let ghost old_c = c@;
    c.push(
        Container {
            id,
            message,
            parent: None,
            first_child,
            next_sibling: None,
            date,
            indentation: 0,
            show_subject: true,
        },
    );
    let ghost new_rank = rank.push(
        match first_child {
            Some(x) => rank[x as int] + 1,
            None => 0,
        },
    );
    proof {
        assert forall|a: int, b: int| #[trigger] edge(c@, a, b) implies b < c@.len() && new_rank[a]
            > new_rank[b] by {
            if a < old_c.len() {
                assert(c@[a] == old_c[a]);
                assert(edge(old_c, a, b));
            }
        }
        assert forall|a: int| #![trigger c@[a]] 0 <= a < c@.len() implies {
            &&& c@[a].id == a
            &&& (c@[a].parent matches Some(x) ==> x < c@.len())
            &&& (c@[a].first_child matches Some(x) ==> x < c@.len() && c@[x as int].message is Some)
            &&& (c@[a].next_sibling matches Some(x) ==> x < c@.len() && c@[x as int].message is Some)
            &&& (c@[a].message matches Some(m) ==> m < n)
        } by {
            if a < old_c.len() {
                assert(c@[a] == old_c[a]);
                if let Some(x) = c@[a].first_child {
                    assert(c@[x as int] == old_c[x as int]);
                }
                if let Some(x) = c@[a].next_sibling {
                    assert(c@[x as int] == old_c[x as int]);
                }
            } else {
                if let Some(x) = first_child {
                    assert(c@[x as int] == old_c[x as int]);
                }
            }
        }
    }
    Ghost(new_rank)
}

} // verus!

verus! {

/// Only containers that hold a message have a parent.
pub open spec fn placeholders_free(c: Seq<Container>) -> bool {
    forall|x: int| 0 <= x < c.len() && (#[trigger] c[x]).message is None ==> c[x].parent is None
}

/// `x` is among the values of the id table `t`.
pub open spec fn in_table(t: Seq<usize>, x: int) -> bool {
    exists|k: int| 0 <= k < t.len() && t[k] == x
}

/// Every container of `c` is a value of the id table `t`.
pub open spec fn covered(c: Seq<Container>, t: Seq<usize>) -> bool {
    forall|x: int| 0 <= x < c.len() ==> #[trigger] in_table(t, x)
}

proof fn lemma_covered_push(c: Seq<Container>, t: Seq<usize>, c2: Seq<Container>, v: usize)
    requires
        covered(c, t),
        c2.len() <= c.len() + 1,
        c2.len() == c.len() + 1 ==> v == c.len(),
    ensures
        c2.len() <= c.len() ==> covered(c2, t.push(v)),
        c2.len() == c.len() + 1 ==> covered(c2, t.push(v)),
{
    assert forall|x: int| 0 <= x < c2.len() implies #[trigger] in_table(t.push(v), x) by {
        if x < c.len() {
            assert(in_table(t, x));
            let k = choose|k: int| 0 <= k < t.len() && t[k] == x;
            assert(t.push(v)[k] == x);
        } else {
            assert(t.push(v)[t.len() as int] == x);
        }
    }
}

/// Sets the parent of every container in the child list of `p` to `p`.
fn reparent_children(c: &mut Vec<Container>, Ghost(rank): Ghost<Seq<nat>>, Ghost(n): Ghost<nat>, p: usize)
    requires
        arena_wf(old(c)@, rank, n),
        p < old(c)@.len(),
        placeholders_free(old(c)@),
    ensures
        placeholders_free(final(c)@),
        same_links(old(c)@, final(c)@),
        arena_wf(final(c)@, rank, n),
        forall|k: int| 0 <= k < final(c)@.len() ==> #[trigger] final(c)@[k].date == old(c)@[k].date,
{
    let ghost c0 = c@;
    let mut x = match c[p].first_child {
        Some(x) => x,
        None => {
            return ;
        },
    };
    loop
        invariant
            same_links(c0, c@),
            arena_wf(c@, rank, n),
            x < c@.len(),
            p < c@.len(),
            forall|k: int| 0 <= k < c@.len() ==> #[trigger] c@[k].date == c0[k].date,
            placeholders_free(c@),
            c@[x as int].message is Some,
        decreases rank[x as int],
    {
        let ghost before = c@;
        let mut cx = c[x];
        cx.parent = Some(p);
        c.set(x, cx);
        proof {
            assert forall|k: int| 0 <= k < c@.len() implies (#[trigger] c@[k].parent matches Some(
                y,
            ) ==> y < c@.len()) by {
                if k != x {
                    assert(c@[k] == before[k]);
                }
            }
            assert(same_links(before, c@));
            lemma_same_links(before, c@, rank, n);
            assert forall|y: int| 0 <= y < c@.len() && (#[trigger] c@[y]).message is None implies c@[y].parent is None by {
                if y != x {
                    assert(c@[y] == before[y]);
                }
            }
        }
        match cx.next_sibling {
            Some(nx) => {
                assert(edge(c@, x as int, nx as int));
                x = nx;
            },
            None => {
                break ;
            },
        }
    }
}

/// The last container of the child list of `p`, or `p` where it has no
/// child.
fn attach_point(c: &Vec<Container>, Ghost(rank): Ghost<Seq<nat>>, Ghost(n): Ghost<nat>, p: usize) -> (r: usize)
    requires
        arena_wf(c@, rank, n),
        p < c@.len(),
    ensures
        r < c@.len(),
        reaches(c@, p as int, r as int),
        r == p ==> c@[p as int].first_child is None,
        r != p ==> c@[r as int].next_sibling is None,
{
    proof {
        lemma_reach_self(c@, p as int);
    }
    let mut x = match c[p].first_child {
        Some(x) => x,
        None => {
            return p;
        },
    };
    proof {
        assert(edge(c@, p as int, x as int));
        lemma_reach_self(c@, x as int);
        lemma_reach_prepend(c@, p as int, x as int, x as int);
    }
    while c[x].next_sibling.is_some()
        invariant
            arena_wf(c@, rank, n),
            x < c@.len(),
            x != p,
            reaches(c@, p as int, x as int),
        decreases rank[x as int],
    {
        let nx = c[x].next_sibling.unwrap();
        proof {
            assert(edge(c@, x as int, nx as int));
            lemma_reach_extend(c@, p as int, x as int, nx as int);
            if nx == p {
                lemma_path_rank_reach(c@, rank, p as int, x as int);
            }
        }
        x = nx;
    }
    x
}

proof fn lemma_reach_extend(c: Seq<Container>, a: int, x: int, y: int)
    requires
        reaches(c, a, x),
        edge(c, x, y),
    ensures
        reaches(c, a, y),
{
    let p = choose|p: Seq<int>| #[trigger] is_path(c, p) && p[0] == a && p.last() == x;
    let q = p.push(y);
    assert forall|i: int| 0 <= i < q.len() - 1 implies #[trigger] link_at(c, q, i) by {
        if i < p.len() - 1 {
            assert(link_at(c, p, i));
        }
    }
    assert(is_path(c, q));
}

/// In a ranked arena, what lies below `a` has no higher rank.
proof fn lemma_path_rank_reach(c: Seq<Container>, rank: Seq<nat>, a: int, b: int)
    requires
        ranked(c, rank),
        0 <= a < c.len(),
        reaches(c, a, b),
    ensures
        0 <= b < c.len(),
        rank[a] >= rank[b],
        a != b ==> rank[a] > rank[b],
{
    let p = choose|p: Seq<int>| #[trigger] is_path(c, p) && p[0] == a && p.last() == b;
    lemma_path_rank(c, rank, p);
}

/// Ranks after a link from `x` to `curr`: whatever reaches `x` is raised
/// above `curr`.
pub open spec fn raised_rank(c: Seq<Container>, rank: Seq<nat>, x: int, curr: int) -> Seq<nat> {
    Seq::new(
        c.len(),
        |v: int|
            if reaches(c, v, x) {
                rank[v] + rank[curr] + 1
            } else {
                rank[v]
            },
    )
}

proof fn lemma_paths_grow(c1: Seq<Container>, c2: Seq<Container>)
    requires
        forall|a: int, b: int| edge(c1, a, b) ==> #[trigger] edge(c2, a, b),
    ensures
        forall|a: int, b: int| reaches(c1, a, b) ==> #[trigger] reaches(c2, a, b),
{
    assert forall|a: int, b: int| reaches(c1, a, b) implies #[trigger] reaches(c2, a, b) by {
        let pth = choose|q: Seq<int>| #[trigger] is_path(c1, q) && q[0] == a && q.last() == b;
        assert forall|i: int| 0 <= i < pth.len() - 1 implies #[trigger] link_at(c2, pth, i) by {
            assert(link_at(c1, pth, i));
            assert(edge(c1, pth[i], pth[i + 1]));
        }
        assert(is_path(c2, pth));
    }
}

/// Adding the one link `x -> curr` to a well-formed arena where `curr` does
/// not reach `x` keeps it well formed under the raised ranks.
proof fn lemma_add_link(c1: Seq<Container>, c2: Seq<Container>, rank: Seq<nat>, n: nat, x: int, curr: int)
    requires
        arena_wf(c1, rank, n),
        c2.len() == c1.len(),
        0 <= x < c1.len(),
        0 <= curr < c1.len(),
        c1[curr].message is Some,
        !reaches(c1, curr, x),
        forall|a: int, b: int| #[trigger] edge(c2, a, b) <==> edge(c1, a, b) || (a == x && b == curr),
        forall|k: int|
            #![trigger c2[k]]
            0 <= k < c2.len() ==> c2[k].message == c1[k].message && c2[k].id == c1[k].id && (
            c2[k].parent matches Some(y) ==> y < c2.len()),
    ensures
        arena_wf(c2, raised_rank(c1, rank, x, curr), n),
        forall|a: int, b: int| reaches(c1, a, b) ==> #[trigger] reaches(c2, a, b),
{
    let nr = raised_rank(c1, rank, x, curr);
    assert forall|a: int, b: int| #[trigger] edge(c2, a, b) implies b < c2.len() && nr[a] > nr[b] by {
        if edge(c1, a, b) {
            if reaches(c1, b, x) {
                lemma_reach_prepend(c1, a, b, x);
            }
        } else {
            lemma_reach_self(c1, x);
        }
    }
    assert forall|a: int| #![trigger c2[a]] 0 <= a < c2.len() implies {
        &&& c2[a].id == a
        &&& (c2[a].parent matches Some(y) ==> y < c2.len())
        &&& (c2[a].first_child matches Some(y) ==> y < c2.len() && c2[y as int].message is Some)
        &&& (c2[a].next_sibling matches Some(y) ==> y < c2.len() && c2[y as int].message is Some)
        &&& (c2[a].message matches Some(m) ==> m < n)
    } by {
        assert(c1[a] == c1[a]);
        if let Some(y) = c2[a].first_child {
            assert(edge(c2, a, y as int));
            assert(c2[y as int].message == c1[y as int].message);
            if edge(c1, a, y as int) {
                if c1[a].first_child matches Some(z) && z == y {
                } else {
                    assert(c1[a].next_sibling matches Some(z) && z == y);
                }
            }
        }
        if let Some(y) = c2[a].next_sibling {
            assert(edge(c2, a, y as int));
            assert(c2[y as int].message == c1[y as int].message);
            if edge(c1, a, y as int) {
                if c1[a].first_child matches Some(z) && z == y {
                } else {
                    assert(c1[a].next_sibling matches Some(z) && z == y);
                }
            }
        }
    }
    lemma_paths_grow(c1, c2);
}

/// Makes `curr` the last child of `p`, unless either is already below the
/// other or the link would close a cycle. Returns whether it linked.
fn link_child(
    c: &mut Vec<Container>,
    Ghost(rank): Ghost<Seq<nat>>,
    Ghost(n): Ghost<nat>,
    p: usize,
    curr: usize,
) -> (r: (bool, Ghost<Seq<nat>>))
    requires
        arena_wf(old(c)@, rank, n),
        p < old(c)@.len(),
        curr < old(c)@.len(),
        old(c)@[curr as int].message is Some,
        placeholders_free(old(c)@),
    ensures
        placeholders_free(final(c)@),
        arena_wf(final(c)@, r.1@, n),
        final(c)@.len() == old(c)@.len(),
        forall|k: int|
            0 <= k < final(c)@.len() ==> #[trigger] final(c)@[k].message == old(c)@[k].message
                && final(c)@[k].date == old(c)@[k].date,
        (reaches(old(c)@, p as int, curr as int) || reaches(old(c)@, curr as int, p as int))
            ==> !r.0 && final(c)@ == old(c)@,
        !r.0 ==> same_links(old(c)@, final(c)@),
        r.0 ==> final(c)@[curr as int].parent == Some(p) && reaches(
            final(c)@,
            p as int,
            curr as int,
        ),
{
    if is_descendant(c, Ghost(rank), Ghost(n), p, curr) || is_descendant(
        c,
        Ghost(rank),
        Ghost(n),
        curr,
        p,
    ) {
        return (false, Ghost(rank));
    }
    let x = attach_point(c, Ghost(rank), Ghost(n), p);
    if is_descendant(c, Ghost(rank), Ghost(n), curr, x) {
        proof {
            assert(same_links(c@, c@));
        }
        return (false, Ghost(rank));
    }
    let ghost c0 = c@;
    reparent_children(c, Ghost(rank), Ghost(n), p);
    proof {
        lemma_same_links(c0, c@, rank, n);
    }
    let ghost c1 = c@;
    let ghost new_rank = raised_rank(c1, rank, x as int, curr as int);
    if x == p {
        let mut cp = c[p];
        cp.first_child = Some(curr);
        c.set(p, cp);
    } else {
        let mut cx = c[x];
        cx.next_sibling = Some(curr);
        c.set(x, cx);
    }
    let mut cc = c[curr];
    cc.parent = Some(p);
    c.set(curr, cc);
    proof {
        assert(curr != x) by {
            if curr == x {
                lemma_reach_self(c0, curr as int);
            }
        }
        assert forall|a: int, b: int| #[trigger] edge(c@, a, b) <==> edge(c1, a, b) || (a == x
            && b == curr) by {
            if 0 <= a < c@.len() && a != x {
                assert(c@[a].first_child == c1[a].first_child);
                assert(c@[a].next_sibling == c1[a].next_sibling);
            }
        }
        assert forall|k2: int| #![trigger c@[k2]] 0 <= k2 < c@.len() implies c@[k2].message == c1[k2].message
            && c@[k2].id == c1[k2].id && (c@[k2].parent matches Some(y) ==> y < c@.len()) by {
            assert(c1[k2] == c1[k2]);
        }
        lemma_add_link(c1, c@, rank, n, x as int, curr as int);
        assert forall|y: int| 0 <= y < c@.len() && (#[trigger] c@[y]).message is None implies c@[y].parent is None by {
            assert(c1[y] == c1[y]);
            if y != curr {
                assert(c@[y].parent == c1[y].parent);
            }
        }
        assert forall|k2: int| 0 <= k2 < c@.len() implies #[trigger] c@[k2].message == c0[k2].message
            && c@[k2].date == c0[k2].date by {
            assert(c1[k2].message == c0[k2].message);
        }
        assert(edge(c@, x as int, curr as int));
        lemma_reach_self(c@, curr as int);
        if x == p {
            lemma_reach_prepend(c@, p as int, curr as int, curr as int);
        } else {
            assert(reaches(c1, p as int, x as int));
            lemma_reach_extend(c@, p as int, x as int, curr as int);
        }
    }
    (true, Ghost(new_rank))
}

} // verus!

verus! {

/// Stores message `m` (with its date) in the placeholder `t`.
fn set_message(c: &mut Vec<Container>, Ghost(rank): Ghost<Seq<nat>>, Ghost(n): Ghost<nat>, t: usize, m: usize, date: u64)
    requires
        arena_wf(old(c)@, rank, n),
        t < old(c)@.len(),
        m < n,
    ensures
        arena_wf(final(c)@, rank, n),
        final(c)@ == old(c)@.update(t as int, Container { message: Some(m), date, ..old(c)@[t as int] }),
{
    let ghost c0 = c@;
    let mut ct = c[t];
    ct.message = Some(m);
    ct.date = date;
    c.set(t, ct);
    proof {
        assert forall|a: int, b: int| #[trigger] edge(c@, a, b) == edge(c0, a, b) by {
            if 0 <= a < c0.len() {
                assert(c@[a].first_child == c0[a].first_child);
                assert(c@[a].next_sibling == c0[a].next_sibling);
            }
        }
        assert forall|a: int| #![trigger c@[a]] 0 <= a < c@.len() implies {
            &&& c@[a].id == a
            &&& (c@[a].parent matches Some(y) ==> y < c@.len())
            &&& (c@[a].first_child matches Some(y) ==> y < c@.len() && c@[y as int].message is Some)
            &&& (c@[a].next_sibling matches Some(y) ==> y < c@.len() && c@[y as int].message is Some)
            &&& (c@[a].message matches Some(mm) ==> mm < n)
        } by {
            assert(c0[a] == c0[a]);
            if let Some(y) = c@[a].first_child {
                assert(c0[y as int] == c0[y as int]);
            }
            if let Some(y) = c@[a].next_sibling {
                assert(c0[y as int] == c0[y as int]);
            }
        }
    }
}

/// Sets the parent of `k` to `p`.
fn set_parent(c: &mut Vec<Container>, Ghost(rank): Ghost<Seq<nat>>, Ghost(n): Ghost<nat>, k: usize, p: Option<usize>)
    requires
        arena_wf(old(c)@, rank, n),
        k < old(c)@.len(),
        p matches Some(x) ==> x < old(c)@.len(),
    ensures
        arena_wf(final(c)@, rank, n),
        same_links(old(c)@, final(c)@),
        final(c)@ == old(c)@.update(k as int, Container { parent: p, ..old(c)@[k as int] }),
{
    let ghost c0 = c@;
    let mut ck = c[k];
    ck.parent = p;
    c.set(k, ck);
    proof {
        assert forall|j: int| 0 <= j < c@.len() implies (#[trigger] c@[j].parent matches Some(y) ==> y
            < c@.len()) by {
            assert(c0[j] == c0[j]);
        }
        lemma_same_links(c0, c@, rank, n);
    }
}

/// Raises the date of `start` and of its ancestors to at least `date`,
/// following at most as many parent links as there are containers.
fn propagate_date(c: &mut Vec<Container>, Ghost(rank): Ghost<Seq<nat>>, Ghost(n): Ghost<nat>, start: usize, date: u64)
    requires
        arena_wf(old(c)@, rank, n),
        start < old(c)@.len(),
    ensures
        arena_wf(final(c)@, rank, n),
        same_links(old(c)@, final(c)@),
        final(c)@[start as int].date >= date,
        forall|k: int| 0 <= k < final(c)@.len() ==> #[trigger] final(c)@[k].date >= old(c)@[k].date,
        forall|k: int|
            0 <= k < final(c)@.len() ==> (#[trigger] final(c)@[k]).parent == old(c)@[k].parent
                && final(c)@[k].message == old(c)@[k].message,
{
    let ghost c0 = c@;
    let mut cur = start;
    let mut steps: usize = 0;
    let len = c.len();
    while steps < len
        invariant
            arena_wf(c@, rank, n),
            same_links(c0, c@),
            cur < c@.len(),
            start < c@.len(),
            len == c@.len(),
            steps == 0 ==> cur == start,
            steps <= len,
            steps > 0 ==> c@[start as int].date >= date,
            forall|k: int| 0 <= k < c@.len() ==> #[trigger] c@[k].date >= c0[k].date,
            forall|k: int|
                0 <= k < c@.len() ==> (#[trigger] c@[k]).parent == c0[k].parent && c@[k].message
                    == c0[k].message,
        ensures
            forall|k: int|
                0 <= k < c@.len() ==> (#[trigger] c@[k]).parent == c0[k].parent && c@[k].message
                    == c0[k].message,
            steps > 0,
            arena_wf(c@, rank, n),
            same_links(c0, c@),
            start < c@.len(),
            c@[start as int].date >= date,
            forall|k: int| 0 <= k < c@.len() ==> #[trigger] c@[k].date >= c0[k].date,
        decreases len - steps,
    {
        let ghost before = c@;
        let mut cc = c[cur];
        if cc.date < date {
            cc.date = date;
        }
        c.set(cur, cc);
        proof {
            assert forall|j: int| 0 <= j < c@.len() implies (#[trigger] c@[j].parent matches Some(y)
                ==> y < c@.len()) by {
                assert(before[j] == before[j]);
            }
            lemma_same_links(before, c@, rank, n);
            assert forall|k: int| 0 <= k < c@.len() implies #[trigger] c@[k].date >= c0[k].date
                && c@[k].date >= before[k].date by {
                assert(before[k].date >= c0[k].date);
            }
            assert(c@[start as int].date >= before[start as int].date);
            assert forall|k: int| 0 <= k < c@.len() implies (#[trigger] c@[k]).parent == c0[k].parent
                && c@[k].message == c0[k].message by {
                assert(before[k] == before[k]);
            }
            assert(cur == start ==> c@[start as int].date >= date);
        }
        steps += 1;
        match cc.parent {
            Some(p) => {
                cur = p;
            },
            None => {
                break ;
            },
        }
    }
}

/// Message-ID to container index, in order of insertion.
struct IdTable {
    keys: Vec<Vec<u8>>,
    vals: Vec<usize>,
}

impl IdTable {
    spec fn inv(&self, bound: nat) -> bool {
        &&& self.keys@.len() == self.vals@.len()
        &&& forall|i: int| 0 <= i < self.vals@.len() ==> #[trigger] self.vals@[i] < bound
    }

    fn new() -> (r: IdTable)
        ensures
            r.inv(0),
            r.keys@.len() == 0,
    {
        IdTable { keys: Vec::new(), vals: Vec::new() }
    }

    fn get(&self, k: &[u8]) -> (r: Option<usize>)
        requires
            self.keys@.len() == self.vals@.len(),
        ensures
            r matches Some(v) ==> exists|i: int|
                0 <= i < self.vals@.len() && self.keys@[i]@ == k@ && #[trigger] self.vals@[i] == v,
            r is None ==> forall|i: int| 0 <= i < self.keys@.len() ==> #[trigger] self.keys@[i]@ != k@,
    {
        let mut i: usize = 0;
        while i < self.keys.len()
            invariant
                self.keys@.len() == self.vals@.len(),
                i <= self.keys@.len(),
                forall|j: int| 0 <= j < i ==> #[trigger] self.keys@[j]@ != k@,
            decreases self.keys@.len() - i,
        {
            if crate::bytes::bytes_eq(self.keys[i].as_slice(), k) {
                assert(self.vals@[i as int] == self.vals@[i as int]);
                return Some(self.vals[i]);
            }
            i += 1;
        }
        None
    }

    fn insert(&mut self, k: Vec<u8>, v: usize)
        requires
            old(self).keys@.len() == old(self).vals@.len(),
        ensures
            final(self).keys@ == old(self).keys@.push(k),
            final(self).vals@ == old(self).vals@.push(v),
    {
        self.keys.push(k);
        self.vals.push(v);
    }
}

/// The reference a message is threaded under: the last entry of its
/// References, or else its In-Reply-To.
pub open spec fn parent_ref(e: Envelope) -> Option<Seq<u8>> {
    if e.references@.len() > 0 {
        Some(e.references@.last()@)
    } else if e.in_reply_to@.len() > 0 {
        Some(e.in_reply_to@)
    } else {
        None
    }
}

fn parent_ref_of(e: &Envelope) -> (r: Option<&[u8]>)
    ensures
        parent_ref(*e) == match r {
            Some(s) => Some(s@),
            None => None::<Seq<u8>>,
        },
{
    if e.references.len() > 0 {
        Some(e.references[e.references.len() - 1].as_slice())
    } else if e.in_reply_to.len() > 0 {
        Some(e.in_reply_to.as_slice())
    } else {
        None
    }
}

fn set_thread(coll: &mut Vec<Envelope>, i: usize, t: usize)
    requires
        i < old(coll)@.len(),
    ensures
        final(coll)@.len() == old(coll)@.len(),
        forall|j: int|
            0 <= j < final(coll)@.len() ==> (#[trigger] final(coll)@[j]).message_id == old(
                coll,
            )@[j].message_id && final(coll)@[j].references == old(coll)@[j].references
                && final(coll)@[j].in_reply_to == old(coll)@[j].in_reply_to
                && final(coll)@[j].date == old(coll)@[j].date,
{
    let ghost c0 = coll@;
    let mut e = coll.remove(i);
    e.thread = t;
    coll.insert(i, e);
    assert forall|j: int| 0 <= j < coll@.len() implies (#[trigger] coll@[j]).message_id == c0[j].message_id
        && coll@[j].references == c0[j].references && coll@[j].in_reply_to == c0[j].in_reply_to
        && coll@[j].date == c0[j].date by {
        if j != i {
            assert(coll@[j] == c0[j]);
        }
    }
}

/// Envelope `m` of `coll` is the first with its Message-ID.
pub open spec fn first_of_id(coll: Seq<Envelope>, m: int) -> bool {
    forall|j: int| 0 <= j < m ==> (#[trigger] coll[j]).message_id@ != coll[m].message_id@
}

/// No two containers hold the same message.
pub open spec fn messages_distinct(c: Seq<Container>) -> bool {
    forall|x: int, y: int|
        0 <= x < c.len() && 0 <= y < c.len() && x != y && (#[trigger] c[x]).message is Some
            ==> c[x].message != (#[trigger] c[y]).message
}

/// Every message a container holds is below `b`.
pub open spec fn messages_below(c: Seq<Container>, b: int) -> bool {
    forall|x: int| 0 <= x < c.len() && (#[trigger] c[x]).message is Some ==> c[x].message.unwrap() < b
}

/// Every envelope below `b` that is the first of its Message-ID is held by
/// a container.
pub open spec fn placed(c: Seq<Container>, coll: Seq<Envelope>, b: int) -> bool {
    forall|m: int|
        0 <= m < b && #[trigger] first_of_id(coll, m) ==> exists|x: int|
            0 <= x < c.len() && c[x].message == Some(m as usize)
}

/// The containers of `c0` keep their messages in `c1`.
pub open spec fn messages_kept(c0: Seq<Container>, c1: Seq<Container>) -> bool {
    &&& c0.len() <= c1.len()
    &&& forall|x: int| 0 <= x < c0.len() && (#[trigger] c0[x]).message is Some ==> c1[x].message == c0[x].message
}

/// The container filed under each Message-ID of the table holds, if any,
/// a message with that Message-ID.
pub open spec fn keys_match(c: Seq<Container>, keys: Seq<Vec<u8>>, vals: Seq<usize>, coll: Seq<Envelope>) -> bool {
    forall|k: int|
        0 <= k < vals.len() && vals[k] < c.len() && (#[trigger] c[vals[k] as int]).message is Some ==> {
            let m = c[vals[k] as int].message.unwrap() as int;
            &&& 0 <= m < coll.len()
            &&& coll[m].message_id@ == keys[k]@
        }
}

proof fn lemma_placed_kept(c0: Seq<Container>, c1: Seq<Container>, coll: Seq<Envelope>, b: int)
    requires
        placed(c0, coll, b),
        messages_kept(c0, c1),
    ensures
        placed(c1, coll, b),
{
    assert forall|m: int| 0 <= m < b && #[trigger] first_of_id(coll, m) implies exists|x: int|
        0 <= x < c1.len() && c1[x].message == Some(m as usize) by {
        let x = choose|x: int| 0 <= x < c0.len() && c0[x].message == Some(m as usize);
        assert(c1[x].message == c0[x].message);
    }
}

/// Threads one envelope, stored at `i` of the collection: finds or makes
/// its container, then links it under the container of its parent
/// reference.
fn thread_envelope(
    c: &mut Vec<Container>,
    Ghost(rank): Ghost<Seq<nat>>,
    Ghost(n): Ghost<nat>,
    table: &mut IdTable,
    coll: &mut Vec<Envelope>,
    i: usize,
) -> (r: Ghost<Seq<nat>>)
    requires
        arena_wf(old(c)@, rank, n),
        old(table).inv(old(c)@.len()),
        i < old(coll)@.len(),
        i < n,
        placeholders_free(old(c)@),
        covered(old(c)@, old(table).vals@),
        no_dup(old(table).vals@),
        messages_distinct(old(c)@),
        messages_below(old(c)@, i as int),
        keys_match(old(c)@, old(table).keys@, old(table).vals@, old(coll)@),
        placed(old(c)@, old(coll)@, i as int),
    ensures
        placeholders_free(final(c)@),
        covered(final(c)@, final(table).vals@),
        arena_wf(final(c)@, r@, n),
        final(table).inv(final(c)@.len()),
        final(coll)@.len() == old(coll)@.len(),
        final(c)@.len() >= old(c)@.len(),
        no_dup(final(table).vals@),
        messages_distinct(final(c)@),
        messages_below(final(c)@, i + 1),
        keys_match(final(c)@, final(table).keys@, final(table).vals@, final(coll)@),
        placed(final(c)@, final(coll)@, i + 1),
        messages_kept(old(c)@, final(c)@),
        forall|j: int|
            0 <= j < final(coll)@.len() ==> (#[trigger] final(coll)@[j]).message_id == old(
                coll,
            )@[j].message_id,
{
    let ghost c_in = c@;
    let ghost coll_in = coll@;
    let mut rank_g = Ghost(rank);
    let date = coll[i].date;
    let x_index;
    proof {
        assert forall|m: int| 0 <= m < i && #[trigger] first_of_id(coll_in, m) implies exists|x: int|
            0 <= x < c_in.len() && c_in[x].message == Some(m as usize) by {}
    }
    match table.get(coll[i].message_id.as_slice()) {
        Some(t) => {
            if c[t].message.is_some() {
                proof {
                    let k = choose|k: int|
                        0 <= k < table.vals@.len() && table.keys@[k]@ == coll_in[i as int].message_id@
                            && #[trigger] table.vals@[k] == t;
                    assert(c@[table.vals@[k] as int].message is Some);
                    let m = c@[t as int].message.unwrap() as int;
                    assert(coll_in[m].message_id@ == coll_in[i as int].message_id@);
                    assert(c@[t as int].message is Some);
                    assert(m < i);
                    assert(!first_of_id(coll_in, i as int));
                    assert forall|mm: int| 0 <= mm < i + 1 && #[trigger] first_of_id(coll_in, mm) implies exists|x: int|
                        0 <= x < c@.len() && c@[x].message == Some(mm as usize) by {
                        assert(mm < i);
                    }
                    assert(messages_kept(c_in, c@));
                }
                // a second message with the same Message-ID is left out
                return rank_g;
            }
            proof {
                let k = choose|k: int|
                    0 <= k < table.vals@.len() && table.keys@[k]@ == coll_in[i as int].message_id@
                        && #[trigger] table.vals@[k] == t;
                let c0 = c@;
                assert forall|kk: int| 0 <= kk < table.vals@.len() && table.vals@[kk] == t implies kk == k by {
                    if kk != k {
                        if kk < k {
                            assert(table.vals@[kk] != table.vals@[k]);
                        } else {
                            assert(table.vals@[k] != table.vals@[kk]);
                        }
                    }
                }
            }
            let kept_date = if c[t].date > date {
                c[t].date
            } else {
                date
            };
            set_message(c, rank_g, Ghost(n), t, i, kept_date);
            x_index = t;
            proof {
                let k = choose|k: int|
                    0 <= k < table.vals@.len() && table.keys@[k]@ == coll_in[i as int].message_id@
                        && #[trigger] table.vals@[k] == t;
                assert forall|kk: int|
                    0 <= kk < table.vals@.len() && table.vals@[kk] < c@.len() && (#[trigger] c@[table.vals@[kk] as int]).message is Some implies {
                    let m = c@[table.vals@[kk] as int].message.unwrap() as int;
                    &&& 0 <= m < coll_in.len()
                    &&& coll_in[m].message_id@ == table.keys@[kk]@
                } by {
                    if table.vals@[kk] == t {
                        if kk != k {
                            if kk < k {
                                assert(table.vals@[kk] != table.vals@[k]);
                            } else {
                                assert(table.vals@[k] != table.vals@[kk]);
                            }
                        }
                    } else {
                        assert(c@[table.vals@[kk] as int] == c_in[table.vals@[kk] as int]);
                    }
                }
            }
        },
        None => {
            let ghost c_before = c@;
            let ghost t_before = table.vals@;
            x_index = c.len();
            rank_g = push_container(c, rank_g, Ghost(n), Some(i), None, date);
            let key = crate::bytes::copy_bytes(coll[i].message_id.as_slice());
            table.insert(key, x_index);
            proof {
                lemma_covered_push(c_before, t_before, c@, x_index);
                assert forall|a: int, b: int| 0 <= a < b < table.vals@.len() implies table.vals@[a]
                    != table.vals@[b] by {
                    if b == t_before.len() {
                        assert(t_before[a] < c_before.len());
                    }
                }
            }
        },
    }
    let ghost c_mid = c@;
    proof {
        assert(c@[x_index as int].message == Some(i));
        assert(messages_distinct(c@)) by {
            assert forall|x: int, y: int|
                0 <= x < c@.len() && 0 <= y < c@.len() && x != y && (#[trigger] c@[x]).message is Some implies c@[x].message
                != (#[trigger] c@[y]).message by {
                if x != x_index && y != x_index {
                    assert(c@[x] == c_in[x] || c@[x].message == c_in[x].message);
                }
                if x < c_in.len() && x != x_index {
                    assert(c@[x].message == c_in[x].message);
                }
                if y < c_in.len() && y != x_index {
                    assert(c@[y].message == c_in[y].message);
                }
            }
        }
        assert(messages_kept(c_in, c@)) by {
            assert forall|x: int| 0 <= x < c_in.len() && (#[trigger] c_in[x]).message is Some implies c@[x].message
                == c_in[x].message by {
                if x == x_index {
                    assert(c_in[x].message is None);
                }
            }
        }
        lemma_placed_kept(c_in, c@, coll_in, i as int);
        assert(placed(c@, coll_in, i + 1)) by {
            assert forall|m: int| 0 <= m < i + 1 && #[trigger] first_of_id(coll_in, m) implies exists|x: int|
                0 <= x < c@.len() && c@[x].message == Some(m as usize) by {
                if m == i {
                    assert(c@[x_index as int].message == Some(m as usize));
                }
            }
        }
    }
    set_thread(coll, i, x_index);
    let ghost t_keys = table.keys@;
    let ghost t_vals = table.vals@;
    proof {
        assert forall|m: int| 0 <= m < i + 1 && #[trigger] first_of_id(coll@, m) implies exists|x: int|
            0 <= x < c@.len() && c@[x].message == Some(m as usize) by {
            assert forall|j: int| 0 <= j < m implies (#[trigger] coll_in[j]).message_id@ != coll_in[m].message_id@ by {
                assert(coll@[j].message_id == coll_in[j].message_id);
                assert(coll@[m].message_id == coll_in[m].message_id);
            }
            assert(first_of_id(coll_in, m));
        }
        assert forall|k: int|
            0 <= k < t_vals.len() && t_vals[k] < c@.len() && (#[trigger] c@[t_vals[k] as int]).message is Some implies {
            let m = c@[t_vals[k] as int].message.unwrap() as int;
            &&& 0 <= m < coll@.len()
            &&& coll@[m].message_id@ == t_keys[k]@
        } by {
            let m = c@[t_vals[k] as int].message.unwrap() as int;
            assert(coll@[m].message_id == coll_in[m].message_id);
        }
    }
    let r = match parent_ref_of(&coll[i]) {
        Some(r) => crate::bytes::copy_bytes(r),
        None => {
            return rank_g;
        },
    };
    let ghost c_pre = c@;
    let parent_id = match table.get(r.as_slice()) {
        Some(p) => {
            let (_, g) = link_child(c, rank_g, Ghost(n), p, x_index);
            rank_g = g;
            p
        },
        None => {
            let ghost c_before = c@;
            let ghost t_before = table.vals@;
            let idx = c.len();
            rank_g = push_container(c, rank_g, Ghost(n), None, Some(x_index), date);
            if c[x_index].parent.is_none() {
                set_parent(c, rank_g, Ghost(n), x_index, Some(idx));
            }
            table.insert(r, idx);
            proof {
                lemma_covered_push(c_before, t_before, c@, idx);
                assert forall|a: int, b: int| 0 <= a < b < table.vals@.len() implies table.vals@[a]
                    != table.vals@[b] by {
                    if b == t_before.len() {
                        assert(t_before[a] < c_before.len());
                    }
                }
            }
            idx
        },
    };
    propagate_date(c, rank_g, Ghost(n), parent_id, date);
    proof {
        assert forall|x: int| 0 <= x < c_pre.len() implies (#[trigger] c@[x]).message == c_pre[x].message by {}
        assert forall|x: int| c_pre.len() <= x < c@.len() implies (#[trigger] c@[x]).message is None by {}
        assert(messages_distinct(c@)) by {
            assert forall|x: int, y: int|
                0 <= x < c@.len() && 0 <= y < c@.len() && x != y && (#[trigger] c@[x]).message is Some implies c@[x].message
                != (#[trigger] c@[y]).message by {
                if y < c_pre.len() {
                    assert(c@[y].message == c_pre[y].message);
                    assert(c_pre[x].message != c_pre[y].message);
                }
            }
        }
        assert(messages_kept(c_pre, c@));
        assert(messages_kept(c_in, c@)) by {
            assert forall|x: int| 0 <= x < c_in.len() && (#[trigger] c_in[x]).message is Some implies c@[x].message
                == c_in[x].message by {
                assert(c_pre[x].message == c_in[x].message);
            }
        }
        lemma_placed_kept(c_pre, c@, coll@, i + 1);
        assert forall|k: int|
            0 <= k < table.vals@.len() && table.vals@[k] < c@.len() && (#[trigger] c@[table.vals@[k] as int]).message is Some implies {
            let m = c@[table.vals@[k] as int].message.unwrap() as int;
            &&& 0 <= m < coll@.len()
            &&& coll@[m].message_id@ == table.keys@[k]@
        } by {
            let v = table.vals@[k] as int;
            if k < t_vals.len() {
                assert(table.vals@[k] == t_vals[k] && table.keys@[k] == t_keys[k]);
                assert(c_pre[v].message == c@[v].message);
            }
        }
    }
    rank_g
}

} // verus!

verus! {

/// A placeholder that holds no message and has exactly one child.
pub open spec fn promotable(c: Seq<Container>, v: int) -> bool {
    &&& c[v].message is None
    &&& c[v].first_child matches Some(f) && c[f as int].next_sibling is None
}

/// What stands in the root set for a container without parent: the
/// container itself, or its only child where it is a placeholder with one.
pub open spec fn root_for(c: Seq<Container>, v: int) -> int {
    if promotable(c, v) {
        c[v].first_child.unwrap() as int
    } else {
        v
    }
}

/// Sorted by thread date, newest first.
pub open spec fn dates_descending(c: Seq<Container>, r: Seq<usize>) -> bool {
    forall|i: int, j: int| 0 <= i < j < r.len() ==> c[r[i] as int].date >= c[r[j] as int].date
}

/// Inserts `v` into the date-sorted `r` after every root at least as new.
fn insert_by_date(c: &Vec<Container>, r: &mut Vec<usize>, v: usize)
    requires
        forall|i: int| 0 <= i < old(r)@.len() ==> #[trigger] old(r)@[i] < c@.len(),
        v < c@.len(),
        dates_descending(c@, old(r)@),
    ensures
        forall|i: int| 0 <= i < final(r)@.len() ==> #[trigger] final(r)@[i] < c@.len(),
        dates_descending(c@, final(r)@),
        final(r)@.to_multiset() == old(r)@.to_multiset().insert(v),
{
    let mut k: usize = 0;
    while k < r.len() && c[r[k]].date >= c[v].date
        invariant
            k <= r@.len(),
            v < c@.len(),
            forall|i: int| 0 <= i < r@.len() ==> #[trigger] r@[i] < c@.len(),
            forall|i: int| 0 <= i < k ==> c@[#[trigger] r@[i] as int].date >= c@[v as int].date,
        decreases r@.len() - k,
    {
        k += 1;
    }
    let ghost r0 = r@;
    r.insert(k, v);
    proof {
        vstd::seq_lib::to_multiset_insert(r0, k as int, v);
        assert forall|i: int, j: int| 0 <= i < j < r@.len() implies c@[r@[i] as int].date
            >= c@[r@[j] as int].date by {
            if j < k {
                assert(r@[i] == r0[i] && r@[j] == r0[j]);
            } else if j == k {
                assert(r@[i] == r0[i]);
            } else if i < k {
                assert(r@[i] == r0[i] && r@[j] == r0[j - 1]);
                assert(c@[r0[i] as int].date >= c@[v as int].date);
                assert(c@[v as int].date > c@[r0[k as int] as int].date);
                assert(c@[r0[k as int] as int].date >= c@[r0[j - 1] as int].date);
            } else if i == k {
                assert(r@[j] == r0[j - 1]);
                assert(c@[v as int].date > c@[r0[k as int] as int].date);
                if j - 1 > k {
                    assert(c@[r0[k as int] as int].date >= c@[r0[j - 1] as int].date);
                }
            } else {
                assert(r@[i] == r0[i - 1] && r@[j] == r0[j - 1]);
            }
        }
    }
}

/// The root set: for each container of the table without a parent, the
/// container or, where it is a placeholder with one child, that child;
/// sorted by date, newest first.
fn derive_root_set(c: &Vec<Container>, Ghost(rank): Ghost<Seq<nat>>, Ghost(n): Ghost<nat>, table: &IdTable) -> (r: Vec<usize>)
    requires
        arena_wf(c@, rank, n),
        table.inv(c@.len() as nat),
        placeholders_free(c@),
        covered(c@, table.vals@),
    ensures
        forall|x: int|
            0 <= x < c@.len() && #[trigger] promotable(c@, x) ==> r@.contains(
                c@[x].first_child.unwrap(),
            ),
        forall|i: int| 0 <= i < r@.len() ==> #[trigger] r@[i] < c@.len(),
        forall|i: int| 0 <= i < r@.len() ==> !promotable(c@, #[trigger] r@[i] as int),
        dates_descending(c@, r@),
        forall|v: usize| #[trigger] r@.to_multiset().count(v) <= 1,
        forall|t: int|
            0 <= t < table.vals@.len() && c@[#[trigger] table.vals@[t] as int].parent is None
                ==> r@.contains(root_for(c@, table.vals@[t] as int) as usize),
{
    let mut r: Vec<usize> = Vec::new();
    proof {
        broadcast use vstd::seq_lib::group_to_multiset_ensures;
        assert forall|v: usize| #[trigger] r@.to_multiset().count(v) <= 1 by {
            assert(r@.to_multiset() =~= Multiset::empty());
        }
    }
    let mut t: usize = 0;
    while t < table.vals.len()
        invariant
            arena_wf(c@, rank, n),
            table.inv(c@.len() as nat),
            t <= table.vals@.len(),
            forall|i: int| 0 <= i < r@.len() ==> #[trigger] r@[i] < c@.len(),
            forall|i: int| 0 <= i < r@.len() ==> !promotable(c@, #[trigger] r@[i] as int),
            dates_descending(c@, r@),
            forall|v: usize| #[trigger] r@.to_multiset().count(v) <= 1,
            forall|u: int|
                0 <= u < t && c@[#[trigger] table.vals@[u] as int].parent is None ==> r@.contains(
                    root_for(c@, table.vals@[u] as int) as usize,
                ),
        decreases table.vals@.len() - t,
    {
        let v = table.vals[t];
        assert(table.vals@[t as int] < c@.len());
        if c[v].parent.is_none() {
            let cv = c[v];
            let pick = match cv.first_child {
                Some(f) => if cv.message.is_none() && c[f].next_sibling.is_none() {
                    f
                } else {
                    v
                },
                None => v,
            };
            assert(pick as int == root_for(c@, v as int));
            assert(!promotable(c@, pick as int)) by {
                if pick != v {
                    assert(c@[v as int].first_child == Some(pick));
                }
            }
            let ghost r0 = r@;
            if contains_index(&r, pick) {
                proof {
                    assert forall|u: int|
                        0 <= u <= t && c@[#[trigger] table.vals@[u] as int].parent is None implies r@.contains(
                            root_for(c@, table.vals@[u] as int) as usize,
                        ) by {}
                }
            } else {
            insert_by_date(c, &mut r, pick);
            proof {
                broadcast use vstd::seq_lib::group_to_multiset_ensures;
                assert forall|v: usize| #[trigger] r@.to_multiset().count(v) <= 1 by {
                    vstd::seq_lib::to_multiset_contains(r0, pick);
                }
                assert forall|i: int| 0 <= i < r@.len() implies !promotable(c@, #[trigger] r@[i] as int) by {
                    assert(r@.contains(r@[i]));
                    assert(r@.to_multiset().count(r@[i]) > 0);
                    if r@[i] != pick {
                        assert(r0.to_multiset().count(r@[i]) > 0);
                        assert(r0.contains(r@[i]));
                        let j = choose|j: int| 0 <= j < r0.len() && r0[j] == r@[i];
                        assert(!promotable(c@, r0[j] as int));
                    }
                }
                assert(r@.to_multiset().count(pick) > 0);
                assert forall|u: int|
                    0 <= u <= t && c@[#[trigger] table.vals@[u] as int].parent is None implies r@.contains(
                        root_for(c@, table.vals@[u] as int) as usize,
                    ) by {
                    if u < t {
                        let w = root_for(c@, table.vals@[u] as int) as usize;
                        assert(r0.contains(w));
                        assert(r0.to_multiset().count(w) > 0);
                        assert(r@.to_multiset().count(w) > 0);
                    }
                }
            }
            }
        }
        t += 1;
    }
    proof {
        assert forall|x: int| 0 <= x < c@.len() && #[trigger] promotable(c@, x) implies r@.contains(
            c@[x].first_child.unwrap(),
        ) by {
            assert(in_table(table.vals@, x));
            let k = choose|k: int| 0 <= k < table.vals@.len() && table.vals@[k] == x;
            assert(c@[x].message is None);
            assert(c@[table.vals@[k] as int].parent is None);
            assert(root_for(c@, table.vals@[k] as int) == c@[x].first_child.unwrap() as int);
        }
    }
    r
}

} // verus!

verus! {

/// Byte-wise lexicographic order.
pub open spec fn lex_lt(a: Seq<u8>, b: Seq<u8>) -> bool
    decreases a.len(),
{
    if a.len() == 0 {
        b.len() > 0
    } else if b.len() == 0 {
        false
    } else if a[0] != b[0] {
        a[0] < b[0]
    } else {
        lex_lt(a.drop_first(), b.drop_first())
    }
}

proof fn lemma_lex_asym(a: Seq<u8>, b: Seq<u8>)
    requires
        lex_lt(a, b),
    ensures
        !lex_lt(b, a),
    decreases a.len(),
{
    if a.len() > 0 && b.len() > 0 && a[0] == b[0] {
        lemma_lex_asym(a.drop_first(), b.drop_first());
    }
}

proof fn lemma_lex_trans(a: Seq<u8>, b: Seq<u8>, d: Seq<u8>)
    requires
        lex_lt(a, b),
        lex_lt(b, d),
    ensures
        lex_lt(a, d),
    decreases a.len(),
{
    if a.len() > 0 && b.len() > 0 && d.len() > 0 && a[0] == b[0] && b[0] == d[0] {
        lemma_lex_trans(a.drop_first(), b.drop_first(), d.drop_first());
    }
}

/// Compares two byte strings in lexicographic order.
fn lex_less(a: &[u8], b: &[u8]) -> (r: bool)
    ensures
        r == lex_lt(a@, b@),
{
    let mut i: usize = 0;
    assert(a@.subrange(0, a@.len() as int) =~= a@);
    assert(b@.subrange(0, b@.len() as int) =~= b@);
    while i < a.len() && i < b.len() && a[i] == b[i]
        invariant
            i <= a@.len(),
            i <= b@.len(),
            lex_lt(a@, b@) == lex_lt(
                a@.subrange(i as int, a@.len() as int),
                b@.subrange(i as int, b@.len() as int),
            ),
        decreases a@.len() - i,
    {
        assert(a@.subrange(i as int, a@.len() as int).drop_first() =~= a@.subrange(
            i + 1,
            a@.len() as int,
        ));
        assert(b@.subrange(i as int, b@.len() as int).drop_first() =~= b@.subrange(
            i + 1,
            b@.len() as int,
        ));
        i += 1;
    }
    if i == a.len() {
        i < b.len()
    } else if i == b.len() {
        false
    } else {
        a[i] < b[i]
    }
}

/// The subject a container is ordered by: its message's, or empty for a
/// placeholder (or a message outside the collection).
pub open spec fn subject_key(c: Seq<Container>, coll: Seq<Envelope>, id: int) -> Seq<u8> {
    match c[id].message {
        Some(m) => if m < coll.len() {
            coll[m as int].subject@
        } else {
            Seq::empty()
        },
        None => Seq::empty(),
    }
}

/// Container `a` must be shown before container `b` under `key`.
pub open spec fn node_before(
    c: Seq<Container>,
    coll: Seq<Envelope>,
    key: (SortField, SortOrder),
    a: int,
    b: int,
) -> bool {
    match key {
        (SortField::Date, SortOrder::Asc) => c[a].date < c[b].date,
        (SortField::Date, SortOrder::Desc) => c[a].date > c[b].date,
        (SortField::Subject, SortOrder::Asc) => lex_lt(
            subject_key(c, coll, a),
            subject_key(c, coll, b),
        ),
        (SortField::Subject, SortOrder::Desc) => lex_lt(
            subject_key(c, coll, b),
            subject_key(c, coll, a),
        ),
    }
}

proof fn lemma_before_order(
    c: Seq<Container>,
    coll: Seq<Envelope>,
    key: (SortField, SortOrder),
    a: int,
    b: int,
    d: int,
)
    ensures
        node_before(c, coll, key, a, b) ==> !node_before(c, coll, key, b, a),
        node_before(c, coll, key, a, b) && node_before(c, coll, key, b, d) ==> node_before(
            c,
            coll,
            key,
            a,
            d,
        ),
{
    let (ka, kb, kd) = (subject_key(c, coll, a), subject_key(c, coll, b), subject_key(c, coll, d));
    if lex_lt(ka, kb) {
        lemma_lex_asym(ka, kb);
    }
    if lex_lt(kb, ka) {
        lemma_lex_asym(kb, ka);
    }
    if lex_lt(ka, kb) && lex_lt(kb, kd) {
        lemma_lex_trans(ka, kb, kd);
    }
    if lex_lt(kd, kb) && lex_lt(kb, ka) {
        lemma_lex_trans(kd, kb, ka);
    }
}

/// One node of the presentation tree: a container and, where it has
/// children, their subtrees; `len` counts the messages of the subtree.
#[derive(Debug)]
pub struct ContainerTree {
    pub id: usize,
    pub children: Vec<ContainerTree>,
    pub len: usize,
    pub has_unseen: bool,
}

/// Ids of the nodes of `v`, in order.
pub open spec fn node_ids(v: Seq<ContainerTree>) -> Seq<usize> {
    v.map_values(|t: ContainerTree| t.id)
}

/// No node of `v` is shown after one that must come after it.
pub open spec fn nodes_sorted(
    c: Seq<Container>,
    coll: Seq<Envelope>,
    key: (SortField, SortOrder),
    v: Seq<ContainerTree>,
) -> bool {
    forall|i: int, j: int|
        0 <= i < j < v.len() ==> !node_before(c, coll, key, v[j].id as int, v[i].id as int)
}

/// Every node of `v` names a container.
pub open spec fn nodes_ok(c: Seq<Container>, v: Seq<ContainerTree>) -> bool {
    forall|i: int| 0 <= i < v.len() ==> #[trigger] v[i].id < c.len()
}

/// Does container `a` come before container `b` under `key`?
fn before(c: &Vec<Container>, coll: &[Envelope], key: (SortField, SortOrder), a: usize, b: usize) -> (r: bool)
    requires
        a < c@.len(),
        b < c@.len(),
    ensures
        r == node_before(c@, coll@, key, a as int, b as int),
{
    match key {
        (SortField::Date, SortOrder::Asc) => c[a].date < c[b].date,
        (SortField::Date, SortOrder::Desc) => c[a].date > c[b].date,
        (SortField::Subject, order) => {
            let empty: Vec<u8> = Vec::new();
            let sa: &[u8] = match c[a].message {
                Some(m) => if m < coll.len() {
                    coll[m].subject.as_slice()
                } else {
                    empty.as_slice()
                },
                None => empty.as_slice(),
            };
            let sb: &[u8] = match c[b].message {
                Some(m) => if m < coll.len() {
                    coll[m].subject.as_slice()
                } else {
                    empty.as_slice()
                },
                None => empty.as_slice(),
            };
            assert(sa@ == subject_key(c@, coll@, a as int));
            assert(sb@ == subject_key(c@, coll@, b as int));
            match order {
                SortOrder::Asc => lex_less(sa, sb),
                SortOrder::Desc => lex_less(sb, sa),
            }
        },
    }
}

/// Sorts the nodes `v` by `key`; nodes that compare equal keep their order.
fn sort_nodes(c: &Vec<Container>, coll: &[Envelope], key: (SortField, SortOrder), v: Vec<ContainerTree>) -> (r: Vec<ContainerTree>)
    requires
        nodes_ok(c@, v@),
    ensures
        nodes_ok(c@, r@),
        nodes_sorted(c@, coll@, key, r@),
        r@.to_multiset() == v@.to_multiset(),
{
    broadcast use vstd::seq_lib::group_to_multiset_ensures;

    let mut v = v;
    let ghost v0 = v@;
    let mut r: Vec<ContainerTree> = Vec::new();
    while v.len() > 0
        invariant
            nodes_ok(c@, v@),
            nodes_ok(c@, r@),
            nodes_sorted(c@, coll@, key, r@),
            r@.to_multiset().add(v@.to_multiset()) == v0.to_multiset(),
        decreases v@.len(),
    {
        let ghost vb = v@;
        let x = v.remove(0);
        assert(vb[0] == x);
        proof {
            vstd::seq_lib::to_multiset_remove(vb, 0);
            assert(vb.remove(0) == v@);
            assert(vb.contains(x));
            vstd::seq_lib::to_multiset_contains(vb, x);
        }
        let mut k: usize = 0;
        while k < r.len() && !before(c, coll, key, x.id, r[k].id)
            invariant
                k <= r@.len(),
                nodes_ok(c@, r@),
                x.id < c@.len(),
                forall|j: int|
                    0 <= j < k ==> !node_before(c@, coll@, key, x.id as int, #[trigger] r@[j].id as int),
            decreases r@.len() - k,
        {
            k += 1;
        }
        let ghost r0 = r@;
        r.insert(k, x);
        proof {
            assert forall|i: int, j: int| 0 <= i < j < r@.len() implies !node_before(
                c@,
                coll@,
                key,
                r@[j].id as int,
                r@[i].id as int,
            ) by {
                if j < k {
                    assert(r@[i] == r0[i] && r@[j] == r0[j]);
                } else if j == k {
                    assert(r@[i] == r0[i]);
                } else if i < k {
                    assert(r@[i] == r0[i] && r@[j] == r0[j - 1]);
                } else if i == k {
                    assert(r@[j] == r0[j - 1]);
                    lemma_before_order(c@, coll@, key, x.id as int, r0[k as int].id as int, 0);
                    if j - 1 > k {
                        lemma_before_order(
                            c@,
                            coll@,
                            key,
                            r0[j - 1].id as int,
                            x.id as int,
                            r0[k as int].id as int,
                        );
                    }
                } else {
                    assert(r@[i] == r0[i - 1] && r@[j] == r0[j - 1]);
                }
            }
            assert forall|i: int| 0 <= i < r@.len() implies #[trigger] r@[i].id < c@.len() by {
                if i < k {
                    assert(r@[i] == r0[i]);
                } else if i > k {
                    assert(r@[i] == r0[i - 1]);
                }
            }
            vstd::seq_lib::to_multiset_insert(r0, k as int, x);
            assert(r@.to_multiset() == r0.to_multiset().insert(x));
            assert(r@.to_multiset().add(v@.to_multiset()) =~= r0.to_multiset().add(vb.to_multiset()));
        }
    }
    assert(v@.to_multiset() =~= Multiset::empty());
    assert(r@.to_multiset() =~= r@.to_multiset().add(v@.to_multiset()));
    r
}

} // verus!

verus! {

/// A reply's subject repeats its thread root's: equal, or `Re: ` followed by
/// text that ends with it.
pub open spec fn repeats_subject(s: Seq<u8>, root: Seq<u8>) -> bool {
    s == root || (crate::bytes::has_prefix(s, "Re: ".spec_bytes()) && crate::bytes::has_suffix(
        s,
        root,
    ))
}

fn subject_repeats(s: &[u8], root: &[u8]) -> (r: bool)
    ensures
        r == repeats_subject(s@, root@),
{
    crate::bytes::bytes_eq(s, root) || (crate::bytes::starts_with(s, "Re: ".as_bytes())
        && crate::bytes::ends_with(s, root))
}

fn contains_index(v: &Vec<usize>, x: usize) -> (r: bool)
    ensures
        r == v@.contains(x),
{
    let mut i: usize = 0;
    while i < v.len()
        invariant
            i <= v@.len(),
            forall|j: int| 0 <= j < i ==> v@[j] != x,
        decreases v@.len() - i,
    {
        if v[i] == x {
            return true;
        }
        i += 1;
    }
    false
}

/// The arenas agree on everything but parents, indentation and subject
/// display.
pub open spec fn same_shape(c1: Seq<Container>, c2: Seq<Container>) -> bool {
    &&& same_links(c1, c2)
    &&& forall|k: int| 0 <= k < c1.len() ==> #[trigger] c2[k].date == c1[k].date
}

fn set_display(c: &mut Vec<Container>, Ghost(rank): Ghost<Seq<nat>>, Ghost(n): Ghost<nat>, i: usize, indentation: usize, show: bool)
    requires
        arena_wf(old(c)@, rank, n),
        i < old(c)@.len(),
    ensures
        arena_wf(final(c)@, rank, n),
        same_shape(old(c)@, final(c)@),
        final(c)@ == old(c)@.update(
            i as int,
            Container { indentation, show_subject: show, ..old(c)@[i as int] },
        ),
{
    let ghost c0 = c@;
    let mut ci = c[i];
    ci.indentation = indentation;
    ci.show_subject = show;
    c.set(i, ci);
    proof {
        assert forall|j: int| 0 <= j < c@.len() implies (#[trigger] c@[j].parent matches Some(y) ==> y
            < c@.len()) by {
            assert(c0[j] == c0[j]);
        }
        lemma_same_links(c0, c@, rank, n);
    }
}

/// No entry of `v` repeats.
pub open spec fn no_dup(v: Seq<usize>) -> bool {
    forall|i: int, j: int| 0 <= i < j < v.len() ==> v[i] != v[j]
}

/// Builds the presentation subtree of container `i` in the thread whose
/// root is `root`, appending the messages met to `threaded`: indentation
/// grows by one below each message, subjects that repeat the root's are
/// hidden, and a parent link to a placeholder is dropped.
fn build_threaded(
    c: &mut Vec<Container>,
    Ghost(rank): Ghost<Seq<nat>>,
    Ghost(n): Ghost<nat>,
    threaded: &mut Vec<usize>,
    i: usize,
    root: usize,
    indentation: usize,
    coll: &[Envelope],
) -> (t: ContainerTree)
    requires
        arena_wf(old(c)@, rank, n),
        i < old(c)@.len(),
        root < old(c)@.len(),
        forall|k: int|
            0 <= k < old(threaded)@.len() ==> #[trigger] old(threaded)@[k] < old(c)@.len()
                && old(c)@[old(threaded)@[k] as int].message is Some,
        no_dup(old(threaded)@),
    ensures
        arena_wf(final(c)@, rank, n),
        same_shape(old(c)@, final(c)@),
        forall|k: int|
            0 <= k < final(threaded)@.len() ==> #[trigger] final(threaded)@[k] < final(c)@.len()
                && final(c)@[final(threaded)@[k] as int].message is Some,
        no_dup(final(threaded)@),
        t.id == i,
        t.len >= 1,
        nodes_ok(final(c)@, t.children@),
    decreases rank[i as int],
{
    let ghost c0 = c@;
    let thread = c[i];
    let mut has_unseen = false;
    let mut show = thread.show_subject;
    if let Some(m) = thread.message {
        if m < coll.len() {
            has_unseen = !coll[m].is_seen();
            if indentation > 0 {
                if let Some(rm) = c[root].message {
                    if rm < coll.len() && subject_repeats(
                        coll[m].subject.as_slice(),
                        coll[rm].subject.as_slice(),
                    ) {
                        show = false;
                    }
                }
            }
        }
    }
    if let Some(p) = thread.parent {
        if c[p].message.is_none() {
            set_parent(c, Ghost(rank), Ghost(n), i, None);
        }
    }
    let next_indentation = if thread.message.is_some() {
        set_display(c, Ghost(rank), Ghost(n), i, indentation, show);
        if !contains_index(threaded, i) {
            let ghost t0 = threaded@;
            threaded.push(i);
            assert(no_dup(threaded@)) by {
                assert forall|a: int, b: int| 0 <= a < b < threaded@.len() implies threaded@[a]
                    != threaded@[b] by {
                    if b == t0.len() {
                        assert(t0[a] == threaded@[a]);
                        assert(t0.contains(t0[a]));
                    }
                }
            }
        }
        indentation.saturating_add(1)
    } else {
        set_display(c, Ghost(rank), Ghost(n), i, c[i].indentation, show);
        if indentation > 0 {
            indentation
        } else {
            1
        }
    };
    let ghost c1 = c@;
    let mut len: usize = 1;
    let children = match thread.first_child {
        None => Vec::new(),
        Some(first) => {
            let mut child_vec: Vec<ContainerTree> = Vec::new();
            let mut fc = first;
            assert(edge(c@, i as int, fc as int));
            loop
                invariant
                    arena_wf(c@, rank, n),
                    same_shape(c0, c@),
                    fc < c@.len(),
                    i < c@.len(),
                    root < c@.len(),
                    rank[fc as int] < rank[i as int],
                    no_dup(threaded@),
                    len >= 1,
                    nodes_ok(c@, child_vec@),
                    forall|k: int|
                        0 <= k < threaded@.len() ==> #[trigger] threaded@[k] < c@.len()
                            && c@[threaded@[k] as int].message is Some,
                decreases rank[fc as int],
            {
                let ghost cb = c@;
                let child = build_threaded(c, Ghost(rank), Ghost(n), threaded, fc, root, next_indentation, coll);
                has_unseen = has_unseen || child.has_unseen;
                len = len.saturating_add(child.len);
                child_vec.push(child);
                proof {
                    assert forall|k: int| 0 <= k < child_vec@.len() implies #[trigger] child_vec@[k].id
                        < c@.len() by {
                        if k < child_vec@.len() - 1 {
                            assert(child_vec@[k].id < cb.len());
                        }
                    }
                    assert forall|k: int| 0 <= k < c0.len() implies #[trigger] c@[k].date == c0[k].date by {
                        assert(cb[k].date == c0[k].date);
                    }
                }
                match c[fc].next_sibling {
                    Some(ns) => {
                        assert(cb[fc as int].next_sibling == c@[fc as int].next_sibling);
                        assert(edge(cb, fc as int, ns as int));
                        fc = ns;
                    },
                    None => {
                        break ;
                    },
                }
            }
            child_vec
        },
    };
    ContainerTree { id: i, children, len, has_unseen }
}

/// Settles the parent links and the display order once the presentation
/// tree is built: roots have no parent, no container keeps a placeholder
/// as its parent, and every container with a message is in the display
/// order.
fn finish_arena(
    c: &mut Vec<Container>,
    Ghost(rank): Ghost<Seq<nat>>,
    Ghost(n): Ghost<nat>,
    roots: &Vec<usize>,
    threaded: &mut Vec<usize>,
)
    requires
        arena_wf(old(c)@, rank, n),
        forall|i: int| 0 <= i < roots@.len() ==> #[trigger] roots@[i] < old(c)@.len(),
        forall|k: int|
            0 <= k < old(threaded)@.len() ==> #[trigger] old(threaded)@[k] < old(c)@.len()
                && old(c)@[old(threaded)@[k] as int].message is Some,
        no_dup(old(threaded)@),
    ensures
        arena_wf(final(c)@, rank, n),
        same_shape(old(c)@, final(c)@),
        forall|i: int| 0 <= i < roots@.len() ==> final(c)@[#[trigger] roots@[i] as int].parent is None,
        forall|x: int|
            0 <= x < final(c)@.len() && (#[trigger] final(c)@[x]).parent is Some
                ==> final(c)@[final(c)@[x].parent.unwrap() as int].message is Some,
        forall|x: int|
            0 <= x < final(c)@.len() && (#[trigger] final(c)@[x]).message is Some
                ==> final(threaded)@.contains(x as usize),
        forall|k: int|
            0 <= k < final(threaded)@.len() ==> #[trigger] final(threaded)@[k] < final(c)@.len()
                && final(c)@[final(threaded)@[k] as int].message is Some,
        no_dup(final(threaded)@),
{
    let ghost c0 = c@;
    let mut k: usize = 0;
    while k < roots.len()
        invariant
            k <= roots@.len(),
            arena_wf(c@, rank, n),
            same_shape(c0, c@),
            forall|i: int| 0 <= i < roots@.len() ==> #[trigger] roots@[i] < c@.len(),
            forall|i: int| 0 <= i < k ==> c@[#[trigger] roots@[i] as int].parent is None,
        decreases roots@.len() - k,
    {
        let ghost cb = c@;
        set_parent(c, Ghost(rank), Ghost(n), roots[k], None);
        proof {
            assert forall|i: int| 0 <= i < k + 1 implies c@[#[trigger] roots@[i] as int].parent is None by {
                if roots@[i] != roots@[k as int] {
                    assert(c@[roots@[i] as int] == cb[roots@[i] as int]);
                }
            }
            assert forall|y: int| 0 <= y < c0.len() implies #[trigger] c@[y].date == c0[y].date by {
                assert(cb[y].date == c0[y].date);
            }
        }
        k += 1;
    }
    let len = c.len();
    let mut x: usize = 0;
    while x < len
        invariant
            x <= len,
            len == c@.len(),
            arena_wf(c@, rank, n),
            same_shape(c0, c@),
            forall|i: int| 0 <= i < roots@.len() ==> #[trigger] roots@[i] < c@.len(),
            forall|i: int| 0 <= i < roots@.len() ==> c@[#[trigger] roots@[i] as int].parent is None,
            forall|y: int|
                0 <= y < x && (#[trigger] c@[y]).parent is Some ==> c@[c@[y].parent.unwrap() as int].message is Some,
            forall|y: int| 0 <= y < x && (#[trigger] c@[y]).message is Some ==> threaded@.contains(y as usize),
            forall|kk: int|
                0 <= kk < threaded@.len() ==> #[trigger] threaded@[kk] < c@.len()
                    && c@[threaded@[kk] as int].message is Some,
            no_dup(threaded@),
        decreases len - x,
    {
        let ghost cb = c@;
        match c[x].parent {
            Some(p) => {
                if c[p].message.is_none() {
                    set_parent(c, Ghost(rank), Ghost(n), x, None);
                }
            },
            None => {},
        }
        proof {
            assert forall|y: int| 0 <= y < c0.len() implies #[trigger] c@[y].date == c0[y].date by {
                assert(cb[y].date == c0[y].date);
            }
            assert forall|y: int| 0 <= y < c@.len() && y != x implies #[trigger] c@[y] == cb[y] by {}
            assert forall|i: int| 0 <= i < roots@.len() implies c@[#[trigger] roots@[i] as int].parent is None by {
                assert(cb[roots@[i] as int].parent is None);
            }
        }
        if c[x].message.is_some() && !contains_index(threaded, x) {
            let ghost t0 = threaded@;
            threaded.push(x);
            proof {
                assert forall|a: int, b: int| 0 <= a < b < threaded@.len() implies threaded@[a] != threaded@[b] by {
                    if b == t0.len() {
                        assert(t0[a] == threaded@[a]);
                        assert(t0.contains(t0[a]));
                    }
                }
                assert forall|y: int| 0 <= y < x && (#[trigger] c@[y]).message is Some implies threaded@.contains(y as usize) by {
                    let q = choose|q: int| 0 <= q < t0.len() && t0[q] == y as usize;
                    assert(threaded@[q] == y as usize);
                }
                assert(threaded@[t0.len() as int] == x);
            }
        }
        proof {
            assert forall|kk: int|
                0 <= kk < threaded@.len() implies #[trigger] threaded@[kk] < c@.len()
                    && c@[threaded@[kk] as int].message is Some by {
                assert(c@[threaded@[kk] as int].message == cb[threaded@[kk] as int].message);
            }
            assert forall|y: int|
                0 <= y < x + 1 && (#[trigger] c@[y]).parent is Some implies c@[c@[y].parent.unwrap() as int].message is Some by {
                if y < x {
                    assert(c@[y] == cb[y]);
                    assert(c@[cb[y].parent.unwrap() as int].message == cb[cb[y].parent.unwrap() as int].message);
                }
            }
            assert forall|y: int| 0 <= y < x + 1 && (#[trigger] c@[y]).message is Some implies threaded@.contains(y as usize) by {
                if y < x {
                    assert(c@[y].message == cb[y].message);
                }
            }
        }
        x += 1;
    }
}

/// Where following parent links from `x` ends (at most `fuel` links), and
/// how many links that took.
pub open spec fn root_walk(c: Seq<Container>, x: int, fuel: nat) -> (int, nat)
    decreases fuel,
{
    if fuel == 0 || !(0 <= x < c.len()) || c[x].parent is None {
        (x, 0)
    } else {
        let w = root_walk(c, c[x].parent.unwrap() as int, (fuel - 1) as nat);
        (w.0, w.1 + 1)
    }
}

/// Whether message container `x`, `d` links below its thread root `r`,
/// shows its subject: not where it repeats the root's subject.
pub open spec fn shows_subject(c: Seq<Container>, coll: Seq<Envelope>, x: int, r: int, d: nat) -> bool {
    !(d > 0 && 0 <= r < c.len() && c[r].message is Some && c[x].message is Some && c[x].message.unwrap()
        < coll.len() && c[r].message.unwrap() < coll.len() && repeats_subject(
        coll[c[x].message.unwrap() as int].subject@,
        coll[c[r].message.unwrap() as int].subject@,
    ))
}

/// The display of each message container: its indentation is the number
/// of parent links up to its thread root, and it hides its subject where
/// that repeats the root's.
pub open spec fn display_right(c: Seq<Container>, parents: Seq<Container>, coll: Seq<Envelope>) -> bool {
    forall|x: int|
        0 <= x < c.len() && (#[trigger] c[x]).message is Some ==> {
            let w = root_walk(parents, x, parents.len() as nat);
            &&& c[x].indentation == w.1
            &&& c[x].show_subject == shows_subject(parents, coll, x, w.0, w.1)
        }
}

proof fn lemma_root_walk_same(c1: Seq<Container>, c2: Seq<Container>, x: int, fuel: nat)
    requires
        c1.len() == c2.len(),
        forall|y: int| 0 <= y < c1.len() ==> (#[trigger] c2[y]).parent == c1[y].parent,
    ensures
        root_walk(c1, x, fuel) == root_walk(c2, x, fuel),
    decreases fuel,
{
    if fuel > 0 && 0 <= x < c1.len() && c1[x].parent is Some {
        assert(c2[x].parent == c1[x].parent);
        lemma_root_walk_same(c1, c2, c1[x].parent.unwrap() as int, (fuel - 1) as nat);
    } else if 0 <= x < c1.len() {
        assert(c2[x].parent == c1[x].parent);
    }
}

/// Sets the indentation and subject display of every message container
/// from its parent links.
fn display_pass(c: &mut Vec<Container>, Ghost(rank): Ghost<Seq<nat>>, Ghost(n): Ghost<nat>, coll: &[Envelope])
    requires
        arena_wf(old(c)@, rank, n),
    ensures
        arena_wf(final(c)@, rank, n),
        same_shape(old(c)@, final(c)@),
        forall|x: int| 0 <= x < final(c)@.len() ==> (#[trigger] final(c)@[x]).parent == old(c)@[x].parent,
        display_right(final(c)@, old(c)@, coll@),
{
    let ghost c0 = c@;
    let len = c.len();
    let mut x: usize = 0;
    while x < len
        invariant
            x <= len,
            len == c@.len(),
            c0.len() == len,
            arena_wf(c@, rank, n),
            same_shape(c0, c@),
            forall|y: int| 0 <= y < c@.len() ==> (#[trigger] c@[y]).parent == c0[y].parent,
            forall|y: int|
                0 <= y < x && (#[trigger] c@[y]).message is Some ==> {
                    let w = root_walk(c0, y, c0.len() as nat);
                    &&& c@[y].indentation == w.1
                    &&& c@[y].show_subject == shows_subject(c0, coll@, y, w.0, w.1)
                },
        decreases len - x,
    {
        if c[x].message.is_some() {
            let mut cur = x;
            let mut d: usize = 0;
            let mut k: usize = 0;
            while k < len && c[cur].parent.is_some()
                invariant
                    k <= len,
                    d == k,
                    cur < len,
                    len == c@.len(),
                    c0.len() == len,
                    arena_wf(c@, rank, n),
                    forall|y: int| 0 <= y < c@.len() ==> (#[trigger] c@[y]).parent == c0[y].parent,
                    ({
                        let w = root_walk(c0, cur as int, (len - k) as nat);
                        root_walk(c0, x as int, len as nat) == (w.0, (w.1 + d) as nat)
                    }),
                decreases len - k,
            {
                let p = c[cur].parent.unwrap();
                assert(c0[cur as int].parent == Some(p));
                assert(p < len);
                assert(root_walk(c0, cur as int, (len - k) as nat) == (
                    root_walk(c0, p as int, (len - (k + 1)) as nat).0,
                    root_walk(c0, p as int, (len - (k + 1)) as nat).1 + 1,
                ));
                cur = p;
                d += 1;
                k += 1;
            }
            proof {
                assert(root_walk(c0, cur as int, (len - k) as nat) == (cur as int, 0nat));
            }
            let mut show = true;
            if d > 0 {
                if let (Some(mx), Some(mr)) = (c[x].message, c[cur].message) {
                    if mx < coll.len() && mr < coll.len() && subject_repeats(
                        coll[mx].subject.as_slice(),
                        coll[mr].subject.as_slice(),
                    ) {
                        show = false;
                    }
                }
            }
            let ghost cb = c@;
            proof {
                assert(c0[x as int].message == cb[x as int].message);
                assert(c0[cur as int].message == cb[cur as int].message);
            }
            set_display(c, Ghost(rank), Ghost(n), x, d, show);
            proof {
                assert forall|y: int| 0 <= y < c@.len() implies (#[trigger] c@[y]).parent == c0[y].parent by {
                    assert(cb[y].parent == c0[y].parent);
                }
                assert forall|y: int| 0 <= y < c0.len() implies #[trigger] c@[y].date == c0[y].date by {
                    assert(cb[y].date == c0[y].date);
                }
                assert forall|y: int|
                    0 <= y < x + 1 && (#[trigger] c@[y]).message is Some implies {
                        let w = root_walk(c0, y, c0.len() as nat);
                        &&& c@[y].indentation == w.1
                        &&& c@[y].show_subject == shows_subject(c0, coll@, y, w.0, w.1)
                    } by {
                    if y < x {
                        assert(c@[y] == cb[y]);
                    }
                }
            }
        }
        x += 1;
    }
}

/// The messages of a collection arranged in threads.
pub struct Threads {
    containers: Vec<Container>,
    threaded_collection: Vec<usize>,
    root_set: Vec<usize>,
    tree: Vec<ContainerTree>,
    sort: (SortField, SortOrder),
    subsort: (SortField, SortOrder),
    rank: Ghost<Seq<nat>>,
    n: Ghost<nat>,
}

/// Every top-level node and every child of one names a container.
pub open spec fn tree_ok(c: Seq<Container>, tree: Seq<ContainerTree>) -> bool {
    &&& nodes_ok(c, tree)
    &&& forall|i: int| 0 <= i < tree.len() ==> (#[trigger] tree[i]).len >= 1
    &&& forall|i: int|
        0 <= i < tree.len() ==> nodes_ok(c, #[trigger] tree[i].children@)
}

/// The top level of the presentation tree is a reordering of the root
/// set.
pub open spec fn top_permutes_roots(roots: Seq<usize>, top: Seq<ContainerTree>) -> bool {
    exists|mid: Seq<ContainerTree>, x: Seq<ContainerTree>|
        node_ids(mid) == roots && #[trigger] mid.to_multiset() == #[trigger] x.to_multiset()
            && node_ids(x) == node_ids(top)
}

impl Threads {
    /// The thread arena.
    pub closed spec fn arena(&self) -> Seq<Container> {
        self.containers@
    }

    /// The root set.
    pub closed spec fn roots(&self) -> Seq<usize> {
        self.root_set@
    }

    /// The containers of messages in display order.
    pub closed spec fn threaded(&self) -> Seq<usize> {
        self.threaded_collection@
    }

    /// The presentation tree's top level.
    pub closed spec fn top(&self) -> Seq<ContainerTree> {
        self.tree@
    }

    /// The ordering last applied to the top level and to the children.
    pub closed spec fn sort_keys(&self) -> ((SortField, SortOrder), (SortField, SortOrder)) {
        (self.sort, self.subsort)
    }

    /// The arena is ranked and in bounds, the root set holds no placeholder
    /// with a single child, and the display order holds only messages.
    pub closed spec fn wf(&self) -> bool {
        &&& arena_wf(self.containers@, self.rank@, self.n@)
        &&& forall|i: int|
            0 <= i < self.root_set@.len() ==> #[trigger] self.root_set@[i] < self.containers@.len()
                && !promotable(self.containers@, self.root_set@[i] as int)
        &&& forall|k: int|
            0 <= k < self.threaded_collection@.len() ==> #[trigger] self.threaded_collection@[k]
                < self.containers@.len() && self.containers@[self.threaded_collection@[k] as int].message is Some
        &&& no_dup(self.threaded_collection@)
        &&& tree_ok(self.containers@, self.tree@)
    }

    pub fn root_len(&self) -> (r: usize)
        ensures
            r == self.top().len(),
    {
        self.tree.len()
    }

    pub fn root_set(&self) -> (r: &Vec<usize>)
        ensures
            r@ == self.roots(),
    {
        &self.root_set
    }

    pub fn threaded_collection(&self) -> (r: &Vec<usize>)
        ensures
            r@ == self.threaded(),
    {
        &self.threaded_collection
    }

    pub fn containers(&self) -> (r: &Vec<Container>)
        ensures
            r@ == self.arena(),
    {
        &self.containers
    }

    /// The message of the `i`-th container in display order.
    pub fn thread_to_mail(&self, i: usize) -> (r: usize)
        requires
            self.wf(),
            i < self.threaded().len(),
        ensures
            self.arena()[self.threaded()[i as int] as int].message == Some(r),
    {
        let t = self.threaded_collection[i];
        self.containers[t].message.unwrap()
    }

    /// Orders the top level of the tree by `sort`.
    fn inner_sort_by(&mut self, sort: (SortField, SortOrder), coll: &[Envelope])
        requires
            old(self).wf(),
        ensures
            final(self).wf(),
            final(self).containers == old(self).containers,
            final(self).root_set == old(self).root_set,
            final(self).threaded_collection == old(self).threaded_collection,
            final(self).sort == old(self).sort,
            final(self).subsort == old(self).subsort,
            final(self).tree@.to_multiset() == old(self).tree@.to_multiset(),
            nodes_sorted(final(self).containers@, coll@, sort, final(self).tree@),
    {
        let mut tree: Vec<ContainerTree> = Vec::new();
        std::mem::swap(&mut tree, &mut self.tree);
        let ghost t0 = tree@;
        let sorted = sort_nodes(&self.containers, coll, sort, tree);
        self.tree = sorted;
        proof {
            broadcast use vstd::seq_lib::group_to_multiset_ensures;

            assert forall|i: int| 0 <= i < self.tree@.len() implies nodes_ok(
                self.containers@,
                #[trigger] self.tree@[i].children@,
            ) by {
                vstd::seq_lib::to_multiset_contains(t0, self.tree@[i]);
                vstd::seq_lib::to_multiset_contains(self.tree@, self.tree@[i]);
                assert(self.tree@.contains(self.tree@[i]));
                let j = choose|j: int| 0 <= j < t0.len() && t0[j] == self.tree@[i];
                assert(t0[j].children == self.tree@[i].children);
            }
            assert forall|i: int| 0 <= i < self.tree@.len() implies (#[trigger] self.tree@[i]).len >= 1 by {
                vstd::seq_lib::to_multiset_contains(t0, self.tree@[i]);
                vstd::seq_lib::to_multiset_contains(self.tree@, self.tree@[i]);
                assert(self.tree@.contains(self.tree@[i]));
                let j = choose|j: int| 0 <= j < t0.len() && t0[j] == self.tree@[i];
                assert(t0[j].len >= 1);
            }
        }
    }

    /// Orders the children of every top-level node by `subsort`.
    fn inner_subsort_by(&mut self, subsort: (SortField, SortOrder), coll: &[Envelope])
        requires
            old(self).wf(),
        ensures
            final(self).wf(),
            final(self).containers == old(self).containers,
            final(self).root_set == old(self).root_set,
            final(self).threaded_collection == old(self).threaded_collection,
            final(self).sort == old(self).sort,
            final(self).subsort == old(self).subsort,
            node_ids(final(self).tree@) == node_ids(old(self).tree@),
            forall|i: int|
                0 <= i < final(self).tree@.len() ==> (#[trigger] final(self).tree@[i].children)@.to_multiset()
                    == old(self).tree@[i].children@.to_multiset() && nodes_sorted(
                    final(self).containers@,
                    coll@,
                    subsort,
                    final(self).tree@[i].children@,
                ),
    {
        let mut tree: Vec<ContainerTree> = Vec::new();
        std::mem::swap(&mut tree, &mut self.tree);
        let ghost t0 = tree@;
        let mut out: Vec<ContainerTree> = Vec::new();
        let mut k: usize = 0;
        let mut tree = tree;
        assert(tree@.subrange(0, tree@.len() as int) =~= t0);
        while tree.len() > 0
            invariant
                t0.len() == out@.len() + tree@.len(),
                tree@ == t0.subrange(out@.len() as int, t0.len() as int),
                tree_ok(self.containers@, t0),
                forall|i: int|
                    0 <= i < out@.len() ==> #[trigger] out@[i].id == t0[i].id && out@[i].len == t0[i].len
                        && out@[i].children@.to_multiset() == t0[i].children@.to_multiset()
                        && nodes_sorted(self.containers@, coll@, subsort, out@[i].children@)
                        && nodes_ok(self.containers@, out@[i].children@),
            decreases tree@.len(),
        {
            let ghost pos = out@.len() as int;
            let node = tree.remove(0);
            assert(node == t0[pos]);
            assert(tree@ =~= t0.subrange(pos + 1, t0.len() as int));
            let ContainerTree { id, children, len, has_unseen } = node;
            assert(t0[pos].children == children);
            assert(nodes_ok(self.containers@, t0[pos].children@));
            let children = sort_nodes(&self.containers, coll, subsort, children);
            let ghost ob = out@;
            out.push(ContainerTree { id, children, len, has_unseen });
            proof {
                assert forall|i: int| 0 <= i < out@.len() implies #[trigger] out@[i].id == t0[i].id
                    && out@[i].len == t0[i].len && out@[i].children@.to_multiset() == t0[i].children@.to_multiset()
                    && nodes_sorted(self.containers@, coll@, subsort, out@[i].children@)
                    && nodes_ok(self.containers@, out@[i].children@) by {
                    if i < pos {
                        assert(out@[i] == ob[i]);
                    } else {
                        assert(i == pos);
                        assert(out@[i].id == id);
                        assert(out@[i].children@.to_multiset() == t0[i].children@.to_multiset());
                        assert(nodes_sorted(self.containers@, coll@, subsort, out@[i].children@));
                        assert(nodes_ok(self.containers@, out@[i].children@));
                    }
                }
            }
        }
        self.tree = out;
        proof {
            assert(node_ids(self.tree@) =~= node_ids(t0));
            assert forall|i: int| 0 <= i < self.tree@.len() implies (
            #[trigger] self.tree@[i].children)@.to_multiset() == t0[i].children@.to_multiset()
                && nodes_sorted(self.containers@, coll@, subsort, self.tree@[i].children@) by {
                assert(self.tree@[i].id == t0[i].id);
            }
            assert forall|i: int| 0 <= i < self.tree@.len() implies nodes_ok(
                self.containers@,
                #[trigger] self.tree@[i].children@,
            ) by {
                assert(self.tree@[i].id == t0[i].id);
            }
            assert forall|i: int| 0 <= i < self.tree@.len() implies #[trigger] self.tree@[i].id
                < self.containers@.len() by {
                assert(self.tree@[i].id == t0[i].id);
            }
            assert forall|i: int| 0 <= i < self.tree@.len() implies (#[trigger] self.tree@[i]).len >= 1 by {
                assert(self.tree@[i].id == t0[i].id);
                assert(t0[i].len >= 1);
            }
        }
    }
}

} // verus!

verus! {

/// What a call `sort_by(sort, subsort, coll)` does to threads `t0`, giving
/// `t1`: it records the two orderings; where both were already in force it
/// changes nothing; where `sort` is new the top level is a reordering of
/// the old one, sorted by it.
pub open spec fn sort_effect(
    t0: Threads,
    t1: Threads,
    sort: (SortField, SortOrder),
    subsort: (SortField, SortOrder),
    coll: Seq<Envelope>,
) -> bool {
    &&& t1.sort_keys() == (sort, subsort)
    &&& t1.arena() == t0.arena()
    &&& t1.roots() == t0.roots()
    &&& t1.threaded() == t0.threaded()
    &&& (t0.sort_keys() == (sort, subsort) ==> t1 == t0)
    &&& (t0.sort_keys().0 != sort ==> exists|mid: Seq<ContainerTree>|
        mid.to_multiset() == t0.top().to_multiset() && nodes_sorted(t1.arena(), coll, sort, mid)
            && node_ids(t1.top()) == node_ids(mid))
    &&& (t0.sort_keys().0 == sort ==> node_ids(t1.top()) == node_ids(t0.top()))
    &&& (t0.sort_keys().1 != subsort ==> forall|i: int|
        0 <= i < t1.top().len() ==> nodes_sorted(
            t1.arena(),
            coll,
            subsort,
            (#[trigger] t1.top()[i]).children@,
        ))
}

/// Sorting twice by the same keys gives what sorting once gave.
pub proof fn lemma_sort_idempotent(
    t0: Threads,
    t1: Threads,
    t2: Threads,
    sort: (SortField, SortOrder),
    subsort: (SortField, SortOrder),
    coll: Seq<Envelope>,
)
    requires
        sort_effect(t0, t1, sort, subsort, coll),
        sort_effect(t1, t2, sort, subsort, coll),
    ensures
        t2 == t1,
{
}

/// The arena of well-formed threads has no cycle of first-child and
/// next-sibling links.
pub proof fn lemma_threads_acyclic(t: Threads)
    requires
        t.wf(),
    ensures
        acyclic(t.arena()),
{
    lemma_ranked_acyclic(t.containers@, t.rank@);
}

/// What well-formed threads guarantee to their users: every link is an
/// index into the arena, the display order has no duplicates and lists
/// only message containers, and every subtree counts at least its root.
pub proof fn lemma_threads_bounds(t: Threads)
    requires
        t.wf(),
    ensures
        forall|x: int|
            0 <= x < t.arena().len() ==> {
                &&& ((#[trigger] t.arena()[x]).parent matches Some(k) ==> k < t.arena().len())
                &&& (t.arena()[x].first_child matches Some(k) ==> k < t.arena().len())
                &&& (t.arena()[x].next_sibling matches Some(k) ==> k < t.arena().len())
            },
        no_dup(t.threaded()),
        forall|k: int|
            0 <= k < t.threaded().len() ==> #[trigger] t.threaded()[k] < t.arena().len()
                && t.arena()[t.threaded()[k] as int].message is Some,
        forall|i: int| 0 <= i < t.top().len() ==> (#[trigger] t.top()[i]).len >= 1,
{
}

/// No placeholder with exactly one child, itself without sibling, stands
/// in the root set of well-formed threads.
pub proof fn lemma_root_promotion(t: Threads)
    requires
        t.wf(),
    ensures
        forall|i: int|
            0 <= i < t.roots().len() ==> #[trigger] t.roots()[i] < t.arena().len() && !promotable(
                t.arena(),
                t.roots()[i] as int,
            ),
{
}

proof fn lemma_wf_more_messages(c: Seq<Container>, rank: Seq<nat>, n1: nat, n2: nat)
    requires
        arena_wf(c, rank, n1),
        n1 <= n2,
    ensures
        arena_wf(c, rank, n2),
{
}

impl Threads {
    /// Orders the top level by `sort` and the children of each top-level
    /// node by `subsort`; an ordering already in force is not applied again.
    pub fn sort_by(&mut self, sort: (SortField, SortOrder), subsort: (SortField, SortOrder), coll: &[Envelope])
        requires
            old(self).wf(),
        ensures
            final(self).wf(),
            sort_effect(*old(self), *final(self), sort, subsort, coll@),
    {
        let ghost t0 = *self;
        if self.sort.0 != sort.0 || self.sort.1 != sort.1 {
            self.inner_sort_by(sort, coll);
            self.sort = sort;
        }
        let ghost mid = self.tree@;
        if self.subsort.0 != subsort.0 || self.subsort.1 != subsort.1 {
            self.inner_subsort_by(subsort, coll);
            self.subsort = subsort;
        }
        proof {
            if t0.sort != sort {
                assert(mid.to_multiset() == t0.top().to_multiset());
                assert(nodes_sorted(self.arena(), coll@, sort, mid));
                assert(node_ids(self.top()) == node_ids(mid));
                assert(exists|m: Seq<ContainerTree>|
                    m.to_multiset() == t0.top().to_multiset() && nodes_sorted(
                        self.arena(),
                        coll@,
                        sort,
                        m,
                    ) && node_ids(self.top()) == node_ids(m));
            }
        }
    }

    /// Builds the presentation tree from the root set, fills the display
    /// order and applies the orderings in force.
    pub fn build_collection(&mut self, coll: &[Envelope])
        requires
            old(self).wf(),
        ensures
            final(self).wf(),
            same_shape(old(self).arena(), final(self).arena()),
            final(self).roots() == old(self).roots(),
            final(self).sort_keys() == old(self).sort_keys(),
            final(self).top().len() == old(self).roots().len(),
            nodes_sorted(final(self).arena(), coll@, final(self).sort_keys().0, final(self).top()),
            top_permutes_roots(final(self).roots(), final(self).top()),
            display_right(final(self).arena(), final(self).arena(), coll@),
            forall|i: int|
                0 <= i < final(self).roots().len() ==> final(self).arena()[#[trigger] final(self).roots()[i] as int].parent is None,
            forall|x: int|
                0 <= x < final(self).arena().len() && (#[trigger] final(self).arena()[x]).parent is Some
                    ==> final(self).arena()[final(self).arena()[x].parent.unwrap() as int].message is Some,
            forall|x: int|
                0 <= x < final(self).arena().len() && (#[trigger] final(self).arena()[x]).message is Some
                    ==> final(self).threaded().contains(x as usize),
    {
        let ghost c0 = self.containers@;
        let ghost t0 = *self;
        let mut tree: Vec<ContainerTree> = Vec::new();
        let mut k: usize = 0;
        while k < self.root_set.len()
            invariant
                self.root_set == t0.root_set,
                self.sort == t0.sort,
                self.subsort == t0.subsort,
                self.rank == t0.rank,
                self.n == t0.n,
                arena_wf(self.containers@, self.rank@, self.n@),
                same_shape(c0, self.containers@),
                k <= self.root_set@.len(),
                tree@.len() == k,
                tree_ok(self.containers@, tree@),
                forall|i: int|
                    0 <= i < self.root_set@.len() ==> #[trigger] self.root_set@[i]
                        < self.containers@.len() && !promotable(
                        self.containers@,
                        self.root_set@[i] as int,
                    ),
                forall|j: int|
                    0 <= j < self.threaded_collection@.len() ==> #[trigger] self.threaded_collection@[j]
                        < self.containers@.len()
                        && self.containers@[self.threaded_collection@[j] as int].message is Some,
                no_dup(self.threaded_collection@),
                node_ids(tree@) == self.root_set@.subrange(0, k as int),
            decreases self.root_set@.len() - k,
        {
            let r = self.root_set[k];
            let ghost cb = self.containers@;
            let node = build_threaded(
                &mut self.containers,
                self.rank,
                self.n,
                &mut self.threaded_collection,
                r,
                r,
                0,
                coll,
            );
            let ghost tree_before = tree@;
            tree.push(node);
            proof {
                assert forall|i: int| 0 <= i < self.root_set@.len() implies #[trigger] self.root_set@[i]
                    < self.containers@.len() && !promotable(
                    self.containers@,
                    self.root_set@[i] as int,
                ) by {
                    let v = self.root_set@[i] as int;
                    assert(cb[v] == cb[v]);
                    assert(self.containers@[v].first_child == cb[v].first_child);
                    if let Some(f) = cb[v].first_child {
                        assert(self.containers@[f as int].next_sibling == cb[f as int].next_sibling);
                    }
                }
                assert forall|i: int| 0 <= i < c0.len() implies #[trigger] self.containers@[i].date
                    == c0[i].date by {
                    assert(cb[i].date == c0[i].date);
                }
                assert forall|i: int| 0 <= i < tree@.len() implies #[trigger] tree@[i].id
                    < self.containers@.len() by {}
                assert forall|i: int| 0 <= i < tree@.len() implies nodes_ok(
                    self.containers@,
                    #[trigger] tree@[i].children@,
                ) by {
                    if i < k {
                        assert(tree@[i] == tree_before[i]);
                        assert(nodes_ok(cb, tree_before[i].children@));
                        let ch = tree@[i].children;
                        assert forall|j: int| 0 <= j < ch@.len() implies #[trigger] ch@[j].id
                            < self.containers@.len() by {
                            assert(ch@[j].id < cb.len());
                        }
                    }
                }
            }
            k += 1;
        }
        let ghost built = tree@;
        assert(self.root_set@.subrange(0, k as int) =~= self.root_set@);
        let ghost cm0 = self.containers@;
        finish_arena(
            &mut self.containers,
            self.rank,
            self.n,
            &self.root_set,
            &mut self.threaded_collection,
        );
        let ghost cf = self.containers@;
        display_pass(&mut self.containers, self.rank, self.n, coll);
        let ghost cm = cm0;
        proof {
            assert forall|x: int| 0 <= x < self.containers@.len() && (#[trigger] self.containers@[x]).message is Some
                implies {
                let w = root_walk(self.containers@, x, self.containers@.len() as nat);
                &&& self.containers@[x].indentation == w.1
                &&& self.containers@[x].show_subject == shows_subject(self.containers@, coll@, x, w.0, w.1)
            } by {
                lemma_root_walk_same(cf, self.containers@, x, cf.len() as nat);
                let w = root_walk(cf, x, cf.len() as nat);
                if 0 <= w.0 < cf.len() {
                    assert(cf[w.0].message == self.containers@[w.0].message);
                }
                assert(cf[x].message == self.containers@[x].message);
            }
            assert forall|i: int| 0 <= i < self.root_set@.len() implies self.containers@[#[trigger] self.root_set@[i] as int].parent is None by {
                assert(cf[self.root_set@[i] as int].parent is None);
            }
            assert forall|x: int|
                0 <= x < self.containers@.len() && (#[trigger] self.containers@[x]).parent is Some
                    implies self.containers@[self.containers@[x].parent.unwrap() as int].message is Some by {
                assert(cf[x].parent == self.containers@[x].parent);
                let pp = cf[x].parent.unwrap() as int;
                assert(cf[pp].message == self.containers@[pp].message);
            }
            assert forall|x: int|
                0 <= x < self.containers@.len() && (#[trigger] self.containers@[x]).message is Some
                    implies self.threaded_collection@.contains(x as usize) by {
                assert(cf[x].message == self.containers@[x].message);
            }
            assert forall|k2: int|
                0 <= k2 < self.threaded_collection@.len() implies #[trigger] self.threaded_collection@[k2] < self.containers@.len()
                    && self.containers@[self.threaded_collection@[k2] as int].message is Some by {
                assert(cf[self.threaded_collection@[k2] as int].message
                    == self.containers@[self.threaded_collection@[k2] as int].message);
            }
        }
        proof {
            assert forall|i: int| 0 <= i < c0.len() implies #[trigger] self.containers@[i].date == c0[i].date by {
                assert(cm[i].date == c0[i].date);
            }
            assert forall|i: int| 0 <= i < self.root_set@.len() implies #[trigger] self.root_set@[i]
                < self.containers@.len() && !promotable(self.containers@, self.root_set@[i] as int) by {
                let v = self.root_set@[i] as int;
                assert(cm[v] == cm[v]);
                assert(self.containers@[v].first_child == cm[v].first_child);
                if let Some(f) = cm[v].first_child {
                    assert(self.containers@[f as int].next_sibling == cm[f as int].next_sibling);
                }
            }
            assert forall|i: int| 0 <= i < tree@.len() implies nodes_ok(
                self.containers@,
                #[trigger] tree@[i].children@,
            ) by {
                assert(nodes_ok(cm, tree@[i].children@));
            }
        }
        self.tree = tree;
        let sort = self.sort;
        let subsort = self.subsort;
        self.inner_sort_by(sort, coll);
        let ghost mid = self.tree@;
        self.inner_subsort_by(subsort, coll);
        proof {
            broadcast use vstd::seq_lib::group_to_multiset_ensures;

            assert(node_ids(built) == self.root_set@);
            assert(built.to_multiset() == mid.to_multiset());
            assert(node_ids(mid) == node_ids(self.tree@));
            assert(top_permutes_roots(self.root_set@, self.tree@));
            assert(node_ids(self.tree@).len() == node_ids(mid).len());
            assert(self.tree@.len() == mid.len());
            assert(mid.len() == tree@.len()) by {
                vstd::seq_lib::to_multiset_len(mid);
                vstd::seq_lib::to_multiset_len(tree@);
            }
            assert forall|i: int, j: int| 0 <= i < j < self.tree@.len() implies !node_before(
                self.containers@,
                coll@,
                sort,
                self.tree@[j].id as int,
                self.tree@[i].id as int,
            ) by {
                assert(node_ids(self.tree@)[i] == node_ids(mid)[i]);
                assert(node_ids(self.tree@)[j] == node_ids(mid)[j]);
            }
        }
    }
}

/// Threads `collection`, and links in the messages of `sent` that belong to
/// its threads: those whose Message-ID or In-Reply-To is known from the
/// collection. These are appended to `collection`.
pub fn build_threads(collection: &mut Vec<Envelope>, sent: Option<&Vec<Envelope>>) -> (t: Threads)
    ensures
        t.wf(),
        final(collection)@.len() >= old(collection)@.len(),
        forall|i: int|
            0 <= i < t.roots().len() ==> #[trigger] t.roots()[i] < t.arena().len() && !promotable(
                t.arena(),
                t.roots()[i] as int,
            ),
        t.top().len() == t.roots().len(),
        t.sort_keys() == ((SortField::Date, SortOrder::Desc), (SortField::Date, SortOrder::Desc)),
        dates_descending(t.arena(), t.roots()),
        top_permutes_roots(t.roots(), t.top()),
        nodes_sorted(t.arena(), final(collection)@, (SortField::Date, SortOrder::Desc), t.top()),
        no_dup(t.threaded()),
        forall|k: int|
            0 <= k < t.threaded().len() ==> #[trigger] t.threaded()[k] < t.arena().len()
                && t.arena()[t.threaded()[k] as int].message is Some,
        forall|x: int|
            0 <= x < t.arena().len() && #[trigger] promotable(t.arena(), x) ==> t.roots().contains(
                t.arena()[x].first_child.unwrap(),
            ),
        forall|m: int|
            0 <= m < old(collection)@.len() && #[trigger] first_of_id(old(collection)@, m) ==> exists|x: int|
                0 <= x < t.arena().len() && t.arena()[x].message == Some(m as usize),
        messages_distinct(t.arena()),
        messages_below(t.arena(), final(collection)@.len() as int),
        forall|x: int|
            0 <= x < t.arena().len() ==> {
                &&& ((#[trigger] t.arena()[x]).parent matches Some(k) ==> k < t.arena().len())
                &&& (t.arena()[x].first_child matches Some(k) ==> k < t.arena().len())
                &&& (t.arena()[x].next_sibling matches Some(k) ==> k < t.arena().len())
            },
        forall|i: int| 0 <= i < t.top().len() ==> (#[trigger] t.top()[i]).len >= 1,
        forall|v: usize| #[trigger] t.roots().to_multiset().count(v) <= 1,
        display_right(t.arena(), t.arena(), final(collection)@),
        forall|i: int|
            0 <= i < t.roots().len() && t.arena()[#[trigger] t.roots()[i] as int].message is Some
                ==> t.arena()[t.roots()[i] as int].show_subject && t.arena()[t.roots()[i] as int].indentation == 0,
        forall|i: int| 0 <= i < t.roots().len() ==> t.arena()[#[trigger] t.roots()[i] as int].parent is None,
        forall|x: int|
            0 <= x < t.arena().len() && (#[trigger] t.arena()[x]).parent is Some
                ==> t.arena()[t.arena()[x].parent.unwrap() as int].message is Some,
        forall|x: int|
            0 <= x < t.arena().len() && (#[trigger] t.arena()[x]).message is Some ==> t.threaded().contains(
                x as usize,
            ),
{
    let ghost coll0 = collection@;
    let mut c: Vec<Container> = Vec::new();
    let mut rank: Ghost<Seq<nat>> = Ghost(Seq::empty());
    let ghost n0 = collection@.len();
    let mut table = IdTable::new();
    let mut i: usize = 0;
    let len = collection.len();
    while i < len
        invariant
            arena_wf(c@, rank@, n0 as nat),
            table.inv(c@.len() as nat),
            placeholders_free(c@),
            covered(c@, table.vals@),
            collection@.len() == n0,
            len == n0,
            i <= len,
            no_dup(table.vals@),
            messages_distinct(c@),
            messages_below(c@, i as int),
            keys_match(c@, table.keys@, table.vals@, collection@),
            placed(c@, collection@, i as int),
            forall|j: int| 0 <= j < collection@.len() ==> (#[trigger] collection@[j]).message_id == coll0[j].message_id,
        decreases len - i,
    {
        let ghost cl = collection@;
        rank = thread_envelope(&mut c, rank, Ghost(n0 as nat), &mut table, collection, i);
        proof {
            assert forall|j: int| 0 <= j < collection@.len() implies (#[trigger] collection@[j]).message_id == coll0[j].message_id by {
                assert(collection@[j].message_id == cl[j].message_id);
            }
        }
        i += 1;
    }
    proof {
        assert forall|m: int| 0 <= m < n0 && #[trigger] first_of_id(coll0, m) implies exists|x: int|
            0 <= x < c@.len() && c@[x].message == Some(m as usize) by {
            assert forall|jj: int| 0 <= jj < m implies (#[trigger] collection@[jj]).message_id@ != collection@[m].message_id@ by {
                assert(collection@[jj].message_id == coll0[jj].message_id);
                assert(collection@[m].message_id == coll0[m].message_id);
                assert(coll0[jj].message_id@ != coll0[m].message_id@);
            }
            assert(first_of_id(collection@, m));
        }
    }
    if let Some(sent) = sent {
        let mut j: usize = 0;
        while j < sent.len()
            invariant
                arena_wf(c@, rank@, collection@.len() as nat),
                table.inv(c@.len() as nat),
                placeholders_free(c@),
                covered(c@, table.vals@),
                collection@.len() >= n0,
                messages_distinct(c@),
                messages_below(c@, collection@.len() as int),
                placed(c@, coll0, n0 as int),
            decreases sent@.len() - j,
        {
            let x = &sent[j];
            j += 1;
            let ghost cs = c@;
            let by_id = table.get(x.message_id.as_slice());
            let by_irt = if x.in_reply_to.len() > 0 {
                table.get(x.in_reply_to.as_slice())
            } else {
                None
            };
            let idx = collection.len();
            if idx == usize::MAX {
                break ;
            }
            proof {
                lemma_wf_more_messages(c@, rank@, idx as nat, (idx + 1) as nat);
            }
            let n1: Ghost<nat> = Ghost((idx + 1) as nat);
            match by_id {
                Some(cid) => {
                    if c[cid].message.is_some() {
                        continue ;
                    }
                    set_message(&mut c, rank, n1, cid, idx, x.date);
                    proof {
                        assert(messages_kept(cs, c@));
                        lemma_placed_kept(cs, c@, coll0, n0 as int);
                        assert forall|a: int, b: int|
                            0 <= a < c@.len() && 0 <= b < c@.len() && a != b && (#[trigger] c@[a]).message is Some implies c@[a].message
                            != (#[trigger] c@[b]).message by {
                            if a != cid && b != cid {
                                assert(c@[a] == cs[a] && c@[b] == cs[b]);
                            } else if a == cid {
                                assert(c@[b] == cs[b]);
                            } else {
                                assert(c@[a] == cs[a]);
                            }
                        }
                    }
                },
                None => match by_irt {
                    None => {
                        continue ;
                    },
                    Some(p) => {
                        let ghost c_before = c@;
                        let ghost t_before = table.vals@;
                        let new_id = c.len();
                        rank = push_container(&mut c, rank, n1, Some(idx), None, x.date);
                        set_parent(&mut c, rank, n1, new_id, Some(p));
                        let key = crate::bytes::copy_bytes(x.message_id.as_slice());
                        table.insert(key, new_id);
                        proof {
                            lemma_covered_push(c_before, t_before, c@, new_id);
                            assert forall|y: int| 0 <= y < c@.len() && (#[trigger] c@[y]).message is None implies c@[y].parent is None by {
                                if y < c_before.len() {
                                    assert(c@[y] == c_before[y]);
                                }
                            }
                        }
                        let (_, g) = link_child(&mut c, rank, n1, p, new_id);
                        rank = g;
                        propagate_date(&mut c, rank, n1, p, x.date);
                        proof {
                            assert(c@[new_id as int].message == Some(idx));
                            assert forall|y: int| 0 <= y < cs.len() implies (#[trigger] c@[y]).message == cs[y].message by {
                                assert(c_before[y] == cs[y]);
                            }
                            assert(messages_kept(cs, c@));
                            lemma_placed_kept(cs, c@, coll0, n0 as int);
                            assert forall|a: int, b: int|
                                0 <= a < c@.len() && 0 <= b < c@.len() && a != b && (#[trigger] c@[a]).message is Some implies c@[a].message
                                != (#[trigger] c@[b]).message by {
                                if a < cs.len() && b < cs.len() {
                                    assert(cs[a].message != cs[b].message);
                                }
                            }
                        }
                    },
                },
            }
            proof {
                assert forall|y: int| 0 <= y < c@.len() && (#[trigger] c@[y]).message is Some implies c@[y].message.unwrap()
                    < idx + 1 by {
                    if y < cs.len() && cs[y].message is Some {
                        assert(c@[y].message == cs[y].message);
                    }
                }
            }
            let mut e = x.clone();
            e.thread = match by_id {
                Some(cid) => cid,
                None => c.len() - 1,
            };
            collection.push(e);
        }
    }
    let root_set = derive_root_set(&c, rank, Ghost(collection@.len() as nat), &table);
    let mut t = Threads {
        containers: c,
        threaded_collection: Vec::new(),
        root_set,
        tree: Vec::new(),
        sort: (SortField::Date, SortOrder::Desc),
        subsort: (SortField::Date, SortOrder::Desc),
        rank,
        n: Ghost(collection@.len() as nat),
    };
    let ghost a0 = t.containers@;
    t.build_collection(collection.as_slice());
    proof {
        assert forall|i: int|
            0 <= i < t.root_set@.len() && t.containers@[#[trigger] t.root_set@[i] as int].message is Some
                implies t.containers@[t.root_set@[i] as int].show_subject && t.containers@[t.root_set@[i] as int].indentation == 0 by {
            let x = t.root_set@[i] as int;
            assert(t.containers@[x].message is Some);
            assert(root_walk(t.containers@, x, t.containers@.len() as nat) == (x, 0nat));
        }
        assert forall|x: int| 0 <= x < a0.len() implies (#[trigger] t.containers@[x]).message == a0[x].message by {
            assert(a0[x] == a0[x]);
        }
        assert(messages_kept(a0, t.containers@));
        lemma_placed_kept(a0, t.containers@, coll0, n0 as int);
        assert forall|aa: int, bb: int|
            0 <= aa < t.containers@.len() && 0 <= bb < t.containers@.len() && aa != bb && (#[trigger] t.containers@[aa]).message is Some implies t.containers@[aa].message
            != (#[trigger] t.containers@[bb]).message by {
            assert(a0[aa].message != a0[bb].message);
        }
        assert forall|y: int| 0 <= y < t.containers@.len() && (#[trigger] t.containers@[y]).message is Some implies t.containers@[y].message.unwrap()
            < collection@.len() by {
            assert(a0[y].message == t.containers@[y].message);
        }
        assert forall|x: int|
            0 <= x < t.containers@.len() && #[trigger] promotable(t.containers@, x) implies t.root_set@.contains(
            t.containers@[x].first_child.unwrap(),
        ) by {
            assert(a0[x] == a0[x]);
            assert(t.containers@[x].first_child == a0[x].first_child);
            let f = a0[x].first_child.unwrap() as int;
            assert(t.containers@[f].next_sibling == a0[f].next_sibling);
            assert(promotable(a0, x));
        }
        assert forall|i: int, j: int| 0 <= i < j < t.root_set@.len() implies t.containers@[t.root_set@[i] as int].date
            >= t.containers@[t.root_set@[j] as int].date by {
            assert(a0[t.root_set@[i] as int].date >= a0[t.root_set@[j] as int].date);
        }
    }
    t
}

} // verus!

verus! {

/// Walks the top level of the presentation tree: each thread's root, the
/// size of its subtree and whether it holds an unseen message.
pub struct RootIterator<'a> {
    pub pos: usize,
    pub tree: &'a Vec<ContainerTree>,
}

impl<'a> RootIterator<'a> {
    pub fn next(&mut self) -> (r: Option<(usize, usize, bool)>)
        ensures
            final(self).tree == old(self).tree,
            old(self).pos >= old(self).tree@.len() ==> r is None && final(self).pos == old(self).pos,
            old(self).pos < old(self).tree@.len() ==> {
                let node = old(self).tree@[old(self).pos as int];
                &&& r == Some((node.id, node.len, node.has_unseen))
                &&& final(self).pos == old(self).pos + 1
            },
    {
        if self.pos >= self.tree.len() {
            return None;
        }
        let node = &self.tree[self.pos];
        self.pos += 1;
        Some((node.id, node.len, node.has_unseen))
    }
}

/// The ids of the subtree `t`, depth first, each node before its children.
pub open spec fn preorder(t: ContainerTree) -> Seq<usize>
    decreases t, t.children@.len() + 1,
{
    seq![t.id] + preorder_from(t, 0)
}

/// The ids of the subtrees of the children of `t` from the `k`-th on.
pub open spec fn preorder_from(t: ContainerTree, k: int) -> Seq<usize>
    decreases t, t.children@.len() - k,
    via preorder_from_decreases
{
    if k < 0 || k >= t.children@.len() {
        Seq::empty()
    } else {
        preorder(t.children@[k]) + preorder_from(t, k + 1)
    }
}

#[via_fn]
proof fn preorder_from_decreases(t: ContainerTree, k: int) {
    if 0 <= k < t.children@.len() {
        vstd::std_specs::vec::axiom_vec_index_decreases(t.children, k);
        assert(decreases_to!(t => t.children[k]));
    }
}

/// The ids of the trees of `v` from the `k`-th on, depth first.
pub open spec fn preorder_all(v: Seq<ContainerTree>, k: int) -> Seq<usize>
    decreases v.len() - k,
{
    if k < 0 || k >= v.len() {
        Seq::empty()
    } else {
        preorder(v[k]) + preorder_all(v, k + 1)
    }
}

/// Appends the ids of the subtree `t` in depth-first order, parents before
/// children.
fn flatten(t: &ContainerTree, out: &mut Vec<usize>)
    ensures
        final(out)@ == old(out)@ + preorder(*t),
        final(out)@.len() > old(out)@.len(),
        final(out)@.subrange(0, old(out)@.len() as int) == old(out)@,
        final(out)@[old(out)@.len() as int] == t.id,
    decreases t,
{
    let ghost o0 = out@;
    out.push(t.id);
    assert(out@ + preorder_from(*t, 0) =~= o0 + preorder(*t));
    {
        let mut k: usize = 0;
        while k < t.children.len()
            invariant
                k <= t.children@.len(),
                out@ + preorder_from(*t, k as int) == o0 + preorder(*t),
                out@.len() > o0.len(),
                out@.subrange(0, o0.len() as int) == o0,
                out@[o0.len() as int] == t.id,
            decreases t.children@.len() - k,
        {
            let ghost ob = out@;
            proof {
                vstd::std_specs::vec::axiom_vec_index_decreases(t.children, k as int);
                assert(decreases_to!(t => t.children[k as int]));
            }
            flatten(&t.children[k], out);
            assert(out@.subrange(0, o0.len() as int) =~= ob.subrange(0, o0.len() as int));
            assert(ob + preorder_from(*t, k as int) =~= out@ + preorder_from(*t, k + 1));
            k += 1;
        }
    }
}

/// Walks every container of the presentation tree in depth-first order.
pub struct ThreadIterator {
    pub pos: usize,
    pub ids: Vec<usize>,
}

impl ThreadIterator {
    pub fn next(&mut self) -> (r: Option<usize>)
        ensures
            final(self).ids == old(self).ids,
            old(self).pos >= old(self).ids@.len() ==> r is None && final(self).pos == old(self).pos,
            old(self).pos < old(self).ids@.len() ==> r == Some(old(self).ids@[old(self).pos as int])
                && final(self).pos == old(self).pos + 1,
    {
        if self.pos >= self.ids.len() {
            return None;
        }
        let r = self.ids[self.pos];
        self.pos += 1;
        Some(r)
    }
}

impl Threads {
    pub fn root_set_iter(&self) -> (r: RootIterator<'_>)
        ensures
            r.pos == 0,
            r.tree@ == self.top(),
    {
        RootIterator { pos: 0, tree: &self.tree }
    }

    /// A walk over the presentation tree: each thread's root, then its
    /// subtree, depth first.
    pub fn thread_iter(&self) -> (r: ThreadIterator)
        ensures
            r.pos == 0,
            r.ids@ == preorder_all(self.top(), 0),
            r.ids@.len() >= self.top().len(),
    {
        let mut ids: Vec<usize> = Vec::new();
        let mut k: usize = 0;
        while k < self.tree.len()
            invariant
                k <= self.tree@.len(),
                ids@.len() >= k,
                ids@ + preorder_all(self.tree@, k as int) == preorder_all(self.tree@, 0),
            decreases self.tree@.len() - k,
        {
            let ghost i0 = ids@;
            flatten(&self.tree[k], &mut ids);
            assert(i0 + preorder_all(self.tree@, k as int) =~= ids@ + preorder_all(self.tree@, k + 1));
            k += 1;
        }
        assert(ids@ + preorder_all(self.tree@, k as int) =~= ids@);
        ThreadIterator { pos: 0, ids }
    }

    /// The container with id `index`.
    pub fn get(&self, index: usize) -> (r: &Container)
        requires
            index < self.arena().len(),
        ensures
            *r == self.arena()[index as int],
    {
        &self.containers[index]
    }
}

} // verus!

verus! {

/// The sort field a setting names (blanks around it ignored).
pub open spec fn sort_field_named(s: Seq<u8>) -> Option<SortField> {
    let t = crate::bytes::trimmed(s);
    if t == "subject".spec_bytes() || t == "s".spec_bytes() || t == "sub".spec_bytes() || t
        == "sbj".spec_bytes() || t == "subj".spec_bytes() {
        Some(SortField::Subject)
    } else if t == "date".spec_bytes() || t == "d".spec_bytes() {
        Some(SortField::Date)
    } else {
        None
    }
}

/// The sort order a setting names (blanks around it ignored).
pub open spec fn sort_order_named(s: Seq<u8>) -> Option<SortOrder> {
    let t = crate::bytes::trimmed(s);
    if t == "asc".spec_bytes() {
        Some(SortOrder::Asc)
    } else if t == "desc".spec_bytes() {
        Some(SortOrder::Desc)
    } else {
        None
    }
}

fn is_word(t: &[u8], w: &str) -> (r: bool)
    ensures
        r == (t@ == w.spec_bytes()),
{
    crate::bytes::bytes_eq(t, w.as_bytes())
}

impl SortField {
    pub fn from_str(s: &str) -> (r: Result<SortField, ()>)
        ensures
            match sort_field_named(s.spec_bytes()) {
                Some(f) => r == Ok::<SortField, ()>(f),
                None => r is Err,
            },
    {
        let b = s.as_bytes();
        let (x, y) = crate::bytes::trim_bounds(b);
        let t = &b[x..y];
        if is_word(t, "subject") || is_word(t, "s") || is_word(t, "sub") || is_word(t, "sbj")
            || is_word(t, "subj") {
            Ok(SortField::Subject)
        } else if is_word(t, "date") || is_word(t, "d") {
            Ok(SortField::Date)
        } else {
            Err(())
        }
    }
}

impl SortOrder {
    pub fn from_str(s: &str) -> (r: Result<SortOrder, ()>)
        ensures
            match sort_order_named(s.spec_bytes()) {
                Some(o) => r == Ok::<SortOrder, ()>(o),
                None => r is Err,
            },
    {
        let b = s.as_bytes();
        let (x, y) = crate::bytes::trim_bounds(b);
        let t = &b[x..y];
        if is_word(t, "asc") {
            Ok(SortOrder::Asc)
        } else if is_word(t, "desc") {
            Ok(SortOrder::Desc)
        } else {
            Err(())
        }
    }
}

} // verus!
