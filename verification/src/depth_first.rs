//! The dependency orderer.
//!
//! Items that expose a unique name and the names they depend on are yielded
//! in an order in which every item comes after all items it depends on, as
//! far as those are present in the input at all; dependencies on absent names
//! impose no constraint.  Among items with no mutual dependency, the order is
//! the order in which they become ready, earlier insertion first.  An
//! unresolvable cycle is a fatal, tagged error carrying each still-queued
//! item's name and unmet dependencies.

use std::collections::VecDeque;
use vstd::multiset::Multiset;
use vstd::prelude::*;
use vstd::string::StringExecFns;

use crate::text::{join_all, joined_with};
use crate::types::TypeName;

verus! {

/// The capability the orderer needs of an item: its own unique identity name,
/// and the identity names of the items it requires to exist first.
pub trait HasDependencies: Sized {
    /// The item's own identity name.
    spec fn name_spec(&self) -> Seq<char>;

    /// The names this item depends on.
    spec fn deps_spec(&self) -> Seq<Seq<char>>;

    fn name(&self) -> (r: &TypeName)
        ensures
            r@ == self.name_spec(),
    ;

    fn deps_len(&self) -> (n: usize)
        ensures
            n == self.deps_spec().len(),
    ;

    fn dep_at(&self, i: usize) -> (r: &TypeName)
        requires
            i < self.deps_spec().len(),
        ensures
            r@ == self.deps_spec()[i as int],
    ;
}

/// A ready-made item shape: a name plus the list of names it depends on.
#[derive(Debug)]
pub struct DependencyItem {
    pub name: TypeName,
    pub deps: Vec<TypeName>,
}

impl HasDependencies for DependencyItem {
    open spec fn name_spec(&self) -> Seq<char> {
        self.name@
    }

    open spec fn deps_spec(&self) -> Seq<Seq<char>> {
        self.deps.deep_view()
    }

    fn name(&self) -> (r: &TypeName) {
        &self.name
    }

    fn deps_len(&self) -> (n: usize) {
        self.deps.len()
    }

    fn dep_at(&self, i: usize) -> (r: &TypeName) {
        proof {
            assert(self.deps.deep_view()[i as int] == self.deps@[i as int]@);
        }
        &self.deps[i]
    }
}

/// The names of the items of `q`, in queue order.
pub open spec fn pending_names<T: HasDependencies>(q: Seq<T>) -> Seq<Seq<char>> {
    q.map_values(|t: T| t.name_spec())
}

/// Whether some dependency of `item` names something still pending.
pub open spec fn blocked<T: HasDependencies>(item: T, pending: Seq<Seq<char>>) -> bool {
    exists|k: int|
        0 <= k < item.deps_spec().len() && pending.contains(#[trigger] item.deps_spec()[k])
}

/// The position of the first item of `q`, from position `k` on, that is not
/// blocked by the names of `q`; `q.len()` when every such item is blocked.
pub open spec fn first_ready<T: HasDependencies>(q: Seq<T>, k: int) -> int
    decreases q.len() - k
        when k <= q.len()
{
    if k >= q.len() {
        q.len() as int
    } else if !blocked(q[k], pending_names(q)) {
        k
    } else {
        first_ready(q, k + 1)
    }
}

/// The dependencies of the item at `q[i]` that name another item of `q`.
pub open spec fn unmet_pred<T: HasDependencies>(q: Seq<T>) -> spec_fn(Seq<char>) -> bool {
    |d: Seq<char>| pending_names(q).contains(d)
}

/// One still-queued item in a cycle report: its name and the dependencies
/// that kept it queued.
#[derive(Debug)]
pub struct UnresolvedItem {
    pub name: TypeName,
    pub unmet: Vec<TypeName>,
}

/// The fatal result of an unresolvable dependency cycle: every still-queued
/// item, with its unmet dependencies, for diagnosis.
#[derive(Debug)]
pub struct CycleError {
    pub entries: Vec<UnresolvedItem>,
}

impl CycleError {
    /// The error lists exactly the items of `q`, in order, each with the
    /// dependencies that name another item of `q`.
    pub open spec fn describes<T: HasDependencies>(&self, q: Seq<T>) -> bool {
        &&& self.entries@.len() == q.len()
        &&& forall|i: int|
            0 <= i < q.len() ==> (#[trigger] self.entries@[i]).name@ == q[i].name_spec()
        &&& forall|i: int|
            0 <= i < q.len() ==> (#[trigger] self.entries@[i]).unmet.deep_view() == q[
                i
            ].deps_spec().filter(unmet_pred(q))
    }
}

/// A cycle among the items of `s`: positions whose items each depend on the
/// name of the next position around, wrapping at the end.
pub open spec fn cycle_edge<T: HasDependencies>(s: Seq<T>, c: Seq<int>, k: int) -> bool {
    s[c[k]].deps_spec().contains(
        s[
            if k + 1 < c.len() {
                c[k + 1]
            } else {
                c[0]
            }
        ].name_spec(),
    )
}

pub open spec fn is_cycle<T: HasDependencies>(s: Seq<T>, c: Seq<int>) -> bool {
    &&& c.len() > 0
    &&& forall|k: int| 0 <= k < c.len() ==> 0 <= #[trigger] c[k] < s.len()
    &&& forall|k: int| 0 <= k < c.len() ==> #[trigger] cycle_edge(s, c, k)
}

pub open spec fn has_cycle<T: HasDependencies>(s: Seq<T>) -> bool {
    exists|c: Seq<int>| is_cycle(s, c)
}

proof fn lemma_pending_index<T: HasDependencies>(q: Seq<T>)
    ensures
        pending_names(q).len() == q.len(),
        forall|i: int| 0 <= i < q.len() ==> pending_names(q)[i] == q[i].name_spec(),
{
}

/// Rotating the queue does not change which names are pending, nor therefore
/// which items are blocked.
proof fn lemma_rotation_pending<T: HasDependencies>(q: Seq<T>, a: int)
    requires
        0 <= a <= q.len(),
    ensures
        forall|d: Seq<char>|
            #[trigger] pending_names(q.skip(a) + q.take(a)).contains(d) <==> pending_names(
                q,
            ).contains(d),
{
    let rot = q.skip(a) + q.take(a);
    lemma_pending_index(q);
    lemma_pending_index(rot);
    assert forall|d: Seq<char>|
        #[trigger] pending_names(rot).contains(d) implies pending_names(q).contains(d) by {
        let j = choose|j: int|
            0 <= j < pending_names(rot).len() && pending_names(rot)[j] == d;
        if j < q.len() - a {
            assert(pending_names(q)[j + a] == d);
        } else {
            assert(pending_names(q)[j - (q.len() - a)] == d);
        }
    }
    assert forall|d: Seq<char>|
        pending_names(q).contains(d) implies #[trigger] pending_names(rot).contains(d) by {
        let j = choose|j: int| 0 <= j < pending_names(q).len() && pending_names(q)[j] == d;
        if j < a {
            assert(pending_names(rot)[j + (q.len() - a)] == d);
        } else {
            assert(pending_names(rot)[j - a] == d);
        }
    }
}

proof fn lemma_rotation_blocked<T: HasDependencies>(q: Seq<T>, a: int, item: T)
    requires
        0 <= a <= q.len(),
    ensures
        blocked(item, pending_names(q.skip(a) + q.take(a))) == blocked(item, pending_names(q)),
{
    let rot = q.skip(a) + q.take(a);
    lemma_rotation_pending(q, a);
    if blocked(item, pending_names(rot)) {
        let k = choose|k: int|
            0 <= k < item.deps_spec().len() && pending_names(rot).contains(
                #[trigger] item.deps_spec()[k],
            );
        assert(pending_names(q).contains(item.deps_spec()[k]));
        assert(blocked(item, pending_names(q)));
    }
    if blocked(item, pending_names(q)) {
        let k = choose|k: int|
            0 <= k < item.deps_spec().len() && pending_names(q).contains(
                #[trigger] item.deps_spec()[k],
            );
        assert(pending_names(rot).contains(item.deps_spec()[k]));
        assert(blocked(item, pending_names(rot)));
    }
}

proof fn lemma_first_ready_step<T: HasDependencies>(q: Seq<T>, j: int, a: int)
    requires
        0 <= j <= a < q.len(),
        forall|k: int| j <= k < a ==> blocked(#[trigger] q[k], pending_names(q)),
        !blocked(q[a], pending_names(q)),
    ensures
        first_ready(q, j) == a,
    decreases a - j,
{
    if j < a {
        assert(blocked(q[j], pending_names(q)));
        lemma_first_ready_step(q, j + 1, a);
    }
}

proof fn lemma_first_ready_all<T: HasDependencies>(q: Seq<T>, j: int)
    requires
        0 <= j <= q.len(),
        forall|k: int| j <= k < q.len() ==> blocked(#[trigger] q[k], pending_names(q)),
    ensures
        first_ready(q, j) == q.len(),
    decreases q.len() - j,
{
    if j < q.len() {
        assert(blocked(q[j], pending_names(q)));
        lemma_first_ready_all(q, j + 1);
    }
}

/// An item whose dependencies all name things outside the pending set is
/// never blocked by them: only dependencies on names still pending can delay
/// emission.
pub proof fn lemma_absent_dependencies_do_not_block<T: HasDependencies>(
    item: T,
    pending: Seq<Seq<char>>,
)
    requires
        forall|k: int|
            0 <= k < item.deps_spec().len() ==> !pending.contains(#[trigger] item.deps_spec()[k]),
    ensures
        !blocked(item, pending),
{
}

proof fn lemma_first_ready_props<T: HasDependencies>(q: Seq<T>, j: int)
    requires
        0 <= j <= q.len(),
    ensures
        j <= first_ready(q, j) <= q.len(),
        first_ready(q, j) < q.len() ==> !blocked(q[first_ready(q, j)], pending_names(q)),
        forall|m: int| j <= m < first_ready(q, j) ==> blocked(#[trigger] q[m], pending_names(q)),
    decreases q.len() - j,
{
    if j < q.len() && blocked(q[j], pending_names(q)) {
        lemma_first_ready_props(q, j + 1);
    }
}

/// A sequence of more than `n` values drawn from `0..n` repeats a value.
proof fn lemma_pigeonhole(p: Seq<int>, n: int)
    requires
        n >= 0,
        p.len() > n,
        forall|i: int| 0 <= i < p.len() ==> 0 <= #[trigger] p[i] < n,
    ensures
        exists|a: int, b: int| 0 <= a < b < p.len() && p[a] == p[b],
{
    broadcast use vstd::seq_lib::seq_to_set_is_finite;

    if !(exists|a: int, b: int| 0 <= a < b < p.len() && p[a] == p[b]) {
        assert forall|i: int, j: int|
            (0 <= i < p.len() && 0 <= j < p.len() && i != j) implies p[i] != p[j] by {
            if i < j {
                assert(!(0 <= i < j < p.len() && p[i] == p[j]));
            } else {
                assert(!(0 <= j < i < p.len() && p[j] == p[i]));
            }
        }
        assert(p.no_duplicates());
        p.unique_seq_to_set();
        let range = vstd::set_lib::set_int_range(0, n);
        vstd::set_lib::lemma_int_range(0, n);
        assert(p.to_set().subset_of(range)) by {
            assert forall|x: int| p.to_set().contains(x) implies range.contains(x) by {
                assert(p.contains(x));
                let w = choose|w: int| 0 <= w < p.len() && p[w] == x;
                assert(0 <= p[w] < n);
            }
        }
        vstd::set_lib::lemma_len_subset(p.to_set(), range);
        assert(false);
    }
}

/// Some index whose item's name the item at `q[i]` is blocked on.
spec fn blocking_index<T: HasDependencies>(q: Seq<T>, i: int) -> int {
    let k = choose|k: int|
        0 <= k < q[i].deps_spec().len() && pending_names(q).contains(
            #[trigger] q[i].deps_spec()[k],
        );
    choose|j: int| 0 <= j < q.len() && q[j].name_spec() == q[i].deps_spec()[k]
}

proof fn lemma_blocking_index<T: HasDependencies>(q: Seq<T>, i: int)
    requires
        0 <= i < q.len(),
        blocked(q[i], pending_names(q)),
    ensures
        0 <= blocking_index(q, i) < q.len(),
        q[i].deps_spec().contains(q[blocking_index(q, i)].name_spec()),
{
    lemma_pending_index(q);
    let k = choose|k: int|
        0 <= k < q[i].deps_spec().len() && pending_names(q).contains(
            #[trigger] q[i].deps_spec()[k],
        );
    assert(0 <= k < q[i].deps_spec().len() && pending_names(q).contains(q[i].deps_spec()[k]));
    let d = q[i].deps_spec()[k];
    assert(exists|j: int| 0 <= j < q.len() && q[j].name_spec() == d) by {
        let w = choose|w: int|
            0 <= w < pending_names(q).len() && pending_names(q)[w] == d;
        assert(q[w].name_spec() == d);
    }
    let j = blocking_index(q, i);
    assert(0 <= j < q.len() && q[j].name_spec() == d);
    assert(q[i].deps_spec().contains(q[j].name_spec())) by {
        assert(q[i].deps_spec()[k] == q[j].name_spec());
    }
}

/// A walk through the blocked queue, always stepping to an index the current
/// item is blocked on.
spec fn blocked_path<T: HasDependencies>(q: Seq<T>, len: nat) -> Seq<int>
    decreases len,
{
    if len == 0 {
        seq![0]
    } else {
        let p = blocked_path(q, (len - 1) as nat);
        p.push(blocking_index(q, p.last()))
    }
}

proof fn lemma_blocked_path<T: HasDependencies>(q: Seq<T>, len: nat)
    requires
        q.len() > 0,
        forall|i: int| 0 <= i < q.len() ==> blocked(#[trigger] q[i], pending_names(q)),
    ensures
        blocked_path(q, len).len() == len + 1,
        forall|m: int| 0 <= m <= len ==> 0 <= #[trigger] blocked_path(q, len)[m] < q.len(),
        forall|m: int|
            0 <= m < len ==> q[#[trigger] blocked_path(q, len)[m]].deps_spec().contains(
                q[blocked_path(q, len)[m + 1]].name_spec(),
            ),
    decreases len,
{
    if len == 0 {
    } else {
        lemma_blocked_path(q, (len - 1) as nat);
        let p = blocked_path(q, (len - 1) as nat);
        lemma_blocking_index(q, p.last());
        let full = blocked_path(q, len);
        assert(full == p.push(blocking_index(q, p.last())));
        assert(forall|m: int| 0 <= m <= len - 1 ==> full[m] == #[trigger] p[m]);
        assert(full[len as int] == blocking_index(q, p.last()));
        assert(p.last() == p[len - 1]);
    }
}

/// When every queued item is blocked on some queued name, the queue holds a
/// genuine dependency cycle.
#[verifier::spinoff_prover]
#[verifier::rlimit(100)]
proof fn lemma_all_blocked_has_cycle<T: HasDependencies>(q: Seq<T>)
    requires
        q.len() > 0,
        forall|i: int| 0 <= i < q.len() ==> blocked(#[trigger] q[i], pending_names(q)),
    ensures
        has_cycle(q),
{
    let n = q.len();
    let p = blocked_path(q, n);
    lemma_blocked_path(q, n);
    lemma_pigeonhole(p, n as int);
    let (a, b) = choose|a: int, b: int| 0 <= a < b < p.len() && p[a] == p[b];
    let c = p.subrange(a, b);
    assert(c.len() == b - a);
    assert forall|k: int| 0 <= k < c.len() implies 0 <= #[trigger] c[k] < q.len() by {
        assert(c[k] == p[a + k]);
    }
    assert forall|k: int| 0 <= k < c.len() implies #[trigger] cycle_edge(q, c, k) by {
        assert(c[k] == p[a + k]);
        if k + 1 < c.len() {
            assert(c[k + 1] == p[a + k + 1]);
            assert(q[p[a + k]].deps_spec().contains(q[p[a + k + 1]].name_spec()));
        } else {
            assert(c[0] == p[a] && p[a] == p[b]);
            assert(a + k == b - 1);
            assert(q[p[b - 1]].deps_spec().contains(q[p[b]].name_spec()));
        }
    }
    assert(is_cycle(q, c));
}

/// A cycle among items that all occur in `all` is a cycle of `all`.
proof fn lemma_cycle_lift<T: HasDependencies>(sub: Seq<T>, all: Seq<T>)
    requires
        has_cycle(sub),
        forall|x: T| sub.contains(x) ==> all.contains(x),
    ensures
        has_cycle(all),
{
    let c = choose|c: Seq<int>| is_cycle(sub, c);
    let c2 = Seq::new(
        c.len(),
        |k: int| choose|j: int| 0 <= j < all.len() && all[j] == sub[c[k]],
    );
    assert forall|k: int|
        0 <= k < c2.len() implies 0 <= #[trigger] c2[k] < all.len() && all[c2[k]] == sub[c[k]] by {
        assert(0 <= c[k] < sub.len());
        assert(sub[c[k]] == sub[c[k]]);
        assert(sub.contains(sub[c[k]]));
        assert(all.contains(sub[c[k]]));
        let w = choose|w: int| 0 <= w < all.len() && all[w] == sub[c[k]];
        assert(all[w] == sub[c[k]]);
    }
    assert forall|k: int| 0 <= k < c2.len() implies #[trigger] cycle_edge(all, c2, k) by {
        assert(cycle_edge(sub, c, k));
        if k + 1 < c.len() {
            assert(all[c2[k]] == sub[c[k]] && all[c2[k + 1]] == sub[c[k + 1]]);
        } else {
            assert(all[c2[k]] == sub[c[k]] && all[c2[0]] == sub[c[0]]);
        }
    }
    assert(is_cycle(all, c2));
}

proof fn lemma_chain_descends(pos: Seq<int>, k: int)
    requires
        pos.len() > 0,
        0 <= k < pos.len(),
        forall|m: int| 0 <= m < pos.len() - 1 ==> #[trigger] pos[m + 1] < pos[m],
    ensures
        pos[k] <= pos[0] - k,
    decreases k,
{
    if k > 0 {
        lemma_chain_descends(pos, k - 1);
        assert(pos[(k - 1) + 1] < pos[k - 1]);
    }
}

/// A complete output in which every in-set dependency precedes its dependent
/// certifies that the input had no cycle.
proof fn lemma_ordered_complete_acyclic<T: HasDependencies>(items: Seq<T>, out: Seq<T>)
    requires
        out.to_multiset() == items.to_multiset(),
        forall|i: int, j: int|
            0 <= i < out.len() && 0 <= j < out.len() && #[trigger] out[j].deps_spec().contains(
                out[i].name_spec(),
            ) ==> i < j,
    ensures
        !has_cycle(items),
{
    broadcast use vstd::seq_lib::group_to_multiset_ensures;

    if has_cycle(items) {
        let c = choose|c: Seq<int>| is_cycle(items, c);
        let pos = Seq::new(
            c.len(),
            |k: int| choose|j: int| 0 <= j < out.len() && out[j] == items[c[k]],
        );
        assert forall|k: int|
            0 <= k < c.len() implies 0 <= #[trigger] pos[k] < out.len() && out[pos[k]] == items[
            c[k]
        ] by {
            assert(0 <= c[k] < items.len());
            assert(items[c[k]] == items[c[k]]);
            assert(items.contains(items[c[k]]));
            assert(items.to_multiset().count(items[c[k]]) > 0);
            assert(out.to_multiset().count(items[c[k]]) > 0);
            assert(out.contains(items[c[k]]));
            let w = choose|w: int| 0 <= w < out.len() && out[w] == items[c[k]];
            assert(out[w] == items[c[k]]);
        }
        assert forall|m: int| 0 <= m < pos.len() - 1 implies #[trigger] pos[m + 1] < pos[m] by {
            assert(cycle_edge(items, c, m));
            assert(out[pos[m]].deps_spec().contains(out[pos[m + 1]].name_spec()));
        }
        let last = c.len() - 1;
        assert(cycle_edge(items, c, last));
        assert(out[pos[last]].deps_spec().contains(out[pos[0]].name_spec()));
        assert(pos[0] < pos[last]);
        lemma_chain_descends(pos, last);
        assert(false);
    }
}

/// The lazy ordering pass itself: a working queue, rotated until ready items
/// surface.
pub struct DepthFirstIter<T> {
    queue: VecDeque<T>,
}

impl<T> View for DepthFirstIter<T> {
    type V = Seq<T>;

    closed spec fn view(&self) -> Seq<T> {
        self.queue@
    }
}

/// Begins a depth-first ordering of `inputs`: the items will be yielded so
/// that every item comes after all items it depends on, insertion order
/// breaking ties.
pub fn depth_first<T: HasDependencies>(inputs: Vec<T>) -> (it: DepthFirstIter<T>)
    ensures
        it@ == inputs@,
{
    let ghost full = inputs@;
    let mut inputs = inputs;
    let mut queue: VecDeque<T> = VecDeque::new();
    proof {
        assert(queue@ + inputs@ =~= full);
    }
    while inputs.len() > 0
        invariant
            queue@ + inputs@ == full,
        decreases inputs@.len(),
    {
        let ghost qpre = queue@;
        let ghost ipre = inputs@;
        let x = inputs.remove(0);
        queue.push_back(x);
        proof {
            assert(queue@ + inputs@ =~= qpre + ipre);
        }
    }
    proof {
        assert(queue@ =~= full);
    }
    DepthFirstIter { queue }
}

impl<T: HasDependencies> DepthFirstIter<T> {
    /// Whether `d` names an item still in the queue.
    fn name_pending(&self, d: &TypeName) -> (b: bool)
        ensures
            b == pending_names(self.queue@).contains(d@),
    {
        let n = self.queue.len();
        let mut j: usize = 0;
        while j < n
            invariant
                j <= n,
                n == self.queue@.len(),
                forall|j2: int| 0 <= j2 < j ==> (#[trigger] self.queue@[j2]).name_spec() != d@,
            decreases n - j,
        {
            if self.queue[j].name().same_as(d) {
                proof {
                    lemma_pending_index(self.queue@);
                    assert(pending_names(self.queue@)[j as int] == d@);
                }
                return true;
            }
            j = j + 1;
        }
        proof {
            lemma_pending_index(self.queue@);
            if pending_names(self.queue@).contains(d@) {
                let w = choose|w: int|
                    0 <= w < pending_names(self.queue@).len() && pending_names(self.queue@)[w]
                        == d@;
                assert(self.queue@[w].name_spec() == d@);
            }
        }
        false
    }

    /// Whether the front item has a dependency on a name still in the queue
    /// (its own name included).
    fn front_blocked(&self) -> (b: bool)
        requires
            self.queue@.len() > 0,
        ensures
            b == blocked(self.queue@[0], pending_names(self.queue@)),
    {
        let dn = self.queue[0].deps_len();
        let mut k: usize = 0;
        while k < dn
            invariant
                self.queue@.len() > 0,
                dn == self.queue@[0].deps_spec().len(),
                k <= dn,
                forall|k2: int|
                    0 <= k2 < k ==> !pending_names(self.queue@).contains(
                        #[trigger] self.queue@[0].deps_spec()[k2],
                    ),
            decreases dn - k,
        {
            let d = self.queue[0].dep_at(k);
            if self.name_pending(d) {
                proof {
                    assert(pending_names(self.queue@).contains(self.queue@[0].deps_spec()[
                        k as int
                    ]));
                }
                return true;
            }
            k = k + 1;
        }
        false
    }

    /// Yields the next ready item: the first queued item none of whose
    /// dependencies names something still queued.  Blocked items rotate to
    /// the back; a full rotation with nothing ready is an unresolvable
    /// cycle, reported with each queued item's unmet dependencies.
    pub fn next(&mut self) -> (r: Result<Option<T>, CycleError>)
        ensures
            old(self)@.len() == 0 ==> r == Ok::<Option<T>, CycleError>(None) && final(self)@
                == old(self)@,
            old(self)@.len() > 0 && first_ready(old(self)@, 0) < old(self)@.len() ==> r == Ok::<
                Option<T>,
                CycleError,
            >(Some(old(self)@[first_ready(old(self)@, 0)])) && final(self)@ == old(self)@.skip(
                first_ready(old(self)@, 0) + 1,
            ) + old(self)@.take(first_ready(old(self)@, 0)),
            old(self)@.len() > 0 && first_ready(old(self)@, 0) == old(self)@.len() ==> (r matches
                Err(e) && e.describes(old(self)@) && final(self)@ == old(self)@),
    {
        let ghost q0 = self.queue@;
        let n = self.queue.len();
        if n == 0 {
            return Ok(None);
        }
        let mut attempts: usize = 0;
        proof {
            assert(q0.skip(0) + q0.take(0) =~= q0);
        }
        while attempts < n
            invariant
                old(self)@ == q0,
                n == q0.len(),
                attempts <= n,
                n > 0,
                self.queue@ == q0.skip(attempts as int) + q0.take(attempts as int),
                forall|k: int|
                    0 <= k < attempts ==> blocked(#[trigger] q0[k], pending_names(q0)),
            decreases n - attempts,
        {
            proof {
                assert(self.queue@[0] == q0[attempts as int]);
            }
            let ready = !self.front_blocked();
            proof {
                lemma_rotation_blocked(q0, attempts as int, q0[attempts as int]);
            }
            if ready {
                proof {
                    assert(!blocked(q0[attempts as int], pending_names(q0)));
                    lemma_first_ready_step(q0, 0, attempts as int);
                }
                let x = self.queue.pop_front().unwrap();
                proof {
                    assert(self.queue@ =~= q0.skip(attempts + 1) + q0.take(attempts as int));
                }
                return Ok(Some(x));
            }
            let x = self.queue.pop_front().unwrap();
            self.queue.push_back(x);
            attempts = attempts + 1;
            proof {
                assert(self.queue@ =~= q0.skip(attempts as int) + q0.take(attempts as int));
            }
        }
        proof {
            assert(self.queue@ =~= q0);
            lemma_first_ready_all(q0, 0);
        }
        let mut entries: Vec<UnresolvedItem> = Vec::new();
        let mut i: usize = 0;
        while i < n
            invariant
                n == q0.len(),
                i <= n,
                self.queue@ == q0,
                entries@.len() == i,
                forall|j: int|
                    0 <= j < i ==> (#[trigger] entries@[j]).name@ == q0[j].name_spec(),
                forall|j: int|
                    0 <= j < i ==> (#[trigger] entries@[j]).unmet.deep_view() == q0[
                        j
                    ].deps_spec().filter(unmet_pred(q0)),
            decreases n - i,
        {
            let nm = self.queue[i].name().clone();
            let dn = self.queue[i].deps_len();
            let mut unmet: Vec<TypeName> = Vec::new();
            let mut k: usize = 0;
            proof {
                reveal(Seq::filter);
                assert(q0[i as int].deps_spec().take(0) =~= Seq::<Seq<char>>::empty());
                assert(unmet.deep_view() =~= q0[i as int].deps_spec().take(0).filter(
                    unmet_pred(q0),
                ));
            }
            while k < dn
                invariant
                    self.queue@ == q0,
                    i < n,
                    n == q0.len(),
                    dn == q0[i as int].deps_spec().len(),
                    k <= dn,
                    unmet.deep_view() == q0[i as int].deps_spec().take(k as int).filter(
                        unmet_pred(q0),
                    ),
                decreases dn - k,
            {
                let d = self.queue[i].dep_at(k);
                let ghost pre = unmet.deep_view();
                let ghost dep = q0[i as int].deps_spec()[k as int];
                let p = self.name_pending(d);
                if p {
                    unmet.push(d.clone());
                    proof {
                        assert(unmet.deep_view() =~= pre.push(dep));
                    }
                }
                proof {
                    reveal(Seq::filter);
                    let taken = q0[i as int].deps_spec().take(k + 1);
                    assert(taken.drop_last() =~= q0[i as int].deps_spec().take(k as int));
                    assert(taken.last() == dep);
                    assert(unmet_pred(q0)(dep) == p);
                }
                k = k + 1;
            }
            proof {
                assert(q0[i as int].deps_spec().take(dn as int) =~= q0[i as int].deps_spec());
            }
            entries.push(UnresolvedItem { name: nm, unmet });
            i = i + 1;
        }
        let e = CycleError { entries };
        proof {
            assert(e.describes(q0));
        }
        Err(e)
    }
}

/// What a cycle report promises of the input it came from: it describes some
/// non-empty selection of the input items, every one of them blocked on a
/// name of that same selection.
pub open spec fn reports_blocked_subset<T: HasDependencies>(e: CycleError, items: Seq<T>) -> bool {
    exists|q: Seq<T>|
        (#[trigger] e.describes(q)) && q.len() > 0 && (forall|x: T|
            q.contains(x) ==> items.contains(x)) && (forall|i: int|
            0 <= i < q.len() ==> blocked(#[trigger] q[i], pending_names(q)))
}

/// Orders all of `items` at once.  On success the result holds exactly the
/// input items, each once, with every item placed after all items it depends
/// on (dependencies on names absent from the input impose nothing); success
/// comes exactly when the input holds no dependency cycle, and a cycle is
/// reported with every still-blocked item's name and unmet dependencies.
pub fn depth_first_order<T: HasDependencies>(items: Vec<T>) -> (r: Result<Vec<T>, CycleError>)
    ensures
        (r matches Ok(out) ==> out@.to_multiset() == items@.to_multiset() && out@.len()
            == items@.len() && (forall|i: int, j: int|
            0 <= i < out@.len() && 0 <= j < out@.len() && #[trigger] out@[j].deps_spec().contains(
                out@[i].name_spec(),
            ) ==> i < j)),
        (r matches Ok(out) ==> !has_cycle(items@)),
        (r matches Err(e) ==> has_cycle(items@) && reports_blocked_subset(e, items@)),
{
    broadcast use vstd::seq_lib::group_to_multiset_ensures;
    broadcast use vstd::seq_lib::lemma_multiset_commutative;
    broadcast use vstd::multiset::group_multiset_axioms;

    let ghost input = items@;
    let mut it = depth_first(items);
    let mut out: Vec<T> = Vec::new();
    proof {
        assert(out@.to_multiset() =~= Multiset::<T>::empty());
        assert(out@.to_multiset().add(it@.to_multiset()) =~= input.to_multiset());
    }
    loop
        invariant
            input == items@,
            out@.to_multiset().add(it@.to_multiset()) == input.to_multiset(),
            forall|a: int, b: int|
                0 <= a <= b < out@.len() ==> !(#[trigger] out@[a].deps_spec().contains(
                    out@[b].name_spec(),
                )),
            forall|a: int, qi: int|
                0 <= a < out@.len() && 0 <= qi < it@.len() ==> !(
                #[trigger] out@[a].deps_spec().contains((#[trigger] it@[qi]).name_spec())),
        decreases it@.len(),
    {
        let ghost qpre = it@;
        let ghost outpre = out@;
        proof {
            lemma_first_ready_props(qpre, 0);
        }
        match it.next() {
            Ok(Some(x)) => {
                let ghost k = first_ready(qpre, 0);
                proof {
                    assert(x == qpre[k]);
                    assert(!blocked(qpre[k], pending_names(qpre)));
                    lemma_pending_index(qpre);
                    assert(pending_names(qpre)[k] == qpre[k].name_spec());
                    assert(pending_names(qpre).contains(qpre[k].name_spec()));
                }
                out.push(x);
                proof {
                    // the emitted item depends on nothing still pending
                    assert forall|d: Seq<char>|
                        pending_names(qpre).contains(d) implies !x.deps_spec().contains(d) by {
                        if x.deps_spec().contains(d) {
                            let w = choose|w: int|
                                0 <= w < x.deps_spec().len() && x.deps_spec()[w] == d;
                            assert(pending_names(qpre).contains(x.deps_spec()[w]));
                            assert(blocked(qpre[k], pending_names(qpre)));
                        }
                    }
                    // multiset bookkeeping
                    vstd::seq_lib::lemma_multiset_commutative(
                        qpre.take(k),
                        seq![x] + qpre.skip(k + 1),
                    );
                    vstd::seq_lib::lemma_multiset_commutative(seq![x], qpre.skip(k + 1));
                    vstd::seq_lib::lemma_multiset_commutative(qpre.skip(k + 1), qpre.take(k));
                    assert(qpre =~= qpre.take(k) + (seq![x] + qpre.skip(k + 1)));
                    assert(qpre.to_multiset() =~= qpre.take(k).to_multiset().add(
                        seq![x].to_multiset().add(qpre.skip(k + 1).to_multiset()),
                    ));
                    assert(seq![x] =~= Seq::<T>::empty().push(x));
                    Seq::<T>::empty().to_multiset_ensures();
                    assert(Seq::<T>::empty().to_multiset() =~= Multiset::<T>::empty());
                    assert(seq![x].to_multiset() =~= Multiset::<T>::empty().insert(x));
                    assert(it@.to_multiset() =~= qpre.skip(k + 1).to_multiset().add(
                        qpre.take(k).to_multiset(),
                    ));
                    assert(out@ == outpre.push(x));
                    vstd::seq_lib::to_multiset_build(outpre, x);
                    assert(out@.to_multiset() =~= outpre.to_multiset().insert(x));
                    assert(out@.to_multiset().add(it@.to_multiset()) =~= input.to_multiset());
                    // the ordering invariants carry over to the new item
                    assert forall|a: int, b: int|
                        0 <= a <= b < out@.len() implies !(
                    #[trigger] out@[a].deps_spec().contains(out@[b].name_spec())) by {
                        if b == out@.len() - 1 {
                            if a < b {
                                assert(out@[a] == outpre[a]);
                                assert(qpre[k].name_spec() == pending_names(qpre)[k]);
                                assert(pending_names(qpre).contains(qpre[k].name_spec()));
                            } else {
                                assert(out@[a] == x);
                                assert(pending_names(qpre).contains(qpre[k].name_spec()));
                            }
                        }
                    }
                    assert forall|a: int, qi: int|
                        0 <= a < out@.len() && 0 <= qi < it@.len() implies !(
                    #[trigger] out@[a].deps_spec().contains((#[trigger] it@[qi]).name_spec())) by {
                        let nm = it@[qi].name_spec();
                        if qi < qpre.len() - (k + 1) {
                            assert(it@[qi] == qpre[qi + k + 1]);
                            assert(pending_names(qpre)[qi + k + 1] == nm);
                        } else {
                            assert(it@[qi] == qpre[qi - (qpre.len() - (k + 1))]);
                            assert(pending_names(qpre)[qi - (qpre.len() - (k + 1))] == nm);
                        }
                        assert(pending_names(qpre).contains(nm));
                        if a == out@.len() - 1 {
                            assert(out@[a] == x);
                        } else {
                            assert(out@[a] == outpre[a]);
                        }
                    }
                }
            },
            Ok(None) => {
                proof {
                    assert(qpre.len() == 0);
                    qpre.to_multiset_ensures();
                    assert(qpre.to_multiset() =~= Multiset::<T>::empty());
                    assert(out@.to_multiset() =~= input.to_multiset());
                    out@.to_multiset_ensures();
                    input.to_multiset_ensures();
                    assert(out@.len() == out@.to_multiset().len());
                    assert(input.len() == input.to_multiset().len());
                    assert forall|i: int, j: int|
                        0 <= i < out@.len() && 0 <= j < out@.len()
                            && #[trigger] out@[j].deps_spec().contains(
                            out@[i].name_spec(),
                        ) implies i < j by {
                        if i >= j {
                            assert(!(out@[j].deps_spec().contains(out@[i].name_spec())));
                        }
                    }
                    lemma_ordered_complete_acyclic(input, out@);
                }
                return Ok(out);
            },
            Err(e) => {
                proof {
                    assert(qpre.len() > 0);
                    assert(first_ready(qpre, 0) == qpre.len());
                    assert(forall|i: int|
                        0 <= i < qpre.len() ==> blocked(#[trigger] qpre[i], pending_names(qpre)));
                    lemma_all_blocked_has_cycle(qpre);
                    assert forall|x: T| qpre.contains(x) implies input.contains(x) by {
                        qpre.to_multiset_ensures();
                        input.to_multiset_ensures();
                        assert(qpre.to_multiset().count(x) > 0);
                        assert(input.to_multiset().count(x) > 0);
                    }
                    lemma_cycle_lift(qpre, input);
                    assert(e.describes(qpre));
                    assert(reports_blocked_subset(e, items@)) by {
                        assert((#[trigger] e.describes(qpre)) && qpre.len() > 0 && (forall|x: T|
                            qpre.contains(x) ==> items@.contains(x)) && (forall|i: int|
                            0 <= i < qpre.len() ==> blocked(
                                #[trigger] qpre[i],
                                pending_names(qpre),
                            )));
                    }
                }
                return Err(e);
            },
        }
    }
}

/// The text of one diagnostic line: the item's name, a colon, and its unmet
/// dependencies joined by commas.
pub open spec fn line_of(e: UnresolvedItem) -> Seq<char> {
    e.name@ + ": "@ + joined_with(e.unmet.deep_view(), ","@)
}

/// The full diagnostic text of a cycle report.
pub open spec fn message_text(entries: Seq<UnresolvedItem>) -> Seq<char> {
    "Failed to find a candidate; there must be a circular dependency. Queue is "@ + joined_with(
        entries.map_values(|e: UnresolvedItem| line_of(e)),
        "\n"@,
    )
}

impl CycleError {
    /// Renders the report for a human: every still-queued item on its own
    /// line, with the dependencies that kept it queued.
    pub fn message(&self) -> (r: String)
        ensures
            r@ == message_text(self.entries@),
    {
        let n = self.entries.len();
        let mut lines: Vec<String> = Vec::new();
        let mut i: usize = 0;
        while i < n
            invariant
                i <= n,
                n == self.entries@.len(),
                lines.deep_view() == self.entries@.take(i as int).map_values(
                    |e: UnresolvedItem| line_of(e),
                ),
            decreases n - i,
        {
            let ghost lpre = lines.deep_view();
            let e = &self.entries[i];
            let dn = e.unmet.len();
            let mut deps: Vec<String> = Vec::new();
            let mut j: usize = 0;
            proof {
                assert(deps.deep_view() =~= e.unmet.deep_view().take(0));
            }
            while j < dn
                invariant
                    j <= dn,
                    dn == e.unmet@.len(),
                    deps.deep_view() == e.unmet.deep_view().take(j as int),
                decreases dn - j,
            {
                let ghost dpre = deps.deep_view();
                deps.push(String::from_str(e.unmet[j].as_str()));
                proof {
                    assert(deps.deep_view() =~= dpre.push(e.unmet@[j as int]@));
                    assert(deps.deep_view() =~= e.unmet.deep_view().take(j + 1));
                }
                j = j + 1;
            }
            proof {
                assert(e.unmet.deep_view().take(dn as int) =~= e.unmet.deep_view());
            }
            let joined = join_all(&deps, ",");
            let mut line = String::from_str(e.name.as_str());
            line.append(": ");
            line.append(joined.as_str());
            proof {
                assert(line@ =~= line_of(self.entries@[i as int]));
            }
            lines.push(line);
            proof {
                assert(lines.deep_view() =~= lpre.push(line_of(self.entries@[i as int])));
                assert(lines.deep_view() =~= self.entries@.take(i + 1).map_values(
                    |e2: UnresolvedItem| line_of(e2),
                ));
            }
            i = i + 1;
        }
        proof {
            assert(self.entries@.take(n as int) =~= self.entries@);
        }
        let mut out = String::from_str(
            "Failed to find a candidate; there must be a circular dependency. Queue is ",
        );
        out.append(join_all(&lines, "\n").as_str());
        out
    }
}

} // verus!
