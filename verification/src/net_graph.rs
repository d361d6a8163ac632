//! The connectivity graph of a schematic sheet: which points are joined, and
//! which net names stand on them.
use crate::geometry::{on_segment, key_of, point_on_segment, pt_key, same_key, Label, Point, Wire};
use crate::text;
use vstd::prelude::*;

verus! {

/// Distance within which a label or a junction dot sits on a wire.
pub const ATTACH_TOLERANCE_NM: u64 = 10000;

/// The model of a connectivity graph: the representative of each known point,
/// and the net name on each labelled point.
pub ghost struct NetView {
    pub roots: Map<(i64, i64), (i64, i64)>,
    pub labels: Map<(i64, i64), Seq<char>>,
}

impl NetView {
    /// The representative of a point; a point that the graph does not know
    /// stands for itself.
    pub open spec fn root(self, k: (i64, i64)) -> (i64, i64) {
        if self.roots.dom().contains(k) {
            self.roots[k]
        } else {
            k
        }
    }

    /// Whether two points are joined.
    pub open spec fn connected(self, a: (i64, i64), b: (i64, i64)) -> bool {
        self.root(a) == self.root(b)
    }

    /// The graph in which `k` is known.
    pub open spec fn ensured(self, k: (i64, i64)) -> NetView {
        if self.roots.dom().contains(k) {
            self
        } else {
            NetView { roots: self.roots.insert(k, k), labels: self.labels }
        }
    }

    /// The graph in which the points of `a` and those of `b` are joined; the
    /// representative of `a` stands for all of them.
    pub open spec fn joined(self, a: (i64, i64), b: (i64, i64)) -> NetView {
        let g = self.ensured(a).ensured(b);
        let ra = g.root(a);
        let rb = g.root(b);
        NetView {
            roots: g.roots.map_values(
                |r: (i64, i64)|
                    if r == rb {
                        ra
                    } else {
                        r
                    },
            ),
            labels: g.labels,
        }
    }

    /// A representative represents itself.
    pub open spec fn wf(self) -> bool {
        &&& forall|k: (i64, i64)|
            #![trigger self.roots[k]]
            self.roots.dom().contains(k) ==> self.roots.dom().contains(self.roots[k])
                && self.roots[self.roots[k]] == self.roots[k]
        &&& self.labels.dom().subset_of(self.roots.dom())
    }
}

/// A union-find graph over points in micrometres.
pub struct NetGraph {
    keys: Vec<(i64, i64)>,
    roots: Vec<usize>,
    nets: Vec<Option<String>>,
}

impl NetGraph {
    spec fn inv(&self) -> bool {
        &&& self.keys@.len() == self.roots@.len()
        &&& self.keys@.len() == self.nets@.len()
        &&& forall|i: int, j: int|
            0 <= i < j < self.keys@.len() ==> #[trigger] self.keys@[i] != #[trigger] self.keys@[j]
        &&& forall|i: int|
            0 <= i < self.roots@.len() ==> (#[trigger] self.roots@[i]) < self.keys@.len()
        &&& forall|i: int|
            0 <= i < self.roots@.len() ==> self.roots@[(#[trigger] self.roots@[i]) as int]
                == self.roots@[i]
    }

    /// Whether the graph is well formed.
    pub closed spec fn wf(&self) -> bool {
        self.inv()
    }

    spec fn has_key(&self, k: (i64, i64)) -> bool {
        exists|i: int| 0 <= i < self.keys@.len() && self.keys@[i] == k
    }

    spec fn position_of(&self, k: (i64, i64)) -> int {
        choose|i: int| 0 <= i < self.keys@.len() && self.keys@[i] == k
    }

    proof fn lemma_position(&self, i: int)
        requires
            self.inv(),
            0 <= i < self.keys@.len(),
        ensures
            self.has_key(self.keys@[i]),
            self.position_of(self.keys@[i]) == i,
    {
        let k = self.keys@[i];
        let p = self.position_of(k);
        assert(0 <= p < self.keys@.len() && self.keys@[p] == k);
        if p < i {
            assert(self.keys@[p] != self.keys@[i]);
        } else if i < p {
            assert(self.keys@[i] != self.keys@[p]);
        }
    }
}

impl View for NetGraph {
    type V = NetView;

    closed spec fn view(&self) -> NetView {
        NetView {
            roots: Map::new(
                |k: (i64, i64)| self.has_key(k),
                |k: (i64, i64)| self.keys@[self.roots@[self.position_of(k)] as int],
            ),
            labels: Map::new(
                |k: (i64, i64)| self.has_key(k) && self.nets@[self.position_of(k)] is Some,
                |k: (i64, i64)| self.nets@[self.position_of(k)]->0@,
            ),
        }
    }
}

impl NetGraph {
    /// A well-formed graph has a well-formed model.
    pub proof fn lemma_view_wf(&self)
        requires
            self.wf(),
        ensures
            self@.wf(),
    {
        assert forall|k: (i64, i64)|
            #![trigger self@.roots[k]]
            self@.roots.dom().contains(k) implies self@.roots.dom().contains(self@.roots[k])
            && self@.roots[self@.roots[k]] == self@.roots[k] by {
            let p = self.position_of(k);
            let r = self.roots@[p] as int;
            self.lemma_position(r);
        }
    }

    /// A graph without points.
    pub fn new() -> (g: NetGraph)
        ensures
            g.wf(),
            g@.roots == Map::<(i64, i64), (i64, i64)>::empty(),
            g@.labels == Map::<(i64, i64), Seq<char>>::empty(),
    {
        let g = NetGraph { keys: Vec::new(), roots: Vec::new(), nets: Vec::new() };
        proof {
            assert(g@.roots =~= Map::<(i64, i64), (i64, i64)>::empty());
            assert(g@.labels =~= Map::<(i64, i64), Seq<char>>::empty());
        }
        g
    }

    fn lookup(&self, k: (i64, i64)) -> (r: Option<usize>)
        requires
            self.inv(),
        ensures
            match r {
                Some(i) => i < self.keys@.len() && self.keys@[i as int] == k && self.has_key(k)
                    && self.position_of(k) == i,
                None => !self.has_key(k),
            },
    {
        let mut i: usize = 0;
        while i < self.keys.len()
            invariant
                self.inv(),
                i <= self.keys@.len(),
                forall|j: int| 0 <= j < i ==> self.keys@[j] != k,
            decreases self.keys@.len() - i,
        {
            if same_key(self.keys[i], k) {
                proof {
                    self.lemma_position(i as int);
                }
                return Some(i);
            }
            i += 1;
        }
        None
    }

    /// Makes the point known, and returns its position.
    fn place(&mut self, k: (i64, i64)) -> (i: usize)
        requires
            old(self).inv(),
        ensures
            final(self).inv(),
            final(self)@ == old(self)@.ensured(k),
            i < final(self).keys@.len(),
            final(self).keys@[i as int] == k,
            final(self).has_key(k),
            final(self).position_of(k) == i,
    {
        match self.lookup(k) {
            Some(i) => i,
            None => {
                let ghost before = *self;
                let n: usize = self.keys.len();
                self.keys.push(k);
                self.roots.push(n);
                self.nets.push(None);
                proof {
                    assert(self.inv());
                    self.lemma_position(n as int);
                    let want = before@.ensured(k);
                    assert forall|q: (i64, i64)| #[trigger] self.has_key(q) <==> before.has_key(q)
                        || q == k by {
                        if before.has_key(q) {
                            let p = before.position_of(q);
                            assert(self.keys@[p] == q);
                        }
                        if self.has_key(q) && q != k {
                            let p = self.position_of(q);
                            assert(before.keys@[p] == q);
                        }
                    }
                    assert forall|q: (i64, i64)| before.has_key(q) implies #[trigger]
                        self.position_of(q) == before.position_of(q) by {
                        let p = before.position_of(q);
                        assert(self.keys@[p] == q);
                        self.lemma_position(p);
                    }
                    assert(self@.roots =~= want.roots);
                    assert(self@.labels =~= want.labels);
                }
                n
            },
        }
    }

    /// Makes the point known.
    pub fn ensure(&mut self, k: (i64, i64))
        requires
            old(self).wf(),
        ensures
            final(self).wf(),
            final(self)@ == old(self)@.ensured(k),
    {
        self.place(k);
    }

    /// The representative of the point, which becomes known.
    pub fn find(&mut self, k: (i64, i64)) -> (r: (i64, i64))
        requires
            old(self).wf(),
        ensures
            final(self).wf(),
            final(self)@ == old(self)@.ensured(k),
            r == old(self)@.root(k),
    {
        let i = self.place(k);
        proof {
            assert(self@.roots.dom().contains(k));
            assert(self@.roots[k] == self.keys@[self.roots@[i as int] as int]);
        }
        self.keys[self.roots[i]]
    }

    /// Joins the points of `a` with those of `b`.
    pub fn union(&mut self, a: (i64, i64), b: (i64, i64))
        requires
            old(self).wf(),
        ensures
            final(self).wf(),
            final(self)@ == old(self)@.joined(a, b),
    {
        let ghost start = self@;
        self.place(a);
        self.place(b);
        let ghost mid = self@;
        let ia: usize = match self.lookup(a) {
            Some(i) => i,
            None => {
                proof {
                    assert(start.ensured(a).ensured(b).roots.dom().contains(a));
                    assert(self@.roots.dom().contains(a));
                }
                0
            },
        };
        let ib: usize = match self.lookup(b) {
            Some(i) => i,
            None => {
                proof {
                    assert(start.ensured(a).ensured(b).roots.dom().contains(b));
                    assert(self@.roots.dom().contains(b));
                }
                0
            },
        };
        let ra: usize = self.roots[ia];
        let rb: usize = self.roots[ib];
        let ghost before = *self;
        let mut i: usize = 0;
        while i < self.roots.len()
            invariant
                before.inv(),
                self.keys@ == before.keys@,
                self.nets@ == before.nets@,
                self.roots@.len() == before.roots@.len(),
                i <= self.roots@.len(),
                ra < self.keys@.len(),
                forall|j: int|
                    0 <= j < i ==> self.roots@[j] == (if before.roots@[j] == rb {
                        ra
                    } else {
                        before.roots@[j]
                    }),
                forall|j: int| i <= j < self.roots@.len() ==> self.roots@[j] == before.roots@[j],
            decreases self.roots@.len() - i,
        {
            if self.roots[i] == rb {
                self.roots.set(i, ra);
            }
            i += 1;
        }
        proof {
            assert(before.roots@[ra as int] == ra);
            assert(self.inv()) by {
                assert forall|j: int, m: int|
                    0 <= j < m < self.keys@.len() implies #[trigger] self.keys@[j]
                    != #[trigger] self.keys@[m] by {
                    assert(before.keys@[j] != before.keys@[m]);
                }
                assert forall|j: int| 0 <= j < self.roots@.len() implies (#[trigger] self.roots@[j])
                    < self.keys@.len() by {
                    assert(before.roots@[j] < before.keys@.len());
                }
                assert forall|j: int| 0 <= j < self.roots@.len() implies self.roots@[(
                #[trigger] self.roots@[j]) as int] == self.roots@[j] by {
                    let r = before.roots@[j];
                    assert(before.roots@[r as int] == r);
                    if r == rb {
                        assert(self.roots@[j] == ra);
                    } else {
                        assert(self.roots@[j] == r);
                    }
                }
            }
            assert forall|q: (i64, i64)| #[trigger] self.has_key(q) == before.has_key(q) by {}
            assert forall|q: (i64, i64)| #[trigger] self.position_of(q) == before.position_of(q) by {}
            let want = start.joined(a, b);
            before.lemma_position(ra as int);
            before.lemma_position(rb as int);
            assert(self@.labels =~= want.labels);
            assert(mid.root(a) == before.keys@[ra as int]);
            assert(mid.root(b) == before.keys@[rb as int]);
            assert forall|q: (i64, i64)| self.has_key(q) implies #[trigger] self@.roots[q]
                == want.roots[q] by {
                let p = before.position_of(q);
                let r = before.roots@[p];
                before.lemma_position(r as int);
                if before.keys@[r as int] == before.keys@[rb as int] {
                    assert(r == rb);
                }
            }
            assert(self@.roots =~= want.roots);
        }
    }

    /// Puts a net name on the point. A later name replaces an earlier one.
    pub fn add_label(&mut self, k: (i64, i64), net: &str)
        requires
            old(self).wf(),
        ensures
            final(self).wf(),
            final(self)@.roots == old(self)@.ensured(k).roots,
            final(self)@.labels == old(self)@.labels.insert(k, net@),
    {
        let ghost start = self@;
        let i = self.place(k);
        let ghost before = *self;
        self.nets.set(i, Some(net.to_owned()));
        proof {
            assert(self.inv());
            assert forall|q: (i64, i64)| #[trigger] self.has_key(q) == before.has_key(q) by {}
            assert forall|q: (i64, i64)| #[trigger] self.position_of(q) == before.position_of(q) by {}
            assert(self@.roots =~= start.ensured(k).roots);
            assert forall|q: (i64, i64)| #[trigger] self.has_key(q) && q != k implies
                self.position_of(q) != i by {
                assert(self.keys@[self.position_of(q)] == q);
            }
            assert(self@.labels =~= start.labels.insert(k, net@));
        }
    }
}

impl NetView {
    /// Whether a label with that net name is joined to the point.
    pub open spec fn on_net(self, net: Seq<char>, k: (i64, i64)) -> bool {
        exists|l: (i64, i64)|
            #![trigger self.labels[l]]
            self.labels.dom().contains(l) && self.labels[l] == net && self.connected(l, k)
    }
}

impl NetGraph {
    /// Joins the two ends of a wire.
    pub fn add_wire(&mut self, w: &Wire)
        requires
            old(self).wf(),
        ensures
            final(self).wf(),
            final(self)@ == old(self)@.joined(key_of(w.start), key_of(w.end)),
    {
        let a = pt_key(w.start);
        let b = pt_key(w.end);
        self.union(a, b);
    }

    /// The net name of a label that is joined to the point, which becomes
    /// known. Where labels with different names are joined, any of the names
    /// may be returned.
    pub fn net_at(&mut self, k: (i64, i64)) -> (r: Option<String>)
        requires
            old(self).wf(),
        ensures
            final(self).wf(),
            final(self)@ == old(self)@.ensured(k),
            match r {
                Some(n) => old(self)@.on_net(n@, k),
                None => forall|n: Seq<char>| !#[trigger] old(self)@.on_net(n, k),
            },
    {
        let ghost start = self@;
        let at = self.place(k);
        let root: usize = self.roots[at];
        let mut i: usize = 0;
        while i < self.keys.len()
            invariant
                self.inv(),
                self@ == start.ensured(k),
                start == old(self)@,
                at < self.keys@.len(),
                self.keys@[at as int] == k,
                root == self.roots@[at as int],
                self.position_of(k) == at,
                self.has_key(k),
                i <= self.keys@.len(),
                forall|j: int|
                    0 <= j < i ==> #[trigger] self.nets@[j] is None || self.roots@[j] != root,
            decreases self.keys@.len() - i,
        {
            if self.roots[i] == root {
                if let Some(n) = &self.nets[i] {
                    proof {
                        let l = self.keys@[i as int];
                        self.lemma_position(i as int);
                        assert(self@.labels.dom().contains(l));
                        assert(self@.labels[l] == n@);
                        assert(self@.root(l) == self@.root(k));
                        assert(start.labels[l] == n@);
                        assert(start.connected(l, k));
                    }
                    return Some(n.clone());
                }
            }
            i += 1;
        }
        proof {
            assert forall|n: Seq<char>| !#[trigger] start.on_net(n, k) by {
                if start.on_net(n, k) {
                    let l = choose|l: (i64, i64)|
                        #![trigger start.labels[l]]
                        start.labels.dom().contains(l) && start.labels[l] == n && start.connected(
                            l,
                            k,
                        );
                    assert(self@.labels.dom().contains(l));
                    let p = self.position_of(l);
                    assert(self.nets@[p] is Some);
                    assert(self@.root(l) == self@.root(k));
                    self.lemma_position(self.roots@[p] as int);
                    self.lemma_position(root as int);
                    assert(self.roots@[p] == root);
                }
            }
        }
        None
    }

    /// The points that are joined to a label of the net, each once.
    pub fn points_on_net(&mut self, net: &str) -> (out: Vec<(i64, i64)>)
        requires
            old(self).wf(),
        ensures
            final(self).wf(),
            final(self)@ == old(self)@,
            out@.no_duplicates(),
            forall|k: (i64, i64)| #[trigger]
                out@.contains(k) <==> old(self)@.roots.dom().contains(k) && old(self)@.on_net(
                    net@,
                    k,
                ),
    {
        let mut named: Vec<usize> = Vec::new();
        let mut i: usize = 0;
        while i < self.keys.len()
            invariant
                self.inv(),
                *self == *old(self),
                i <= self.keys@.len(),
                forall|r: usize| #[trigger]
                    named@.contains(r) <==> exists|j: int|
                        0 <= j < i && (#[trigger] self.nets@[j]) is Some && self.nets@[j]->0@
                            == net@ && self.roots@[j] == r,
            decreases self.keys@.len() - i,
        {
            if let Some(n) = &self.nets[i] {
                if text::same(n.as_str(), net) {
                    let r: usize = self.roots[i];
                    let ghost had = named@;
                    named.push(r);
                    proof {
                        assert forall|q: usize| #[trigger]
                            named@.contains(q) <==> had.contains(q) || q == r by {
                            if had.contains(q) {
                                let m = choose|m: int| 0 <= m < had.len() && had[m] == q;
                                assert(named@[m] == q);
                            }
                            assert(named@[had.len() as int] == r);
                        }
                        assert(self.nets@[i as int] is Some);
                    }
                }
            }
            i += 1;
        }
        let mut out: Vec<(i64, i64)> = Vec::new();
        i = 0;
        while i < self.keys.len()
            invariant
                self.inv(),
                *self == *old(self),
                i <= self.keys@.len(),
                forall|r: usize| #[trigger]
                    named@.contains(r) <==> exists|j: int|
                        0 <= j < self.keys@.len() && (#[trigger] self.nets@[j]) is Some
                            && self.nets@[j]->0@ == net@ && self.roots@[j] == r,
                out@.no_duplicates(),
                forall|k: (i64, i64)| #[trigger]
                    out@.contains(k) <==> exists|j: int|
                        0 <= j < i && #[trigger] self.keys@[j] == k && named@.contains(
                            self.roots@[j],
                        ),
            decreases self.keys@.len() - i,
        {
            let r: usize = self.roots[i];
            if holds(&named, r) {
                let k = self.keys[i];
                let ghost had = out@;
                out.push(k);
                proof {
                    assert forall|q: (i64, i64)| #[trigger]
                        out@.contains(q) <==> had.contains(q) || q == k by {
                        if had.contains(q) {
                            let m = choose|m: int| 0 <= m < had.len() && had[m] == q;
                            assert(out@[m] == q);
                        }
                        assert(out@[had.len() as int] == k);
                    }
                    assert(!had.contains(k)) by {
                        if had.contains(k) {
                            let j = choose|j: int|
                                0 <= j < i && #[trigger] self.keys@[j] == k && named@.contains(
                                    self.roots@[j],
                                );
                            assert(self.keys@[j] != self.keys@[i as int]);
                        }
                    }
                    assert(self.keys@[i as int] == k);
                }
            }
            i += 1;
        }
        proof {
            assert forall|k: (i64, i64)| #[trigger]
                out@.contains(k) <==> self@.roots.dom().contains(k) && self@.on_net(net@, k) by {
                if out@.contains(k) {
                    let j = choose|j: int|
                        0 <= j < self.keys@.len() && #[trigger] self.keys@[j] == k
                            && named@.contains(self.roots@[j]);
                    let m = choose|m: int|
                        0 <= m < self.keys@.len() && (#[trigger] self.nets@[m]) is Some
                            && self.nets@[m]->0@ == net@ && self.roots@[m] == self.roots@[j];
                    let l = self.keys@[m];
                    self.lemma_position(j);
                    self.lemma_position(m);
                    assert(self@.labels[l] == net@);
                    assert(self@.labels.dom().contains(l));
                    assert(self@.connected(l, k));
                }
                if self@.roots.dom().contains(k) && self@.on_net(net@, k) {
                    let l = choose|l: (i64, i64)|
                        #![trigger self@.labels[l]]
                        self@.labels.dom().contains(l) && self@.labels[l] == net@
                            && self@.connected(l, k);
                    let m = self.position_of(l);
                    let j = self.position_of(k);
                    assert(self.nets@[m] is Some);
                    self.lemma_position(self.roots@[m] as int);
                    self.lemma_position(self.roots@[j] as int);
                    assert(self.roots@[m] == self.roots@[j]);
                    assert(self.keys@[j] == k);
                    assert(named@.contains(self.roots@[j]));
                }
            }
        }
        out
    }
}

fn holds(list: &Vec<usize>, n: usize) -> (r: bool)
    ensures
        r == list@.contains(n),
{
    let mut i: usize = 0;
    while i < list.len()
        invariant
            i <= list@.len(),
            forall|j: int| 0 <= j < i ==> list@[j] != n,
        decreases list@.len() - i,
    {
        if list[i] == n {
            return true;
        }
        i += 1;
    }
    false
}

// ─── Connectivity of a sheet ──────────────────────────────────────────────

/// Whether two points are linked by the given connections: the equivalence
/// that they generate.
pub open spec fn linked(
    edges: Seq<((i64, i64), (i64, i64))>,
    x: (i64, i64),
    y: (i64, i64),
) -> bool
    decreases edges.len(),
{
    if edges.len() == 0 {
        x == y
    } else {
        let rest = edges.drop_last();
        let (a, b) = edges.last();
        ||| linked(rest, x, y)
        ||| linked(rest, x, a) && linked(rest, b, y)
        ||| linked(rest, x, b) && linked(rest, a, y)
    }
}

/// Links form an equivalence.
pub proof fn law_linked_is_equivalence(
    edges: Seq<((i64, i64), (i64, i64))>,
    x: (i64, i64),
    y: (i64, i64),
    z: (i64, i64),
)
    ensures
        linked(edges, x, x),
        linked(edges, x, y) ==> linked(edges, y, x),
        linked(edges, x, y) && linked(edges, y, z) ==> linked(edges, x, z),
    decreases edges.len(),
{
    if edges.len() > 0 {
        let rest = edges.drop_last();
        let (a, b) = edges.last();
        lemma_linked_step(edges, x, y);
        lemma_linked_step(edges, y, x);
        lemma_linked_step(edges, y, z);
        lemma_linked_step(edges, x, z);
        law_linked_is_equivalence(rest, x, y, z);
        law_linked_is_equivalence(rest, x, a, y);
        law_linked_is_equivalence(rest, x, b, y);
        law_linked_is_equivalence(rest, y, a, z);
        law_linked_is_equivalence(rest, y, b, z);
        law_linked_is_equivalence(rest, y, a, x);
        law_linked_is_equivalence(rest, y, b, x);
        law_linked_is_equivalence(rest, x, a, z);
        law_linked_is_equivalence(rest, x, b, z);
        law_linked_is_equivalence(rest, a, y, b);
        law_linked_is_equivalence(rest, b, y, a);
        law_linked_is_equivalence(rest, a, y, z);
        law_linked_is_equivalence(rest, b, y, z);
        law_linked_is_equivalence(rest, x, y, a);
        law_linked_is_equivalence(rest, x, y, b);
    }
}

/// What the last connection adds.
proof fn lemma_linked_step(
    edges: Seq<((i64, i64), (i64, i64))>,
    x: (i64, i64),
    y: (i64, i64),
)
    requires
        edges.len() > 0,
    ensures
        linked(edges, x, y) <==> linked(edges.drop_last(), x, y) || linked(
            edges.drop_last(),
            x,
            edges.last().0,
        ) && linked(edges.drop_last(), edges.last().1, y) || linked(
            edges.drop_last(),
            x,
            edges.last().1,
        ) && linked(edges.drop_last(), edges.last().0, y),
{
}

/// Every connection links its two ends.
pub proof fn law_edges_are_linked(edges: Seq<((i64, i64), (i64, i64))>, i: int)
    requires
        0 <= i < edges.len(),
    ensures
        linked(edges, edges[i].0, edges[i].1),
    decreases edges.len(),
{
    let rest = edges.drop_last();
    let (a, b) = edges.last();
    if i < rest.len() {
        law_edges_are_linked(rest, i);
        assert(rest[i] == edges[i]);
    } else {
        law_linked_is_equivalence(rest, a, a, a);
        law_linked_is_equivalence(rest, b, b, b);
    }
}

/// Links hold in every equivalence that joins the ends of each connection:
/// nothing else is linked.
pub proof fn law_linked_is_least(
    edges: Seq<((i64, i64), (i64, i64))>,
    rel: spec_fn((i64, i64), (i64, i64)) -> bool,
    x: (i64, i64),
    y: (i64, i64),
)
    requires
        forall|p: (i64, i64)| #[trigger] rel(p, p),
        forall|p: (i64, i64), q: (i64, i64)| #[trigger] rel(p, q) ==> rel(q, p),
        forall|p: (i64, i64), q: (i64, i64), r: (i64, i64)|
            #![trigger rel(p, q), rel(q, r)]
            rel(p, q) && rel(q, r) ==> rel(p, r),
        forall|i: int| 0 <= i < edges.len() ==> rel((#[trigger] edges[i]).0, edges[i].1),
        linked(edges, x, y),
    ensures
        rel(x, y),
    decreases edges.len(),
{
    if edges.len() > 0 {
        let rest = edges.drop_last();
        let (a, b) = edges.last();
        assert forall|i: int| 0 <= i < rest.len() implies rel(
            (#[trigger] rest[i]).0,
            rest[i].1,
        ) by {
            assert(rest[i] == edges[i]);
        }
        assert(edges[edges.len() - 1] == (a, b));
        assert(rel(a, b));
        if linked(rest, x, y) {
            law_linked_is_least(rest, rel, x, y);
        } else if linked(rest, x, a) && linked(rest, b, y) {
            law_linked_is_least(rest, rel, x, a);
            law_linked_is_least(rest, rel, b, y);
        } else {
            law_linked_is_least(rest, rel, x, b);
            law_linked_is_least(rest, rel, a, y);
        }
    }
}

/// Joining two points links exactly what a new connection between them links.
pub proof fn lemma_joined_connects(
    v: NetView,
    a: (i64, i64),
    b: (i64, i64),
    x: (i64, i64),
    y: (i64, i64),
)
    requires
        v.wf(),
    ensures
        v.joined(a, b).connected(x, y) <==> v.connected(x, y) || v.connected(x, a) && v.connected(
            b,
            y,
        ) || v.connected(x, b) && v.connected(a, y),
{
    let g = v.ensured(a).ensured(b);
    let ra = g.root(a);
    let rb = g.root(b);
    assert forall|q: (i64, i64)| #[trigger] v.joined(a, b).root(q) == (if v.root(q) == rb {
        ra
    } else {
        v.root(q)
    }) by {
        assert(g.root(q) == v.root(q));
        assert(g.roots.dom().contains(ra));
        assert(g.roots.dom().contains(rb));
    }
}

/// The connections that wires make: each joins its two ends.
pub open spec fn wire_edges(wires: Seq<Wire>) -> Seq<((i64, i64), (i64, i64))> {
    wires.map_values(|w: Wire| (key_of(w.start), key_of(w.end)))
}

/// The connections that a dot or label at `p` makes: it joins every one of
/// the first `n` wires that it sits on.
pub open spec fn attach_edges(p: Point, wires: Seq<Wire>, n: nat) -> Seq<
    ((i64, i64), (i64, i64)),
>
    decreases n,
{
    if n == 0 {
        Seq::empty()
    } else {
        let w = wires[n - 1];
        let rest = attach_edges(p, wires, (n - 1) as nat);
        if on_segment(p, w.start, w.end, ATTACH_TOLERANCE_NM as int) {
            rest.push((key_of(p), key_of(w.start)))
        } else {
            rest
        }
    }
}

/// The connections that a list of dots or labels makes.
pub open spec fn points_edges(points: Seq<Point>, wires: Seq<Wire>) -> Seq<
    ((i64, i64), (i64, i64)),
>
    decreases points.len(),
{
    if points.len() == 0 {
        Seq::empty()
    } else {
        points_edges(points.drop_last(), wires) + attach_edges(points.last(), wires, wires.len())
    }
}

/// Where the labels stand.
pub open spec fn label_points(labels: Seq<Label>) -> Seq<Point> {
    labels.map_values(|l: Label| l.at)
}

/// The connections of a sheet: wires join their ends, and labels and junction
/// dots join the wires that they sit on, anywhere along them.
pub open spec fn sheet_edges(
    wires: Seq<Wire>,
    labels: Seq<Label>,
    junctions: Seq<Point>,
) -> Seq<((i64, i64), (i64, i64))> {
    wire_edges(wires) + points_edges(label_points(labels), wires) + points_edges(junctions, wires)
}

/// The net name on each labelled point; of two labels on one point the later
/// one counts.
pub open spec fn label_names(labels: Seq<Label>) -> Map<(i64, i64), Seq<char>>
    decreases labels.len(),
{
    if labels.len() == 0 {
        Map::empty()
    } else {
        label_names(labels.drop_last()).insert(key_of(labels.last().at), labels.last().net@)
    }
}

/// Whether the point is an end of a wire.
pub open spec fn is_wire_end(wires: Seq<Wire>, k: (i64, i64)) -> bool {
    exists|i: int|
        0 <= i < wires.len() && (key_of((#[trigger] wires[i]).start) == k || key_of(wires[i].end)
            == k)
}

/// Whether one of the points has the key.
pub open spec fn is_point(points: Seq<Point>, k: (i64, i64)) -> bool {
    exists|i: int| 0 <= i < points.len() && key_of(#[trigger] points[i]) == k
}

/// What holds of the graph that stands for these connections, labels and
/// points.
spec fn represents(
    g: NetView,
    edges: Seq<((i64, i64), (i64, i64))>,
    names: Map<(i64, i64), Seq<char>>,
) -> bool {
    &&& g.wf()
    &&& g.labels == names
    &&& forall|x: (i64, i64), y: (i64, i64)| #[trigger]
        g.connected(x, y) <==> linked(edges, x, y)
}

proof fn lemma_represents_join(
    g: NetView,
    edges: Seq<((i64, i64), (i64, i64))>,
    names: Map<(i64, i64), Seq<char>>,
    a: (i64, i64),
    b: (i64, i64),
    h: NetView,
)
    requires
        represents(g, edges, names),
        h == g.joined(a, b),
        h.wf(),
    ensures
        represents(h, edges.push((a, b)), names),
{
    let more = edges.push((a, b));
    assert(more.drop_last() =~= edges);
    assert forall|x: (i64, i64), y: (i64, i64)| #[trigger] h.connected(x, y) <==> linked(
        more,
        x,
        y,
    ) by {
        lemma_joined_connects(g, a, b, x, y);
        lemma_linked_step(more, x, y);
        assert(g.connected(x, y) <==> linked(edges, x, y));
        assert(g.connected(x, a) <==> linked(edges, x, a));
        assert(g.connected(b, y) <==> linked(edges, b, y));
        assert(g.connected(x, b) <==> linked(edges, x, b));
        assert(g.connected(a, y) <==> linked(edges, a, y));
    }
}

/// Joins the point to every wire that it sits on.
fn attach(g: &mut NetGraph, p: Point, wires: &Vec<Wire>, Ghost(edges): Ghost<
    Seq<((i64, i64), (i64, i64))>,
>, Ghost(names): Ghost<Map<(i64, i64), Seq<char>>>)
    requires
        old(g).wf(),
        represents(old(g)@, edges, names),
        old(g)@.roots.dom().contains(key_of(p)),
        forall|k: (i64, i64)| is_wire_end(wires@, k) ==> #[trigger] old(g)@.roots.dom().contains(k),
    ensures
        final(g).wf(),
        represents(final(g)@, edges + attach_edges(p, wires@, wires@.len()), names),
        final(g)@.roots.dom() == old(g)@.roots.dom(),
{
    let mut i: usize = 0;
    proof {
        assert(edges + attach_edges(p, wires@, 0) =~= edges);
    }
    while i < wires.len()
        invariant
            i <= wires@.len(),
            g.wf(),
            represents(g@, edges + attach_edges(p, wires@, i as nat), names),
            g@.roots.dom() == old(g)@.roots.dom(),
            old(g)@.roots.dom().contains(key_of(p)),
            forall|k: (i64, i64)|
                is_wire_end(wires@, k) ==> #[trigger] old(g)@.roots.dom().contains(k),
        decreases wires@.len() - i,
    {
        let w = &wires[i];
        let ghost before = g@;
        let ghost so_far = edges + attach_edges(p, wires@, i as nat);
        if point_on_segment(p, w.start, w.end, ATTACH_TOLERANCE_NM) {
            let a = pt_key(p);
            let b = pt_key(w.start);
            g.union(a, b);
            proof {
                g.lemma_view_wf();
                lemma_represents_join(before, so_far, names, a, b, g@);
                assert(edges + attach_edges(p, wires@, (i + 1) as nat) =~= so_far.push((a, b)));
                assert(key_of(wires@[i as int].start) == b);
                assert(is_wire_end(wires@, b));
                assert(g@.roots.dom() =~= before.roots.dom());
            }
        }
        i += 1;
    }
}

/// The graph of a sheet.
pub fn build_net_graph(
    wires: &Vec<Wire>,
    labels: &Vec<Label>,
    junctions: &Vec<Point>,
) -> (g: NetGraph)
    ensures
        g.wf(),
        g@.wf(),
        g@.labels == label_names(labels@),
        forall|x: (i64, i64), y: (i64, i64)| #[trigger]
            g@.connected(x, y) <==> linked(sheet_edges(wires@, labels@, junctions@), x, y),
        forall|k: (i64, i64)| #[trigger]
            g@.roots.dom().contains(k) <==> is_wire_end(wires@, k) || is_point(
                label_points(labels@),
                k,
            ) || is_point(junctions@, k),
{
    let mut g = NetGraph::new();
    let mut i: usize = 0;
    let ghost mut edges: Seq<((i64, i64), (i64, i64))> = Seq::empty();
    while i < wires.len()
        invariant
            i <= wires@.len(),
            g.wf(),
            edges == wire_edges(wires@.take(i as int)),
            represents(g@, edges, Map::empty()),
            forall|k: (i64, i64)| #[trigger]
                g@.roots.dom().contains(k) <==> is_wire_end(wires@.take(i as int), k),
        decreases wires@.len() - i,
    {
        let ghost before = g@;
        g.add_wire(&wires[i]);
        proof {
            let w = wires@[i as int];
            let a = key_of(w.start);
            let b = key_of(w.end);
            g.lemma_view_wf();
            lemma_represents_join(before, edges, Map::empty(), a, b, g@);
            let had = wires@.take(i as int);
            let has = wires@.take(i + 1);
            assert(has =~= had.push(w));
            assert(wire_edges(has) =~= wire_edges(had).push((a, b)));
            edges = edges.push((a, b));
            assert forall|k: (i64, i64)| #[trigger] g@.roots.dom().contains(k) <==> is_wire_end(
                has,
                k,
            ) by {
                assert(before.roots.dom().contains(k) <==> is_wire_end(had, k));
                if is_wire_end(had, k) {
                    let m = choose|m: int|
                        0 <= m < had.len() && (key_of((#[trigger] had[m]).start) == k || key_of(
                            had[m].end,
                        ) == k);
                    assert(has[m] == had[m]);
                }
                assert(has[i as int] == w);
                if is_wire_end(has, k) && k != a && k != b {
                    let m = choose|m: int|
                        0 <= m < has.len() && (key_of((#[trigger] has[m]).start) == k || key_of(
                            has[m].end,
                        ) == k);
                    assert(m < had.len());
                    assert(had[m] == has[m]);
                }
            }
        }
        i += 1;
    }
    proof {
        assert(wires@.take(wires@.len() as int) =~= wires@);
        assert(edges + points_edges(Seq::empty(), wires@) =~= edges);
        assert(label_points(labels@).take(0) =~= Seq::empty());
        assert(labels@.take(0) =~= Seq::empty());
    }
    let ghost base = edges;
    i = 0;
    while i < labels.len()
        invariant
            i <= labels@.len(),
            g.wf(),
            base == wire_edges(wires@),
            edges == base + points_edges(label_points(labels@).take(i as int), wires@),
            represents(g@, edges, label_names(labels@.take(i as int))),
            forall|k: (i64, i64)| #[trigger]
                g@.roots.dom().contains(k) <==> is_wire_end(wires@, k) || is_point(
                    label_points(labels@).take(i as int),
                    k,
                ),
        decreases labels@.len() - i,
    {
        let ghost before = g@;
        let k = pt_key(labels[i].at);
        g.add_label(k, labels[i].net.as_str());
        let ghost names = label_names(labels@.take(i + 1));
        proof {
            let had = labels@.take(i as int);
            let has = labels@.take(i + 1);
            assert(has.drop_last() =~= had);
            assert(has.last() == labels@[i as int]);
            g.lemma_view_wf();
            assert forall|x: (i64, i64), y: (i64, i64)| #[trigger]
                g@.connected(x, y) <==> linked(edges, x, y) by {
                assert(before.connected(x, y) <==> linked(edges, x, y));
                assert(g@.root(x) == before.root(x));
                assert(g@.root(y) == before.root(y));
            }
        }
        let ghost mid = g@;
        attach(&mut g, labels[i].at, wires, Ghost(edges), Ghost(names));
        proof {
            let pts = label_points(labels@);
            let had = pts.take(i as int);
            let has = pts.take(i + 1);
            assert(has.drop_last() =~= had);
            assert(has.last() == labels@[i as int].at);
            edges = edges + attach_edges(labels@[i as int].at, wires@, wires@.len());
            assert(edges =~= base + points_edges(has, wires@));
            lemma_is_point_step(pts, i as int);
        }
        i += 1;
    }
    proof {
        assert(label_points(labels@).take(labels@.len() as int) =~= label_points(labels@));
        assert(labels@.take(labels@.len() as int) =~= labels@);
        assert(junctions@.take(0) =~= Seq::empty());
        assert(edges + points_edges(Seq::empty(), wires@) =~= edges);
    }
    let ghost labelled = edges;
    i = 0;
    while i < junctions.len()
        invariant
            i <= junctions@.len(),
            g.wf(),
            labelled == wire_edges(wires@) + points_edges(label_points(labels@), wires@),
            edges == labelled + points_edges(junctions@.take(i as int), wires@),
            represents(g@, edges, label_names(labels@)),
            forall|k: (i64, i64)| #[trigger]
                g@.roots.dom().contains(k) <==> is_wire_end(wires@, k) || is_point(
                    label_points(labels@),
                    k,
                ) || is_point(junctions@.take(i as int), k),
        decreases junctions@.len() - i,
    {
        let ghost before = g@;
        let k = pt_key(junctions[i]);
        g.ensure(k);
        proof {
            g.lemma_view_wf();
            assert forall|x: (i64, i64), y: (i64, i64)| #[trigger]
                g@.connected(x, y) <==> linked(edges, x, y) by {
                assert(before.connected(x, y) <==> linked(edges, x, y));
                assert(g@.root(x) == before.root(x));
                assert(g@.root(y) == before.root(y));
            }
        }
        attach(&mut g, junctions[i], wires, Ghost(edges), Ghost(label_names(labels@)));
        proof {
            let had = junctions@.take(i as int);
            let has = junctions@.take(i + 1);
            assert(has.drop_last() =~= had);
            assert(has.last() == junctions@[i as int]);
            edges = edges + attach_edges(junctions@[i as int], wires@, wires@.len());
            assert(edges =~= labelled + points_edges(has, wires@));
            lemma_is_point_step(junctions@, i as int);
        }
        i += 1;
    }
    proof {
        assert(junctions@.take(junctions@.len() as int) =~= junctions@);
    }
    g
}

proof fn lemma_is_point_step(points: Seq<Point>, i: int)
    requires
        0 <= i < points.len(),
    ensures
        forall|k: (i64, i64)| #[trigger]
            is_point(points.take(i + 1), k) <==> is_point(points.take(i), k) || k == key_of(
                points[i],
            ),
{
    let had = points.take(i);
    let has = points.take(i + 1);
    assert forall|k: (i64, i64)| #[trigger] is_point(has, k) <==> is_point(had, k) || k == key_of(
        points[i],
    ) by {
        assert(has[i] == points[i]);
        if is_point(had, k) {
            let m = choose|m: int| 0 <= m < had.len() && key_of(#[trigger] had[m]) == k;
            assert(has[m] == had[m]);
        }
        if is_point(has, k) && k != key_of(points[i]) {
            let m = choose|m: int| 0 <= m < has.len() && key_of(#[trigger] has[m]) == k;
            assert(had[m] == has[m]);
        }
    }
}

// ─── Laws ─────────────────────────────────────────────────────────────────

/// Whether a straight wire passes through the point: it runs along an axis, and
/// the point is one of its ends or between them.
pub open spec fn passes_through(w: Wire, p: Point) -> bool {
    ||| w.start.y == w.end.y && p.y == w.start.y && (w.start.x <= p.x <= w.end.x || w.end.x <= p.x
        <= w.start.x)
    ||| w.start.x == w.end.x && p.x == w.start.x && (w.start.y <= p.y <= w.end.y || w.end.y <= p.y
        <= w.start.y)
}

/// Whether a wire is away from the point: the point is ten micrometres or more
/// outside the rectangle between the ends of the wire, along one of the axes.
pub open spec fn is_away(w: Wire, p: Point) -> bool {
    ||| p.x <= w.start.x - 10_000 && p.x <= w.end.x - 10_000
    ||| p.x >= w.start.x + 10_000 && p.x >= w.end.x + 10_000
    ||| p.y <= w.start.y - 10_000 && p.y <= w.end.y - 10_000
    ||| p.y >= w.start.y + 10_000 && p.y >= w.end.y + 10_000
}

proof fn lemma_attached(p: Point, wires: Seq<Wire>, n: nat, i: int) -> (k: int)
    requires
        0 <= i < n <= wires.len(),
        on_segment(p, wires[i].start, wires[i].end, 10_000),
    ensures
        0 <= k < attach_edges(p, wires, n).len(),
        attach_edges(p, wires, n)[k] == (key_of(p), key_of(wires[i].start)),
    decreases n,
{
    if i == n - 1 {
        attach_edges(p, wires, n).len() - 1
    } else {
        lemma_attached(p, wires, (n - 1) as nat, i)
    }
}

proof fn lemma_point_attached(points: Seq<Point>, wires: Seq<Wire>, j: int, i: int) -> (k: int)
    requires
        0 <= j < points.len(),
        0 <= i < wires.len(),
        on_segment(points[j], wires[i].start, wires[i].end, 10_000),
    ensures
        0 <= k < points_edges(points, wires).len(),
        points_edges(points, wires)[k] == (key_of(points[j]), key_of(wires[i].start)),
    decreases points.len(),
{
    let rest = points_edges(points.drop_last(), wires);
    if j == points.len() - 1 {
        let k = lemma_attached(points[j], wires, wires.len(), i);
        rest.len() + k
    } else {
        assert(points.drop_last()[j] == points[j]);
        lemma_point_attached(points.drop_last(), wires, j, i)
    }
}

/// A wire joins its two ends.
pub proof fn law_wire_joins_its_ends(
    wires: Seq<Wire>,
    labels: Seq<Label>,
    junctions: Seq<Point>,
    i: int,
)
    requires
        0 <= i < wires.len(),
    ensures
        linked(
            sheet_edges(wires, labels, junctions),
            key_of(wires[i].start),
            key_of(wires[i].end),
        ),
{
    let edges = sheet_edges(wires, labels, junctions);
    assert(edges[i] == (key_of(wires[i].start), key_of(wires[i].end)));
    law_edges_are_linked(edges, i);
}

/// A junction dot joins every wire that passes through it, with all that the
/// wire joins: two wires on which one dot sits are one net, whichever ends of
/// them are asked for.
pub proof fn law_junction_joins_the_wires_it_sits_on(
    wires: Seq<Wire>,
    labels: Seq<Label>,
    junctions: Seq<Point>,
    j: int,
    a: int,
    b: int,
)
    requires
        0 <= j < junctions.len(),
        0 <= a < wires.len(),
        0 <= b < wires.len(),
        passes_through(wires[a], junctions[j]),
        passes_through(wires[b], junctions[j]),
    ensures
        ({
            let edges = sheet_edges(wires, labels, junctions);
            &&& linked(edges, key_of(junctions[j]), key_of(wires[a].start))
            &&& linked(edges, key_of(junctions[j]), key_of(wires[a].end))
            &&& linked(edges, key_of(wires[a].start), key_of(wires[b].start))
            &&& linked(edges, key_of(wires[a].end), key_of(wires[b].end))
            &&& linked(edges, key_of(wires[a].start), key_of(wires[b].end))
        }),
{
    let edges = sheet_edges(wires, labels, junctions);
    let base = wire_edges(wires) + points_edges(label_points(labels), wires);
    let p = junctions[j];
    crate::geometry::law_point_on_wire(p, wires[a].start, wires[a].end, 10_000);
    crate::geometry::law_point_on_wire(p, wires[b].start, wires[b].end, 10_000);
    let ka = lemma_point_attached(junctions, wires, j, a);
    let kb = lemma_point_attached(junctions, wires, j, b);
    assert(edges[base.len() + ka] == (key_of(p), key_of(wires[a].start)));
    assert(edges[base.len() + kb] == (key_of(p), key_of(wires[b].start)));
    law_edges_are_linked(edges, base.len() + ka);
    law_edges_are_linked(edges, base.len() + kb);
    law_wire_joins_its_ends(wires, labels, junctions, a);
    law_wire_joins_its_ends(wires, labels, junctions, b);
    lemma_meet(edges, key_of(p), wires[a], wires[b]);
}

/// A label joins every wire that passes through it, as a junction dot does.
pub proof fn law_label_joins_the_wires_it_sits_on(
    wires: Seq<Wire>,
    labels: Seq<Label>,
    junctions: Seq<Point>,
    j: int,
    a: int,
    b: int,
)
    requires
        0 <= j < labels.len(),
        0 <= a < wires.len(),
        0 <= b < wires.len(),
        passes_through(wires[a], labels[j].at),
        passes_through(wires[b], labels[j].at),
    ensures
        ({
            let edges = sheet_edges(wires, labels, junctions);
            &&& linked(edges, key_of(labels[j].at), key_of(wires[a].start))
            &&& linked(edges, key_of(labels[j].at), key_of(wires[a].end))
            &&& linked(edges, key_of(wires[a].start), key_of(wires[b].start))
            &&& linked(edges, key_of(wires[a].end), key_of(wires[b].end))
            &&& linked(edges, key_of(wires[a].start), key_of(wires[b].end))
        }),
{
    let edges = sheet_edges(wires, labels, junctions);
    let points = label_points(labels);
    let p = labels[j].at;
    assert(points[j] == p);
    crate::geometry::law_point_on_wire(p, wires[a].start, wires[a].end, 10_000);
    crate::geometry::law_point_on_wire(p, wires[b].start, wires[b].end, 10_000);
    let ka = lemma_point_attached(points, wires, j, a);
    let kb = lemma_point_attached(points, wires, j, b);
    let base = wire_edges(wires).len();
    assert(edges[base + ka] == (key_of(p), key_of(wires[a].start)));
    assert(edges[base + kb] == (key_of(p), key_of(wires[b].start)));
    law_edges_are_linked(edges, base + ka);
    law_edges_are_linked(edges, base + kb);
    law_wire_joins_its_ends(wires, labels, junctions, a);
    law_wire_joins_its_ends(wires, labels, junctions, b);
    lemma_meet(edges, key_of(p), wires[a], wires[b]);
}

proof fn lemma_meet(edges: Seq<((i64, i64), (i64, i64))>, k: (i64, i64), a: Wire, b: Wire)
    requires
        linked(edges, k, key_of(a.start)),
        linked(edges, k, key_of(b.start)),
        linked(edges, key_of(a.start), key_of(a.end)),
        linked(edges, key_of(b.start), key_of(b.end)),
    ensures
        linked(edges, k, key_of(a.end)),
        linked(edges, key_of(a.start), key_of(b.start)),
        linked(edges, key_of(a.end), key_of(b.end)),
        linked(edges, key_of(a.start), key_of(b.end)),
{
    let (as_, ae, bs, be) = (key_of(a.start), key_of(a.end), key_of(b.start), key_of(b.end));
    law_linked_is_equivalence(edges, k, as_, ae);
    law_linked_is_equivalence(edges, k, as_, k);
    law_linked_is_equivalence(edges, as_, k, bs);
    law_linked_is_equivalence(edges, as_, bs, be);
    law_linked_is_equivalence(edges, as_, ae, as_);
    law_linked_is_equivalence(edges, ae, as_, be);
}

/// Wires that end in one point are joined.
pub proof fn law_wires_join_where_they_end(
    wires: Seq<Wire>,
    labels: Seq<Label>,
    junctions: Seq<Point>,
    a: int,
    b: int,
)
    requires
        0 <= a < wires.len(),
        0 <= b < wires.len(),
        wires[a].end == wires[b].start || wires[a].end == wires[b].end || wires[a].start
            == wires[b].start,
    ensures
        linked(
            sheet_edges(wires, labels, junctions),
            key_of(wires[a].start),
            key_of(wires[b].end),
        ),
{
    let edges = sheet_edges(wires, labels, junctions);
    let (as_, ae) = (key_of(wires[a].start), key_of(wires[a].end));
    let (bs, be) = (key_of(wires[b].start), key_of(wires[b].end));
    law_wire_joins_its_ends(wires, labels, junctions, a);
    law_wire_joins_its_ends(wires, labels, junctions, b);
    law_linked_is_equivalence(edges, as_, ae, be);
    law_linked_is_equivalence(edges, as_, bs, be);
}

/// Nothing else joins: a part of the sheet that no wire leaves, and no label or
/// dot within ten micrometres of a wire, is joined to nothing outside. Wires
/// that merely cross are such parts.
pub proof fn law_islands_stay_apart(
    wires: Seq<Wire>,
    labels: Seq<Label>,
    junctions: Seq<Point>,
    inside: spec_fn((i64, i64)) -> bool,
    x: (i64, i64),
    y: (i64, i64),
)
    requires
        forall|i: int|
            0 <= i < wires.len() ==> inside(key_of((#[trigger] wires[i]).start)) == inside(
                key_of(wires[i].end),
            ),
        forall|j: int, i: int|
            0 <= j < labels.len() && 0 <= i < wires.len() && !is_away(
                #[trigger] wires[i],
                (#[trigger] labels[j]).at,
            ) ==> inside(key_of(labels[j].at)) == inside(key_of(wires[i].start)),
        forall|j: int, i: int|
            0 <= j < junctions.len() && 0 <= i < wires.len() && !is_away(
                #[trigger] wires[i],
                #[trigger] junctions[j],
            ) ==> inside(key_of(junctions[j])) == inside(key_of(wires[i].start)),
        linked(sheet_edges(wires, labels, junctions), x, y),
    ensures
        inside(x) == inside(y),
{
    let edges = sheet_edges(wires, labels, junctions);
    let rel = |p: (i64, i64), q: (i64, i64)| inside(p) == inside(q);
    let first = wire_edges(wires);
    let second = points_edges(label_points(labels), wires);
    let third = points_edges(junctions, wires);
    lemma_points_stay(label_points(labels), wires, inside);
    lemma_points_stay(junctions, wires, inside);
    assert forall|i: int| 0 <= i < edges.len() implies rel(
        (#[trigger] edges[i]).0,
        edges[i].1,
    ) by {
        if i < first.len() {
            assert(edges[i] == first[i]);
            assert(inside(key_of(wires[i].start)) == inside(key_of(wires[i].end)));
        } else if i < first.len() + second.len() {
            assert(edges[i] == second[i - first.len()]);
        } else {
            assert(edges[i] == third[i - first.len() - second.len()]);
        }
    }
    law_linked_is_least(edges, rel, x, y);
}

proof fn lemma_points_stay(
    points: Seq<Point>,
    wires: Seq<Wire>,
    inside: spec_fn((i64, i64)) -> bool,
)
    requires
        forall|j: int, i: int|
            0 <= j < points.len() && 0 <= i < wires.len() && !is_away(
                #[trigger] wires[i],
                #[trigger] points[j],
            ) ==> inside(key_of(points[j])) == inside(key_of(wires[i].start)),
    ensures
        forall|k: int|
            0 <= k < points_edges(points, wires).len() ==> inside(
                (#[trigger] points_edges(points, wires)[k]).0,
            ) == inside(points_edges(points, wires)[k].1),
    decreases points.len(),
{
    if points.len() > 0 {
        let before = points.drop_last();
        assert forall|j: int, i: int|
            0 <= j < before.len() && 0 <= i < wires.len() && !is_away(
                #[trigger] wires[i],
                #[trigger] before[j],
            ) implies inside(key_of(before[j])) == inside(key_of(wires[i].start)) by {
            assert(before[j] == points[j]);
        }
        lemma_points_stay(before, wires, inside);
        let p = points.last();
        assert(points[points.len() - 1] == p);
        assert forall|i: int| 0 <= i < wires.len() && !is_away(#[trigger] wires[i], p) implies
            inside(key_of(p)) == inside(key_of(wires[i].start)) by {
            assert(!is_away(wires[i], points[points.len() - 1]));
        }
        lemma_attach_stays(p, wires, inside, wires.len());
        let all = points_edges(points, wires);
        let rest = points_edges(before, wires);
        let more = attach_edges(p, wires, wires.len());
        assert forall|k: int| 0 <= k < all.len() implies inside((#[trigger] all[k]).0) == inside(
            all[k].1,
        ) by {
            if k < rest.len() {
                assert(all[k] == rest[k]);
            } else {
                assert(all[k] == more[k - rest.len()]);
            }
        }
    }
}

proof fn lemma_attach_stays(
    p: Point,
    wires: Seq<Wire>,
    inside: spec_fn((i64, i64)) -> bool,
    n: nat,
)
    requires
        n <= wires.len(),
        forall|i: int|
            0 <= i < wires.len() && !is_away(#[trigger] wires[i], p) ==> inside(key_of(p))
                == inside(key_of(wires[i].start)),
    ensures
        forall|k: int|
            0 <= k < attach_edges(p, wires, n).len() ==> inside(
                (#[trigger] attach_edges(p, wires, n)[k]).0,
            ) == inside(attach_edges(p, wires, n)[k].1),
    decreases n,
{
    if n > 0 {
        lemma_attach_stays(p, wires, inside, (n - 1) as nat);
        let w = wires[n - 1];
        crate::geometry::law_point_on_wire(p, w.start, w.end, 10_000);
        let all = attach_edges(p, wires, n);
        let rest = attach_edges(p, wires, (n - 1) as nat);
        assert forall|k: int| 0 <= k < all.len() implies inside((#[trigger] all[k]).0) == inside(
            all[k].1,
        ) by {
            if k < rest.len() {
                assert(all[k] == rest[k]);
            }
        }
    }
}

/// A point is labelled exactly if a label stands there, and then with the name
/// of one that does.
pub proof fn lemma_label_names(labels: Seq<Label>, k: (i64, i64))
    ensures
        label_names(labels).dom().contains(k) <==> exists|i: int|
            0 <= i < labels.len() && key_of((#[trigger] labels[i]).at) == k,
        label_names(labels).dom().contains(k) ==> exists|i: int|
            0 <= i < labels.len() && key_of((#[trigger] labels[i]).at) == k && labels[i].net@
                == label_names(labels)[k],
    decreases labels.len(),
{
    if labels.len() > 0 {
        let before = labels.drop_last();
        let last = labels.last();
        lemma_label_names(before, k);
        assert(labels[labels.len() - 1] == last);
        if key_of(last.at) != k {
            if label_names(before).dom().contains(k) {
                let i = choose|i: int|
                    0 <= i < before.len() && key_of((#[trigger] before[i]).at) == k
                        && before[i].net@ == label_names(before)[k];
                assert(labels[i] == before[i]);
            }
            if exists|i: int| 0 <= i < labels.len() && key_of((#[trigger] labels[i]).at) == k {
                let i = choose|i: int|
                    0 <= i < labels.len() && key_of((#[trigger] labels[i]).at) == k;
                assert(before[i] == labels[i]);
            }
        }
    }
}

/// A net name stands where a label with that name stands: every labelled point
/// has the name of one of its labels, and every label makes its point a labelled
/// one, under its own name where no other label stands there.
pub proof fn law_names_are_those_of_labels(labels: Seq<Label>, i: int, k: (i64, i64))
    requires
        0 <= i < labels.len(),
    ensures
        label_names(labels).dom().contains(key_of(labels[i].at)),
        (forall|j: int|
            0 <= j < labels.len() && key_of((#[trigger] labels[j]).at) == key_of(labels[i].at)
                ==> labels[j].net@ == labels[i].net@) ==> label_names(labels)[key_of(
            labels[i].at,
        )] == labels[i].net@,
        label_names(labels).dom().contains(k) ==> exists|j: int|
            0 <= j < labels.len() && key_of((#[trigger] labels[j]).at) == k && labels[j].net@
                == label_names(labels)[k],
{
    lemma_label_names(labels, key_of(labels[i].at));
    lemma_label_names(labels, k);
    assert(key_of(labels[i].at) == key_of(labels[i].at));
}

/// Joining two points joins all that is joined to them, and nothing else.
pub proof fn law_joining_two_points(
    v: NetView,
    a: (i64, i64),
    b: (i64, i64),
    x: (i64, i64),
    y: (i64, i64),
)
    requires
        v.wf(),
    ensures
        v.joined(a, b).connected(a, b),
        v.connected(x, y) ==> v.joined(a, b).connected(x, y),
        v.joined(a, b).connected(x, y) && !v.connected(x, y) ==> (v.connected(x, a) && v.connected(
            y,
            b,
        )) || (v.connected(x, b) && v.connected(y, a)),
        v.joined(a, b).labels == v.labels,
        v.ensured(a).connected(x, y) <==> v.connected(x, y),
{
    lemma_joined_connects(v, a, b, a, b);
    lemma_joined_connects(v, a, b, x, y);
}

/// A label names the point that it stands on and all that is joined to it, and
/// no point is named by anything but a label that it is joined to.
pub proof fn law_labels_name_what_they_are_joined_to(
    v: NetView,
    net: Seq<char>,
    a: (i64, i64),
    b: (i64, i64),
)
    requires
        v.wf(),
    ensures
        v.labels.dom().contains(a) && v.connected(a, b) ==> v.on_net(v.labels[a], b),
        v.on_net(net, a) && v.connected(a, b) ==> v.on_net(net, b),
        v.on_net(net, a) ==> v.joined(a, b).on_net(net, b),
        (forall|l: (i64, i64)| #[trigger]
            v.labels.dom().contains(l) ==> v.labels[l] != net || !v.connected(l, a))
            ==> !v.on_net(net, a),
        (NetView {
            roots: v.ensured(a).roots,
            labels: v.labels.insert(a, net),
        }).on_net(net, a),
{
    if v.labels.dom().contains(a) && v.connected(a, b) {
        assert(v.labels[a] == v.labels[a]);
    }
    if v.on_net(net, a) {
        let l = choose|l: (i64, i64)|
            #![trigger v.labels[l]]
            v.labels.dom().contains(l) && v.labels[l] == net && v.connected(l, a);
        assert(v.labels[l] == net);
        lemma_joined_connects(v, a, b, l, b);
        assert(v.joined(a, b).labels[l] == net);
    }
    let g = NetView { roots: v.ensured(a).roots, labels: v.labels.insert(a, net) };
    assert(g.labels[a] == net);
}

} // verus!
