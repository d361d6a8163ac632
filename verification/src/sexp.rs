//! S-expressions, the notation of KiCad's files.
use crate::seqs::{models, push_model};
use crate::text;
use vstd::prelude::*;

verus! {

/// A node of a document: a list, a bare word or a quoted text.
pub enum SexpNode {
    List(Vec<SexpNode>),
    Atom(String),
    Str(String),
}

/// The model of a node.
pub ghost enum SexpView {
    List(Seq<SexpView>),
    Atom(Seq<char>),
    Str(Seq<char>),
}

impl View for SexpNode {
    type V = SexpView;

    open spec fn view(&self) -> SexpView
        decreases self,
    {
        match self {
            SexpNode::Atom(t) => SexpView::Atom(t@),
            SexpNode::Str(t) => SexpView::Str(t@),
            SexpNode::List(items) => SexpView::List(
                Seq::new(
                    items@.len(),
                    |i: int|
                        if 0 <= i < items@.len() {
                            items@[i].view()
                        } else {
                            SexpView::Atom(Seq::empty())
                        },
                ),
            ),
        }
    }
}

/// The model of a list is the list of the models.
pub broadcast proof fn lemma_list_view(items: Vec<SexpNode>)
    ensures
        #[trigger] SexpNode::List(items)@ == SexpView::List(models(items@)),
{
    assert(SexpNode::List(items)@->List_0 =~= models(items@));
}

impl SexpView {
    /// The word that a list begins with.
    pub open spec fn head(self) -> Option<Seq<char>> {
        match self {
            SexpView::List(items) => if items.len() > 0 {
                match items[0] {
                    SexpView::Atom(t) => Some(t),
                    _ => None,
                }
            } else {
                None
            },
            _ => None,
        }
    }

    /// The items of a list; a word or a text has none.
    pub open spec fn items(self) -> Seq<SexpView> {
        match self {
            SexpView::List(items) => items,
            _ => Seq::empty(),
        }
    }

    /// The word or text at that place of a list.
    pub open spec fn item_text(self, i: int) -> Option<Seq<char>> {
        if 0 <= i < self.items().len() {
            match self.items()[i] {
                SexpView::Atom(t) => Some(t),
                SexpView::Str(t) => Some(t),
                SexpView::List(_) => None,
            }
        } else {
            None
        }
    }

    /// Position of the first child of that head at `from` or later.
    pub open spec fn child_at(self, head: Seq<char>, from: int) -> Option<int>
        decreases self.items().len() - from,
    {
        if from < 0 || from >= self.items().len() {
            None
        } else if self.items()[from].head() == Some(head) {
            Some(from)
        } else {
            self.child_at(head, from + 1)
        }
    }

    /// The first child of that head.
    pub open spec fn child(self, head: Seq<char>) -> Option<SexpView> {
        match self.child_at(head, 0) {
            Some(i) => Some(self.items()[i]),
            None => None,
        }
    }

    /// The word or text at place `i` of the first child of that head.
    pub open spec fn child_text(self, head: Seq<char>, i: int) -> Option<Seq<char>> {
        match self.child(head) {
            Some(c) => c.item_text(i),
            None => None,
        }
    }

    /// How many of the first `n` items of the list have that head.
    pub open spec fn count_headed(self, head: Seq<char>, n: nat) -> nat
        decreases n,
    {
        if n == 0 || self !is List {
            0
        } else {
            self.count_headed(head, (n - 1) as nat) + (if self->List_0[n - 1].head() == Some(head) {
                1nat
            } else {
                0
            })
        }
    }

    /// How many direct children have that head.
    pub open spec fn count_children(self, head: Seq<char>) -> nat {
        match self {
            SexpView::List(items) => self.count_headed(head, items.len()),
            _ => 0,
        }
    }
}

impl SexpNode {
    /// The word that a list begins with.
    pub fn head(&self) -> (r: Option<&String>)
        ensures
            match r {
                Some(t) => self@.head() == Some(t@),
                None => self@.head() is None,
            },
    {
        broadcast use lemma_list_view;

        match self {
            SexpNode::List(items) => {
                if items.len() > 0 {
                    proof {
                        assert(models(items@)[0] == items@[0]@);
                    }
                    match &items[0] {
                        SexpNode::Atom(t) => Some(t),
                        _ => None,
                    }
                } else {
                    None
                }
            },
            _ => None,
        }
    }

    /// The items of a list; a word or a text has none.
    pub fn item_count(&self) -> (n: usize)
        ensures
            n == self@.items().len(),
    {
        broadcast use lemma_list_view;

        match self {
            SexpNode::List(items) => {
                proof {
                    assert(models(items@).len() == items@.len());
                }
                items.len()
            },
            _ => 0,
        }
    }

    /// The item at that place.
    pub fn item(&self, i: usize) -> (r: Option<&SexpNode>)
        ensures
            match r {
                Some(n) => i < self@.items().len() && n@ == self@.items()[i as int],
                None => i >= self@.items().len(),
            },
    {
        broadcast use lemma_list_view;

        match self {
            SexpNode::List(items) => {
                proof {
                    assert(models(items@).len() == items@.len());
                }
                if i < items.len() {
                    proof {
                        assert(models(items@)[i as int] == items@[i as int]@);
                    }
                    Some(&items[i])
                } else {
                    None
                }
            },
            _ => None,
        }
    }

    /// The word or text at that place.
    pub fn item_text(&self, i: usize) -> (r: Option<&String>)
        ensures
            match r {
                Some(t) => self@.item_text(i as int) == Some(t@),
                None => self@.item_text(i as int) is None,
            },
    {
        match self.item(i) {
            Some(SexpNode::Atom(t)) => Some(t),
            Some(SexpNode::Str(t)) => Some(t),
            _ => None,
        }
    }

    /// The first child of that head.
    pub fn child(&self, head: &str) -> (r: Option<&SexpNode>)
        ensures
            match r {
                Some(c) => self@.child(head@) == Some(c@),
                None => self@.child(head@) is None,
            },
    {
        let n: usize = self.item_count();
        let mut i: usize = 0;
        while i < n
            invariant
                n == self@.items().len(),
                i <= n,
                self@.child_at(head@, 0) == self@.child_at(head@, i as int),
            decreases n - i,
        {
            if let Some(c) = self.item(i) {
                if c.is_headed(head) {
                    return Some(c);
                }
            }
            i += 1;
        }
        None
    }

    /// The word or text at place `i` of the first child of that head.
    pub fn child_text(&self, head: &str, i: usize) -> (r: Option<&String>)
        ensures
            match r {
                Some(t) => self@.child_text(head@, i as int) == Some(t@),
                None => self@.child_text(head@, i as int) is None,
            },
    {
        match self.child(head) {
            Some(c) => c.item_text(i),
            None => None,
        }
    }

    /// Whether the node is a list of that head.
    pub fn is_headed(&self, head: &str) -> (r: bool)
        ensures
            r == (self@.head() == Some(head@)),
    {
        match self.head() {
            Some(t) => text::same(t.as_str(), head),
            None => false,
        }
    }

    /// How many direct children have that head.
    pub fn count_children(&self, head: &str) -> (n: usize)
        ensures
            n == self@.count_children(head@),
    {
        broadcast use lemma_list_view;

        match self {
            SexpNode::List(items) => {
                let mut n: usize = 0;
                let mut i: usize = 0;
                while i < items.len()
                    invariant
                        i <= items@.len(),
                        n <= i,
                        self@ == SexpView::List(models(items@)),
                        n == self@.count_headed(head@, i as nat),
                    decreases items@.len() - i,
                {
                    proof {
                        assert(models(items@)[i as int] == items@[i as int]@);
                    }
                    if items[i].is_headed(head) {
                        n += 1;
                    }
                    i += 1;
                }
                n
            },
            _ => 0,
        }
    }
}

// ─── Nets ─────────────────────────────────────────────────────────────────

/// The net name that a node gives: the quoted text at the end of a `net` list,
/// if it is not empty.
pub open spec fn own_name(n: SexpView) -> Option<Seq<char>> {
    match n {
        SexpView::List(items) => if n.head() == Some("net"@) {
            match items.last() {
                SexpView::Str(t) => if t.len() > 0 {
                    Some(t)
                } else {
                    None
                },
                _ => None,
            }
        } else {
            None
        },
        _ => None,
    }
}

/// The net number that a node gives: the word at the end of a `net` list, but
/// for that of the unconnected net.
pub open spec fn own_id(n: SexpView) -> Option<Seq<char>> {
    match n {
        SexpView::List(items) => if n.head() == Some("net"@) {
            match items.last() {
                SexpView::Atom(t) => if t != "0"@ {
                    Some(t)
                } else {
                    None
                },
                _ => None,
            }
        } else {
            None
        },
        _ => None,
    }
}

/// A text in a list of its own, if there is one.
pub open spec fn as_list(o: Option<Seq<char>>) -> Seq<Seq<char>> {
    match o {
        Some(t) => seq![t],
        None => Seq::empty(),
    }
}

/// The net names that a node and its descendants give, each before those
/// below it; with `ids` the net numbers.
pub open spec fn nets_below(n: SexpView, ids: bool) -> Seq<Seq<char>>
    decreases n, 0nat,
{
    match n {
        SexpView::List(items) => as_list(
            if ids {
                own_id(n)
            } else {
                own_name(n)
            },
        ) + nets_among(items, ids, items.len()),
        _ => Seq::empty(),
    }
}

/// The net names, or numbers, that the first `k` nodes and their descendants
/// give.
pub open spec fn nets_among(items: Seq<SexpView>, ids: bool, k: nat) -> Seq<Seq<char>>
    decreases items, k,
{
    if k == 0 || k > items.len() {
        Seq::empty()
    } else {
        nets_among(items, ids, (k - 1) as nat) + nets_below(items[k - 1], ids)
    }
}

fn collect_nets(n: &SexpNode, ids: bool, out: &mut Vec<String>)
    ensures
        models(final(out)@) == models(old(out)@) + nets_below(n@, ids),
    decreases n,
{
    broadcast use lemma_list_view;

    let ghost had = models(out@);
    proof {
        assert(had + Seq::<Seq<char>>::empty() =~= had);
    }
    if let SexpNode::List(items) = n {
        let ghost all = models(items@);
        let ghost own = as_list(
            if ids {
                own_id(n@)
            } else {
                own_name(n@)
            },
        );
        if n.is_headed("net") && items.len() > 0 {
            let last: usize = items.len() - 1;
            proof {
                assert(all.last() == items@[last as int]@);
            }
            match &items[last] {
                SexpNode::Str(t) => {
                    if !ids && !t.as_str().is_empty() {
                        push_model(out, t.clone());
                    }
                },
                SexpNode::Atom(t) => {
                    if ids && !text::same(t.as_str(), "0") {
                        push_model(out, t.clone());
                    }
                },
                SexpNode::List(_) => {},
            }
        }
        proof {
            assert(models(out@) =~= had + own);
            assert(had + own + nets_among(all, ids, 0) =~= had + own);
        }
        let mut k: usize = 0;
        while k < items.len()
            invariant
                k <= items@.len(),
                decreases_to!(n => items),
                all == models(items@),
                models(out@) == had + own + nets_among(all, ids, k as nat),
            decreases items@.len() - k,
        {
            proof {
                assert(all[k as int] == items@[k as int]@);
            }
            collect_nets(&items[k], ids, out);
            proof {
                assert(had + own + nets_among(all, ids, k as nat) + nets_below(
                    all[k as int],
                    ids,
                ) =~= had + own + nets_among(all, ids, (k + 1) as nat));
            }
            k += 1;
        }
        proof {
            assert(had + own + nets_among(all, ids, all.len()) =~= had + nets_below(n@, ids));
        }
    }
}

/// The net names, or with `ids` the net numbers, that a document gives.
pub fn nets_of(n: &SexpNode, ids: bool) -> (out: Vec<String>)
    ensures
        models(out@) == nets_below(n@, ids),
{
    let mut out: Vec<String> = Vec::new();
    proof {
        assert(models(out@) =~= Seq::empty());
        assert(Seq::<Seq<char>>::empty() + nets_below(n@, ids) =~= nets_below(n@, ids));
    }
    collect_nets(n, ids, &mut out);
    out
}

/// A net that a node names anywhere below a document is among the nets of the
/// document.
pub proof fn law_nets_of_parts_are_nets_of_the_whole(
    n: SexpView,
    ids: bool,
    k: int,
    t: Seq<char>,
)
    requires
        0 <= k < n.items().len(),
    ensures
        nets_below(n.items()[k], ids).contains(t) ==> nets_below(n, ids).contains(t),
        !ids && own_name(n) == Some(t) ==> nets_below(n, ids).contains(t),
        ids && own_id(n) == Some(t) ==> nets_below(n, ids).contains(t),
{
    let items = n.items();
    let own = as_list(
        if ids {
            own_id(n)
        } else {
            own_name(n)
        },
    );
    lemma_nets_among(items, ids, items.len(), k, t);
    crate::seqs::lemma_contains_add(own, nets_among(items, ids, items.len()), t);
    if own.len() > 0 {
        assert(own.contains(own[0]));
    }
}

proof fn lemma_nets_among(items: Seq<SexpView>, ids: bool, n: nat, k: int, t: Seq<char>)
    requires
        0 <= k < n <= items.len(),
    ensures
        nets_below(items[k], ids).contains(t) ==> nets_among(items, ids, n).contains(t),
    decreases n,
{
    crate::seqs::lemma_contains_add(
        nets_among(items, ids, (n - 1) as nat),
        nets_below(items[n - 1], ids),
        t,
    );
    if k < n - 1 {
        lemma_nets_among(items, ids, (n - 1) as nat, k, t);
    }
}

/// The child of a head is the first item of the list that has it.
pub proof fn law_child_is_the_first(n: SexpView, head: Seq<char>)
    ensures
        match n.child(head) {
            Some(c) => exists|i: int|
                0 <= i < n.items().len() && #[trigger] n.items()[i] == c && c.head() == Some(head)
                    && forall|j: int| 0 <= j < i ==> (#[trigger] n.items()[j]).head() != Some(head),
            None => forall|j: int|
                0 <= j < n.items().len() ==> (#[trigger] n.items()[j]).head() != Some(head),
        },
{
    lemma_child_at(n, head, 0);
    if let Some(i) = n.child_at(head, 0) {
        assert(n.items()[i] == n.child(head)->0);
    }
}

proof fn lemma_child_at(n: SexpView, head: Seq<char>, from: int)
    requires
        0 <= from,
    ensures
        match n.child_at(head, from) {
            Some(i) => from <= i < n.items().len() && n.items()[i].head() == Some(head) && forall|
                j: int,
            |
                from <= j < i ==> (#[trigger] n.items()[j]).head() != Some(head),
            None => forall|j: int|
                from <= j < n.items().len() ==> (#[trigger] n.items()[j]).head() != Some(head),
        },
    decreases n.items().len() - from,
{
    if from < n.items().len() && n.items()[from].head() != Some(head) {
        lemma_child_at(n, head, from + 1);
    }
}

} // verus!
