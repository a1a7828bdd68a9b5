use core::marker::PhantomData;
use vstd::prelude::*;

verus! {

/// A node of an intrusive list: a value and the ids of its neighbours in the
/// list it is in, if any. Nodes live outside the list, in a table that the
/// list operations are handed; a node's id is its index there.
pub struct Node<T> {
    pub val: T,
    prev: Option<usize>,
    next: Option<usize>,
}

impl<T> Node<T> {
    pub closed spec fn spec_val(&self) -> T {
        self.val
    }

    pub closed spec fn spec_prev(&self) -> Option<usize> {
        self.prev
    }

    pub closed spec fn spec_next(&self) -> Option<usize> {
        self.next
    }

    /// Whether the node has no neighbours.
    pub open spec fn detached(&self) -> bool {
        self.spec_prev() is None && self.spec_next() is None
    }

    /// A node holding `val`, in no list.
    pub fn new(val: T) -> (n: Self)
        ensures
            n.spec_val() == val,
            n.detached(),
    {
        Node { val, prev: None, next: None }
    }
}

/// A doubly linked list of nodes that it does not own. Its contents are the
/// ids of its nodes, first to last.
pub struct IntrusiveLinkedList<T> {
    head: Option<usize>,
    tail: Option<usize>,
    len: usize,
    ids: Ghost<Seq<usize>>,
    marker: PhantomData<T>,
}

/// Node `i` of `nodes` with the neighbours `prev` and `next`.
spec fn relinked<T>(nodes: Seq<Node<T>>, i: int, prev: Option<usize>, next: Option<usize>) -> Seq<Node<T>> {
    nodes.update(i, Node { val: nodes[i].val, prev, next })
}

/// Sets the neighbours of node `i`.
fn set_links<T>(nodes: &mut Vec<Node<T>>, i: usize, prev: Option<usize>, next: Option<usize>)
    requires
        i < old(nodes)@.len(),
    ensures
        final(nodes)@ == relinked(old(nodes)@, i as int, prev, next),
{
    let mut n = nodes.remove(i);
    n.prev = prev;
    n.next = next;
    nodes.insert(i, n);
    proof {
        assert(nodes@ =~= relinked(old(nodes)@, i as int, prev, next));
    }
}

/// The neighbours of node `i`.
fn links_of<T>(nodes: &Vec<Node<T>>, i: usize) -> (r: (Option<usize>, Option<usize>))
    requires
        i < nodes@.len(),
    ensures
        r == (nodes@[i as int].spec_prev(), nodes@[i as int].spec_next()),
{
    (nodes[i].prev, nodes[i].next)
}

/// Distinct ids below `n` are at most `n`.
proof fn lemma_distinct_bounded(s: Seq<usize>, n: nat)
    requires
        s.no_duplicates(),
        forall|k: int| 0 <= k < s.len() ==> s[k] < n,
    ensures
        s.len() <= n,
{
    s.unique_seq_to_set();
    lemma_below_len(n);
    assert(s.to_set().subset_of(Set::new(|x: usize| x < n)));
    vstd::set_lib::lemma_len_subset(s.to_set(), Set::new(|x: usize| x < n));
}

/// The ids below `n` are `n` ids, or all of them.
proof fn lemma_below_len(n: nat)
    ensures
        Set::new(|x: usize| x < n).finite(),
        Set::new(|x: usize| x < n).len() <= n,
    decreases n,
{
    if n == 0 {
        assert(Set::new(|x: usize| x < n) =~= Set::<usize>::empty());
    } else {
        lemma_below_len((n - 1) as nat);
        let smaller = Set::new(|x: usize| x < (n - 1) as nat);
        if n - 1 <= usize::MAX {
            assert(Set::new(|x: usize| x < n) =~= smaller.insert((n - 1) as usize));
        } else {
            assert(Set::new(|x: usize| x < n) =~= smaller);
        }
    }
}

/// `b` holds the values of `a`, node for node.
pub open spec fn keeps_vals<T>(a: Seq<Node<T>>, b: Seq<Node<T>>) -> bool {
    &&& a.len() == b.len()
    &&& forall|i: int| 0 <= i < a.len() ==> (#[trigger] b[i]).spec_val() == a[i].spec_val()
}

/// `b` is `a` but for the nodes in `touched`.
pub open spec fn unchanged_except<T>(a: Seq<Node<T>>, b: Seq<Node<T>>, touched: Set<usize>) -> bool {
    forall|i: int| 0 <= i < a.len() && !touched.contains(i as usize) ==> #[trigger] b[i] == a[i]
}

impl<T> IntrusiveLinkedList<T> {
    /// The ids of the nodes, first to last.
    pub closed spec fn view(&self) -> Seq<usize> {
        self.ids@
    }

    /// The nodes of the table link the ids of the list in order, each once.
    pub closed spec fn wf(&self, nodes: Seq<Node<T>>) -> bool {
        let ids = self.ids@;
        &&& self.len == ids.len()
        &&& ids.no_duplicates()
        &&& forall|k: int| 0 <= k < ids.len() ==> #[trigger] ids[k] < nodes.len()
        &&& self.head == if ids.len() == 0 {
            None
        } else {
            Some(ids[0])
        }
        &&& self.tail == if ids.len() == 0 {
            None
        } else {
            Some(ids.last())
        }
        &&& forall|k: int|
            0 <= k < ids.len() ==> (#[trigger] nodes[ids[k] as int]).spec_prev() == if k == 0 {
                None
            } else {
                Some(ids[k - 1])
            }
        &&& forall|k: int|
            0 <= k < ids.len() ==> (#[trigger] nodes[ids[k] as int]).spec_next() == if k + 1
                == ids.len() {
                None
            } else {
                Some(ids[k + 1])
            }
    }

    /// An empty list.
    pub fn new() -> (l: Self)
        ensures
            l@ == Seq::<usize>::empty(),
            forall|nodes: Seq<Node<T>>| l.wf(nodes),
    {
        IntrusiveLinkedList { head: None, tail: None, len: 0, ids: Ghost(Seq::empty()), marker: PhantomData }
    }

    /// The count kept of the nodes; in a well-formed list, the number of ids.
    pub closed spec fn spec_len(&self) -> usize {
        self.len
    }

    /// A well-formed list keeps the count of its nodes.
    pub proof fn lemma_len(&self, nodes: Seq<Node<T>>)
        requires
            self.wf(nodes),
        ensures
            self.spec_len() == self@.len(),
    {
    }

    /// The number of nodes.
    pub fn len(&self) -> (r: usize)
        ensures
            r == self.spec_len(),
    {
        self.len
    }

    /// Puts node `id` first.
    pub fn push_front(&mut self, nodes: &mut Vec<Node<T>>, id: usize)
        requires
            old(self).wf(old(nodes)@),
            id < old(nodes)@.len(),
            !old(self)@.contains(id),
            old(nodes)@[id as int].detached(),
        ensures
            final(self)@ == seq![id] + old(self)@,
            final(self).wf(final(nodes)@),
            keeps_vals(old(nodes)@, final(nodes)@),
            unchanged_except(
                old(nodes)@,
                final(nodes)@,
                if old(self)@.len() == 0 {
                    set![id]
                } else {
                    set![id, old(self)@[0]]
                },
            ),
    {
        let ghost ids = self.ids@;
        let _n = nodes.len();
        proof {
            assert(ids.push(id).no_duplicates());
            lemma_distinct_bounded(ids.push(id), nodes@.len());
        }
        match self.head {
            None => {
                set_links(nodes, id, None, None);
                self.head = Some(id);
                self.tail = Some(id);
            },
            Some(h) => {
                set_links(nodes, id, None, Some(h));
                let (_, hn) = links_of(nodes, h);
                set_links(nodes, h, Some(id), hn);
                self.head = Some(id);
            },
        }
        self.len = self.len + 1;
        self.ids = Ghost(seq![id] + ids);
        proof {
            let ids2 = self.ids@;
            assert(ids2.no_duplicates()) by {
                assert forall|a: int, b: int| 0 <= a < ids2.len() && 0 <= b < ids2.len() && a != b implies ids2[a] != ids2[b] by {
                    if a > 0 && b > 0 {
                        assert(ids2[a] == ids[a - 1] && ids2[b] == ids[b - 1]);
                    } else if a == 0 {
                        assert(ids2[b] == ids[b - 1]);
                    } else {
                        assert(ids2[a] == ids[a - 1]);
                    }
                }
            }
            assert forall|k: int| 1 <= k < ids2.len() implies ids2[k] != id && (k >= 2 ==> ids2[k] != ids[0]) by {
                assert(ids2[k] == ids[k - 1]);
            }
        }
    }

    /// Puts node `id` last.
    pub fn push_back(&mut self, nodes: &mut Vec<Node<T>>, id: usize)
        requires
            old(self).wf(old(nodes)@),
            id < old(nodes)@.len(),
            !old(self)@.contains(id),
            old(nodes)@[id as int].detached(),
        ensures
            final(self)@ == old(self)@.push(id),
            final(self).wf(final(nodes)@),
            keeps_vals(old(nodes)@, final(nodes)@),
            unchanged_except(
                old(nodes)@,
                final(nodes)@,
                if old(self)@.len() == 0 {
                    set![id]
                } else {
                    set![id, old(self)@.last()]
                },
            ),
    {
        let ghost ids = self.ids@;
        let _n = nodes.len();
        proof {
            assert(ids.push(id).no_duplicates());
            lemma_distinct_bounded(ids.push(id), nodes@.len());
        }
        match self.tail {
            None => {
                set_links(nodes, id, None, None);
                self.head = Some(id);
                self.tail = Some(id);
            },
            Some(t) => {
                set_links(nodes, id, Some(t), None);
                let (tp, _) = links_of(nodes, t);
                set_links(nodes, t, tp, Some(id));
                self.tail = Some(id);
            },
        }
        self.len = self.len + 1;
        self.ids = Ghost(ids.push(id));
        proof {
            let ids2 = self.ids@;
            assert forall|k: int| 0 <= k < ids.len() implies ids2[k] != id && (k + 1 < ids.len() ==> ids2[k] != ids.last()) by {
                assert(ids2[k] == ids[k]);
            }
        }
    }

    /// Takes the first node out; returns its id, now detached.
    pub fn pop_front(&mut self, nodes: &mut Vec<Node<T>>) -> (r: Option<usize>)
        requires
            old(self).wf(old(nodes)@),
        ensures
            final(self).wf(final(nodes)@),
            keeps_vals(old(nodes)@, final(nodes)@),
            old(self)@.len() == 0 ==> r is None && final(self)@ == old(self)@ && final(nodes)@ == old(nodes)@,
            old(self)@.len() > 0 ==> {
                &&& r == Some(old(self)@[0])
                &&& final(self)@ == old(self)@.drop_first()
                &&& final(nodes)@[old(self)@[0] as int].detached()
                &&& unchanged_except(
                    old(nodes)@,
                    final(nodes)@,
                    if old(self)@.len() == 1 {
                        set![old(self)@[0]]
                    } else {
                        set![old(self)@[0], old(self)@[1]]
                    },
                )
            },
    {
        let ghost ids = self.ids@;
        match self.head {
            None => None,
            Some(node) => {
                let (_, next) = links_of(nodes, node);
                self.head = next;
                match next {
                    None => {
                        self.tail = None;
                    },
                    Some(nx) => {
                        let (_, nn) = links_of(nodes, nx);
                        set_links(nodes, nx, None, nn);
                    },
                }
                set_links(nodes, node, None, None);
                self.len = self.len - 1;
                self.ids = Ghost(ids.drop_first());
                proof {
                    let ids2 = self.ids@;
                    assert forall|k: int| 0 <= k < ids2.len() implies ids2[k] != node && (k >= 1 ==> ids2[k] != ids[1]) by {
                        assert(ids2[k] == ids[k + 1]);
                    }
                }
                Some(node)
            },
        }
    }

    /// Takes the last node out; returns its id, now detached.
    pub fn pop_back(&mut self, nodes: &mut Vec<Node<T>>) -> (r: Option<usize>)
        requires
            old(self).wf(old(nodes)@),
        ensures
            final(self).wf(final(nodes)@),
            keeps_vals(old(nodes)@, final(nodes)@),
            old(self)@.len() == 0 ==> r is None && final(self)@ == old(self)@ && final(nodes)@ == old(nodes)@,
            old(self)@.len() > 0 ==> {
                &&& r == Some(old(self)@.last())
                &&& final(self)@ == old(self)@.drop_last()
                &&& final(nodes)@[old(self)@.last() as int].detached()
                &&& unchanged_except(
                    old(nodes)@,
                    final(nodes)@,
                    if old(self)@.len() == 1 {
                        set![old(self)@.last()]
                    } else {
                        set![old(self)@.last(), old(self)@[old(self)@.len() - 2]]
                    },
                )
            },
    {
        let ghost ids = self.ids@;
        match self.tail {
            None => None,
            Some(node) => {
                let (prev, _) = links_of(nodes, node);
                self.tail = prev;
                match prev {
                    None => {
                        self.head = None;
                    },
                    Some(pv) => {
                        let (pp, _) = links_of(nodes, pv);
                        set_links(nodes, pv, pp, None);
                    },
                }
                set_links(nodes, node, None, None);
                self.len = self.len - 1;
                self.ids = Ghost(ids.drop_last());
                proof {
                    let ids2 = self.ids@;
                    assert forall|k: int| 0 <= k < ids2.len() implies ids2[k] != node && (k + 1 < ids2.len() ==> ids2[k] != ids[ids.len() - 2]) by {
                        assert(ids2[k] == ids[k]);
                    }
                }
                Some(node)
            },
        }
    }

    /// Takes node `id` out if it is in the list, found by walking from the
    /// first node; returns whether it was.
    pub fn remove(&mut self, nodes: &mut Vec<Node<T>>, id: usize) -> (r: bool)
        requires
            old(self).wf(old(nodes)@),
        ensures
            final(self).wf(final(nodes)@),
            keeps_vals(old(nodes)@, final(nodes)@),
            r == old(self)@.contains(id),
            !r ==> final(self)@ == old(self)@ && final(nodes)@ == old(nodes)@,
            r ==> {
                let k = old(self)@.index_of(id);
                &&& final(self)@ == old(self)@.remove(k)
                &&& final(nodes)@[id as int].detached()
                &&& unchanged_except(
                    old(nodes)@,
                    final(nodes)@,
                    set![id].union(
                        if k > 0 {
                            set![old(self)@[k - 1]]
                        } else {
                            Set::empty()
                        },
                    ).union(
                        if k + 1 < old(self)@.len() {
                            set![old(self)@[k + 1]]
                        } else {
                            Set::empty()
                        },
                    ),
                )
            },
    {
        let ghost ids = self.ids@;
        let mut current = self.head;
        let ghost mut k: int = 0;
        loop
            invariant
                self.wf(nodes@),
                *self == *old(self),
                nodes@ == old(nodes)@,
                ids == self.ids@,
                0 <= k <= ids.len(),
                current == if k < ids.len() {
                    Some(ids[k])
                } else {
                    None::<usize>
                },
                forall|j: int| 0 <= j < k ==> ids[j] != id,
            ensures
                0 <= k <= ids.len(),
                current is None ==> k == ids.len(),
                current is Some ==> k < ids.len() && ids[k] == id,
                forall|j: int| 0 <= j < k ==> ids[j] != id,
            decreases ids.len() - k,
        {
            match current {
                None => {
                    break;
                },
                Some(c) => {
                    if c == id {
                        break;
                    }
                    let (_, nx) = links_of(nodes, c);
                    current = nx;
                    proof {
                        k = k + 1;
                    }
                },
            }
        }
        match current {
            None => false,
            Some(c) => {
                proof {
                    assert(ids.index_of(id) == k) by {
                        let i = ids.index_of(id);
                        assert(ids.contains(id));
                        assert(0 <= i < ids.len() && ids[i] == id);
                    }
                }
                let (p, nx) = links_of(nodes, c);
                if self.head == Some(c) {
                    self.head = nx;
                }
                if self.tail == Some(c) {
                    self.tail = p;
                }
                match p {
                    Some(pp) => {
                        let (ppp, _) = links_of(nodes, pp);
                        set_links(nodes, pp, ppp, nx);
                    },
                    None => {},
                }
                match nx {
                    Some(nn) => {
                        let (_, nnn) = links_of(nodes, nn);
                        set_links(nodes, nn, p, nnn);
                    },
                    None => {},
                }
                set_links(nodes, c, None, None);
                self.len = self.len - 1;
                self.ids = Ghost(ids.remove(k));
                proof {
                    let ids2 = self.ids@;
                    assert forall|j: int| 0 <= j < ids2.len() implies ids2[j] != id && (k > 0 && j != k - 1
                        ==> ids2[j] != ids[k - 1]) && (k + 1 < ids.len() && j != k ==> ids2[j]
                        != ids[k + 1]) by {
                        if j < k {
                            assert(ids2[j] == ids[j]);
                        } else {
                            assert(ids2[j] == ids[j + 1]);
                        }
                    }
                }
                true
            },
        }
    }
}

/// A node put first is the one taken first, and the rest of the list is as
/// before.
pub proof fn lemma_push_front_then_pop_front<T>(
    before: IntrusiveLinkedList<T>,
    pushed: IntrusiveLinkedList<T>,
    popped: IntrusiveLinkedList<T>,
    id: usize,
)
    requires
        pushed@ == seq![id] + before@,
        popped@ == pushed@.drop_first(),
    ensures
        pushed@.len() > 0,
        pushed@[0] == id,
        popped@ == before@,
{
    assert(popped@ =~= before@);
}

/// A node put last is the one taken last, and the rest of the list is as
/// before.
pub proof fn lemma_push_back_then_pop_back<T>(
    before: IntrusiveLinkedList<T>,
    pushed: IntrusiveLinkedList<T>,
    popped: IntrusiveLinkedList<T>,
    id: usize,
)
    requires
        pushed@ == before@.push(id),
        popped@ == pushed@.drop_last(),
    ensures
        pushed@.len() > 0,
        pushed@.last() == id,
        popped@ == before@,
{
    assert(popped@ =~= before@);
}

} // verus!
