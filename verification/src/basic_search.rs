//! Plain searches over an owned rose tree: depth-first and breadth-first.

use vstd::prelude::*;

verus! {

use vstd::std_specs::cmp::PartialEqSpec;

/// A tree node holding a value and an owned forest of subtrees.
pub struct Node<T> {
    pub value: T,
    pub children: Vec<Node<T>>,
}

impl<T> Node<T> {
    /// The number of nodes in this tree.
    pub open spec fn size(self) -> nat
        decreases self,
    {
        1 + forest_size(self.children@)
    }

    pub fn new(value: T, children: Vec<Node<T>>) -> (n: Node<T>)
        ensures
            n.value == value,
            n.children == children,
    {
        Node { value, children }
    }
}

/// The number of nodes in a forest of trees.
pub open spec fn forest_size<T>(s: Seq<Node<T>>) -> nat
    decreases s,
{
    if s.len() == 0 {
        0
    } else {
        s[0].size() + forest_size(s.drop_first())
    }
}

impl<T: PartialEqSpec> Node<T> {
    /// Whether some node of this tree holds a value equal to `target`,
    /// equality taken in the sense of `T`'s own `==`.
    pub open spec fn spec_contains(self, target: T) -> bool
        decreases self,
    {
        self.value.eq_spec(&target) || exists|i: int|
            0 <= i < self.children@.len() && (#[trigger] self.children@[i]).spec_contains(target)
    }
}

/// Whether some tree queued in `s` contains `target`.
pub open spec fn queue_contains<T: PartialEqSpec>(s: Seq<&Node<T>>, target: T) -> bool {
    exists|i: int| 0 <= i < s.len() && (#[trigger] s[i]).spec_contains(target)
}

/// The number of nodes over all trees queued in `s`.
pub open spec fn queue_size<T>(s: Seq<&Node<T>>) -> nat
    decreases s,
{
    if s.len() == 0 {
        0
    } else {
        (*s[0]).size() + queue_size(s.drop_first())
    }
}

proof fn lemma_queue_size_push<T>(s: Seq<&Node<T>>, n: &Node<T>)
    ensures
        queue_size(s.push(n)) == queue_size(s) + n.size(),
    decreases s,
{
    if s.len() == 0 {
        assert(s.push(n).drop_first() =~= s);
    } else {
        assert(s.push(n).drop_first() =~= s.drop_first().push(n));
        lemma_queue_size_push(s.drop_first(), n);
    }
}

proof fn lemma_queue_push_contains<T: PartialEqSpec>(s: Seq<&Node<T>>, n: &Node<T>, target: T)
    ensures
        queue_contains(s.push(n), target) <==> (queue_contains(s, target) || n.spec_contains(
            target,
        )),
{
    if queue_contains(s, target) {
        let i = choose|i: int| 0 <= i < s.len() && (#[trigger] s[i]).spec_contains(target);
        assert(s.push(n)[i].spec_contains(target));
    }
    if n.spec_contains(target) {
        assert(s.push(n)[s.len() as int].spec_contains(target));
    }
    if queue_contains(s.push(n), target) && !n.spec_contains(target) {
        let i = choose|i: int|
            0 <= i < s.push(n).len() && (#[trigger] s.push(n)[i]).spec_contains(target);
        assert(i < s.len());
        assert(s[i].spec_contains(target));
    }
}

proof fn lemma_queue_head<T: PartialEqSpec>(s: Seq<&Node<T>>, target: T)
    requires
        s.len() > 0,
    ensures
        queue_contains(s, target) <==> ((*s[0]).spec_contains(target) || queue_contains(
            s.drop_first(),
            target,
        )),
{
    if (*s[0]).spec_contains(target) {
        assert(queue_contains(s, target));
    }
    if queue_contains(s.drop_first(), target) {
        let i = choose|i: int|
            0 <= i < s.drop_first().len() && (#[trigger] s.drop_first()[i]).spec_contains(target);
        assert(s[i + 1].spec_contains(target));
    }
    if queue_contains(s, target) {
        let i = choose|i: int| 0 <= i < s.len() && (#[trigger] s[i]).spec_contains(target);
        if i > 0 {
            assert(s.drop_first()[i - 1].spec_contains(target));
            assert(queue_contains(s.drop_first(), target));
        }
    }
}

proof fn lemma_forest_size_take<T>(s: Seq<Node<T>>, j: int)
    requires
        0 <= j < s.len(),
    ensures
        forest_size(s.take(j + 1)) == forest_size(s.take(j)) + s[j].size(),
    decreases j,
{
    if j == 0 {
        assert(s.take(1).drop_first() =~= s.take(0));
        assert(s.take(1)[0] == s[0]);
    } else {
        assert(s.take(j + 1).drop_first() =~= s.drop_first().take(j));
        assert(s.take(j).drop_first() =~= s.drop_first().take((j - 1) as int));
        assert(s.take(j + 1)[0] == s[0]);
        assert(s.take(j)[0] == s[0]);
        lemma_forest_size_take(s.drop_first(), j - 1);
    }
}

/// Depth-first search: whether `searched` occurs anywhere in `tree`.
pub fn depth_first_search<T: Eq + PartialEqSpec>(tree: &Node<T>, searched: &T) -> (r: bool)
    requires
        T::obeys_eq_spec(),
    ensures
        r == tree.spec_contains(*searched),
    decreases *tree,
{
    if tree.value == *searched {
        return true;
    }
    let n = tree.children.len();
    let mut i: usize = 0;
    while i < n
        invariant
            T::obeys_eq_spec(),
            n == tree.children@.len(),
            i <= n,
            !tree.value.eq_spec(searched),
            forall|j: int| 0 <= j < i ==> !(#[trigger] tree.children@[j]).spec_contains(*searched),
        decreases n - i,
    {
        if depth_first_search(&tree.children[i], searched) {
            return true;
        }
        i = i + 1;
    }
    false
}

/// Breadth-first search: whether `searched` occurs anywhere in `tree`.
pub fn breadth_first_search<T: Eq + PartialEqSpec>(tree: &Node<T>, searched: &T) -> (r: bool)
    requires
        T::obeys_eq_spec(),
    ensures
        r == tree.spec_contains(*searched),
{
    let mut candidates: std::collections::VecDeque<&Node<T>> = std::collections::VecDeque::new();
    candidates.push_back(tree);
    proof {
        assert(candidates@[0] == tree);
    }
    loop
        invariant
            T::obeys_eq_spec(),
            tree.spec_contains(*searched) <==> queue_contains(candidates@, *searched),
        ensures
            !queue_contains(candidates@, *searched),
        decreases queue_size(candidates@),
    {
        let ghost before = candidates@;
        let candidate = match candidates.pop_front() {
            Some(c) => c,
            None => {
                break;
            },
        };
        let ghost tail = candidates@;
        proof {
            assert(candidate == before[0]);
            assert(tail =~= before.drop_first());
            lemma_queue_head(before, *searched);
        }
        if candidate.value == *searched {
            return true;
        }
        let k = candidate.children.len();
        let mut j: usize = 0;
        while j < k
            invariant
                T::obeys_eq_spec(),
                k == candidate.children@.len(),
                j <= k,
                queue_size(candidates@) == queue_size(tail) + forest_size(
                    candidate.children@.take(j as int),
                ),
                queue_contains(candidates@, *searched) <==> (queue_contains(tail, *searched)
                    || exists|i: int|
                    0 <= i < j && (#[trigger] candidate.children@[i]).spec_contains(*searched)),
            decreases k - j,
        {
            let ghost prev = candidates@;
            let child = &candidate.children[j];
            candidates.push_back(child);
            proof {
                assert(candidates@ =~= prev.push(child));
                lemma_queue_size_push(prev, child);
                lemma_forest_size_take(candidate.children@, j as int);
                lemma_queue_push_contains(prev, child, *searched);
                assert forall|i: int|
                    0 <= i < j + 1 && (#[trigger] candidate.children@[i]).spec_contains(
                        *searched,
                    ) implies (queue_contains(candidates@, *searched)) by {
                    if i < j {
                        assert(queue_contains(prev, *searched));
                    }
                }
            }
            j = j + 1;
        }
        proof {
            assert(candidate.children@.take(k as int) =~= candidate.children@);
            // A node whose own value does not match contains the target
            // exactly when one of its subtrees does.
            assert(candidate.spec_contains(*searched) <==> exists|i: int|
                0 <= i < k && (#[trigger] candidate.children@[i]).spec_contains(*searched));
            // One node left the queue and only its subtrees entered it.
            assert(queue_size(before) == candidate.size() + queue_size(tail));
        }
    }
    false
}

} // verus!
