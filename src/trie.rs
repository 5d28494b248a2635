use vstd::prelude::*;

use crate::token::{
    compare_text, lemma_text_lt_irreflexive, lemma_text_lt_transitive, chars_of, push_char, push_chars,
    text_lt, Order, Token,
};

verus! {

/// A node of the trie: the token that leads to it from its parent (none for
/// the root), how many inserted sequences pass through it, and its children,
/// kept in increasing order of their tokens' texts.
pub struct Node<T> {
    pub element: Option<T>,
    pub count: usize,
    pub children: Vec<Node<T>>,
}

/// The texts of a sequence of tokens.
pub open spec fn texts<T: Token>(s: Seq<T>) -> Seq<Seq<char>> {
    s.map_values(|t: T| t.text())
}

/// The text of the token that a (non-root) node holds.
pub open spec fn label<T: Token>(n: Node<T>) -> Seq<char> {
    n.element->0.text()
}

/// Every node holds a token, and the texts strictly increase along `cs`.
pub open spec fn sorted_children<T: Token>(cs: Seq<Node<T>>) -> bool {
    &&& forall|i: int|
        0 <= i < cs.len() ==> (#[trigger] cs[i]).element is Some && cs[i].count >= 1
    &&& forall|i: int, j: int|
        0 <= i < j < cs.len() ==> text_lt(#[trigger] label(cs[i]), #[trigger] label(cs[j]))
}

/// The node of `cs` whose token has the text `k`, if there is one.
pub open spec fn child_in<T: Token>(cs: Seq<Node<T>>, k: Seq<char>) -> Option<Node<T>> {
    if exists|i: int| 0 <= i < cs.len() && label(#[trigger] cs[i]) == k {
        Some(cs[choose|i: int| 0 <= i < cs.len() && label(#[trigger] cs[i]) == k])
    } else {
        None
    }
}

/// Whether `p` is a non-empty prefix of `s`.
pub open spec fn is_prefix_path(p: Seq<Seq<char>>, s: Seq<Seq<char>>) -> bool {
    0 < p.len() <= s.len() && s.take(p.len() as int) == p
}

/// The marker that leads a node's line: a corner for the last child, a tee
/// for the others.
pub open spec fn branch(is_last: bool) -> Seq<char> {
    if is_last {
        seq!['└', '─', ' ']
    } else {
        seq!['├', '─', ' ']
    }
}

/// What a node adds to the indentation of its children: blank below a last
/// child, a vertical bar below the others.
pub open spec fn continuation(is_last: bool) -> Seq<char> {
    if is_last {
        seq![' ', ' ', ' ', ' ']
    } else {
        seq!['│', ' ', ' ', ' ']
    }
}

/// The line of a node: none for the root, else the indentation, the marker
/// and the token's text.
pub open spec fn node_line<T: Token>(n: Node<T>, prefix: Seq<char>, is_last: bool) -> Seq<char> {
    match n.element {
        Some(t) => prefix + branch(is_last) + t.text() + seq!['\n'],
        None => Seq::empty(),
    }
}

/// The depth-first, pre-order rendering of the subtrie at `n`.
pub open spec fn render_node<T: Token>(n: Node<T>, prefix: Seq<char>, is_last: bool) -> Seq<char>
    decreases n, 1int, 0int,
{
    node_line(n, prefix, is_last) + render_children(
        n,
        n.children@.len() as int,
        prefix + continuation(is_last),
    )
}

/// The renderings of the first `k` children of `n`, in order.
pub open spec fn render_children<T: Token>(n: Node<T>, k: int, prefix: Seq<char>) -> Seq<char>
    decreases n, 0int, k,
{
    if k <= 0 || k > n.children@.len() {
        Seq::empty()
    } else {
        render_children(n, k - 1, prefix) + render_node(
            n.children@[k - 1],
            prefix,
            k == n.children@.len(),
        )
    }
}

/// The rendering of a whole trie.
pub open spec fn tree_text<T: Token>(n: Node<T>) -> Seq<char> {
    render_node(n, Seq::empty(), true)
}

/// Among sorted children, a child's text finds that very child.
pub proof fn lemma_child_in_at<T: Token>(cs: Seq<Node<T>>, i: int)
    requires
        sorted_children(cs),
        0 <= i < cs.len(),
    ensures
        child_in(cs, label(cs[i])) == Some(cs[i]),
{
    let k = label(cs[i]);
    assert(0 <= i < cs.len() && label(cs[i]) == k);
    let c = choose|c: int| 0 <= c < cs.len() && label(#[trigger] cs[c]) == k;
    if c < i {
        assert(text_lt(label(cs[c]), label(cs[i])));
        lemma_text_lt_irreflexive(k);
    } else if i < c {
        assert(text_lt(label(cs[i]), label(cs[c])));
        lemma_text_lt_irreflexive(k);
    }
}

proof fn lemma_sorted_insert<T: Token>(cs: Seq<Node<T>>, j: int, c: Node<T>)
    requires
        sorted_children(cs),
        0 <= j <= cs.len(),
        c.element is Some,
        c.count >= 1,
        forall|m: int| 0 <= m < j ==> text_lt(label(#[trigger] cs[m]), label(c)),
        j < cs.len() ==> text_lt(label(c), label(cs[j])),
    ensures
        sorted_children(cs.insert(j, c)),
{
    let n = cs.insert(j, c);
    assert forall|a: int, b: int| 0 <= a < b < n.len() implies text_lt(
        #[trigger] label(n[a]),
        #[trigger] label(n[b]),
    ) by {
        if a < j && b < j {
            assert(text_lt(label(cs[a]), label(cs[b])));
        } else if a < j && b == j {
        } else if a < j && b > j {
            assert(text_lt(label(cs[a]), label(cs[b - 1])));
        } else if a == j {
            if b - 1 > j {
                assert(text_lt(label(cs[j]), label(cs[b - 1])));
                lemma_text_lt_transitive(label(c), label(cs[j]), label(cs[b - 1]));
            }
        } else {
            assert(text_lt(label(cs[a - 1]), label(cs[b - 1])));
        }
    }
}

proof fn lemma_sorted_update<T: Token>(cs: Seq<Node<T>>, j: int, c: Node<T>)
    requires
        sorted_children(cs),
        0 <= j < cs.len(),
        c.element is Some,
        c.count >= 1,
        label(c) == label(cs[j]),
    ensures
        sorted_children(cs.update(j, c)),
{
    let n = cs.update(j, c);
    assert forall|a: int, b: int| 0 <= a < b < n.len() implies text_lt(
        #[trigger] label(n[a]),
        #[trigger] label(n[b]),
    ) by {
        assert(text_lt(label(cs[a]), label(cs[b])));
    }
}

/// Putting `c` at `j` (in place of a node of the same text, or between the
/// others) leaves every other text finding the node it found before.
proof fn lemma_child_in_other<T: Token>(
    cs: Seq<Node<T>>,
    n: Seq<Node<T>>,
    j: int,
    c: Node<T>,
    found: bool,
    k: Seq<char>,
)
    requires
        sorted_children(cs),
        sorted_children(n),
        0 <= j <= cs.len(),
        found ==> j < cs.len() && label(cs[j]) == label(c),
        n == (if found {
            cs.update(j, c)
        } else {
            cs.insert(j, c)
        }),
        k != label(c),
    ensures
        child_in(n, k) == child_in(cs, k),
{
    if exists|i: int| 0 <= i < cs.len() && label(#[trigger] cs[i]) == k {
        let i = choose|i: int| 0 <= i < cs.len() && label(#[trigger] cs[i]) == k;
        let i2 = if found || i < j {
            i
        } else {
            i + 1
        };
        assert(n[i2] == cs[i]);
        lemma_child_in_at(n, i2);
        lemma_child_in_at(cs, i);
    } else {
        assert forall|i: int| 0 <= i < n.len() implies label(#[trigger] n[i]) != k by {
            if i != j {
                let i0 = if found || i < j {
                    i
                } else {
                    i - 1
                };
                assert(n[i] == cs[i0]);
            }
        }
    }
}

proof fn lemma_prefix_cons(p: Seq<Seq<char>>, s: Seq<Seq<char>>)
    requires
        p.len() > 1,
        s.len() > 0,
        p[0] == s[0],
    ensures
        is_prefix_path(p, s) == is_prefix_path(p.drop_first(), s.drop_first()),
{
    let n = p.len() as int;
    if n <= s.len() {
        assert(s.take(n).drop_first() =~= s.drop_first().take(n - 1));
        if s.drop_first().take(n - 1) == p.drop_first() {
            assert forall|x: int| 0 <= x < n implies s.take(n)[x] == p[x] by {
                if x > 0 {
                    assert(s.drop_first().take(n - 1)[x - 1] == p.drop_first()[x - 1]);
                }
            }
            assert(s.take(n) =~= p);
        }
    }
}

impl<T: Token> Node<T> {
    /// The node reached from this one by following the token texts of `p`.
    pub open spec fn node_at(self, p: Seq<Seq<char>>) -> Option<Node<T>>
        decreases p.len(),
    {
        if p.len() == 0 {
            Some(self)
        } else {
            match child_in(self.children@, p[0]) {
                Some(c) => c.node_at(p.drop_first()),
                None => None,
            }
        }
    }

    /// The count of the node at `p`; none where the trie has no such node.
    pub open spec fn count_at(self, p: Seq<Seq<char>>) -> Option<nat> {
        match self.node_at(p) {
            Some(n) => Some(n.count as nat),
            None => None,
        }
    }

    /// Every node of the trie keeps its children sorted, with tokens and
    /// positive counts.
    pub open spec fn wf(self) -> bool {
        forall|p: Seq<Seq<char>>|
            #[trigger] self.node_at(p) is Some ==> sorted_children(self.node_at(p)->0.children@)
    }

    /// What `count_at(p)` becomes once the sequence with texts `s` is inserted.
    pub open spec fn count_after(self, s: Seq<Seq<char>>, p: Seq<Seq<char>>) -> Option<nat> {
        if is_prefix_path(p, s) {
            match self.count_at(p) {
                Some(c) => Some(c + 1),
                None => Some(1),
            }
        } else {
            self.count_at(p)
        }
    }

    /// No count along the sequence with texts `s` is at the largest `usize`.
    pub open spec fn can_insert(self, s: Seq<Seq<char>>) -> bool {
        forall|p: Seq<Seq<char>>|
            is_prefix_path(p, s) && #[trigger] self.count_at(p) is Some ==> self.count_at(p)->0
                < usize::MAX
    }

    /// An empty trie: a root without token, with count zero and no children.
    pub fn new() -> (r: Self)
        ensures
            r.wf(),
            r.element is None,
            r.count == 0,
            r.children@.len() == 0,
    {
        let r = Node { element: None, count: 0, children: Vec::new() };
        assert forall|p: Seq<Seq<char>>| #[trigger] r.node_at(p) is Some implies sorted_children(
            r.node_at(p)->0.children@,
        ) by {
            if p.len() > 0 {
                assert(child_in(r.children@, p[0]) is None);
            }
        }
        r
    }

    /// The text of this node's token.
    fn label_chars(&self) -> (r: Vec<char>)
        requires
            self.element is Some,
        ensures
            r@ == label(*self),
    {
        match &self.element {
            Some(t) => t.to_chars(),
            None => Vec::new(),
        }
    }

    /// Where a child with text `key` stands among the children, or would stand.
    fn locate(&self, key: &Vec<char>) -> (r: (usize, bool))
        requires
            sorted_children(self.children@),
        ensures
            r.0 <= self.children@.len(),
            forall|m: int| 0 <= m < r.0 ==> text_lt(label(#[trigger] self.children@[m]), key@),
            r.1 ==> r.0 < self.children@.len() && label(self.children@[r.0 as int]) == key@,
            !r.1 && r.0 < self.children@.len() ==> text_lt(
                key@,
                label(self.children@[r.0 as int]),
            ),
    {
        let mut j: usize = 0;
        while j < self.children.len()
            invariant
                sorted_children(self.children@),
                j <= self.children@.len(),
                forall|m: int| 0 <= m < j ==> text_lt(label(#[trigger] self.children@[m]), key@),
            decreases self.children@.len() - j,
        {
            let here = self.children[j].label_chars();
            match compare_text(&here, key) {
                Order::Less => {},
                Order::Equal => {
                    return (j, true);
                },
                Order::Greater => {
                    return (j, false);
                },
            }
            j = j + 1;
        }
        (j, false)
    }

    /// Inserts the tokens of `s` from position `i` on below this node.
    fn insert_path(&mut self, s: &Vec<T>, i: usize)
        requires
            old(self).wf(),
            i <= s@.len(),
            old(self).can_insert(texts(s@).skip(i as int)),
        ensures
            final(self).wf(),
            final(self).element == old(self).element,
            final(self).count == old(self).count,
            forall|p: Seq<Seq<char>>|
                #[trigger] final(self).count_at(p) == old(self).count_after(
                    texts(s@).skip(i as int),
                    p,
                ),
            i == s@.len() ==> *final(self) == *old(self),
        decreases s@.len() - i,
    {
        let ghost big = texts(s@).skip(i as int);
        if i == s.len() {
            return;
        }
        let ghost k = big[0];
        let ghost old_self = *self;
        let ghost cs = self.children@;
        let ghost bd = big.drop_first();
        proof {
            assert(texts(s@).skip(i + 1) =~= bd);
            assert(self.node_at(Seq::empty()) is Some);
        }
        let key = s[i].to_chars();
        let (j, found) = self.locate(&key);
        let mut child = if found {
            self.children.remove(j)
        } else {
            Node { element: Some(s[i].duplicate()), count: 0, children: Vec::new() }
        };
        let ghost c0 = child;
        proof {
            assert(label(c0) == k);
            if found {
                lemma_child_in_at(cs, j as int);
            } else {
                assert forall|m: int| 0 <= m < cs.len() implies label(#[trigger] cs[m]) != k by {
                    if m > j {
                        lemma_text_lt_transitive(k, label(cs[j as int]), label(cs[m]));
                    }
                    lemma_text_lt_irreflexive(k);
                }
                assert(child_in(cs, k) is None);
            }
            // The subtrie below `k` before the insertion is the one below `c0`.
            assert forall|q: Seq<Seq<char>>|
                q.len() > 0 || found implies #[trigger] c0.node_at(q) == old_self.node_at(
                seq![k] + q,
            ) by {
                assert((seq![k] + q).drop_first() =~= q);
            }
            let one = seq![k];
            assert(big.take(1) =~= one);
            assert(one.drop_first() =~= Seq::<Seq<char>>::empty());
            assert(seq![k] + Seq::<Seq<char>>::empty() =~= one);
            if found {
                assert(c0.node_at(Seq::<Seq<char>>::empty()) == Some(c0));
                assert(old_self.count_at(one) is Some);
            }
        }
        child.count = child.count + 1;
        let ghost c1 = child;
        proof {
            assert forall|q: Seq<Seq<char>>| #[trigger] c1.node_at(q) is Some implies sorted_children(
                c1.node_at(q)->0.children@,
            ) by {
                if found {
                    if q.len() == 0 {
                        assert(c0.node_at(q) == Some(c0));
                    } else {
                        assert(c1.node_at(q) == c0.node_at(q));
                    }
                    assert(c0.node_at(q) == old_self.node_at(seq![k] + q));
                    assert(old_self.node_at(seq![k] + q) is Some);
                } else if q.len() > 0 {
                    assert(child_in(c0.children@, q[0]) is None);
                }
            }
            assert forall|q: Seq<Seq<char>>|
                is_prefix_path(q, bd) && #[trigger] c1.count_at(q) is Some implies c1.count_at(q)->0
                < usize::MAX by {
                let kq = seq![k] + q;
                if found {
                    assert(kq.drop_first() =~= q);
                    assert(big.take(kq.len() as int) =~= kq) by {
                        assert(big.take(kq.len() as int).drop_first() =~= bd.take(q.len() as int));
                    }
                    assert(c1.node_at(q) == c0.node_at(q));
                    assert(c0.node_at(q) == old_self.node_at(kq));
                    assert(old_self.count_at(kq) is Some);
                } else {
                    assert(child_in(c0.children@, q[0]) is None);
                }
            }
        }
        child.insert_path(s, i + 1);
        let ghost c2 = child;
        self.children.insert(j, child);
        proof {
            let n = self.children@;
            if found {
                assert(n =~= cs.update(j as int, c2));
                lemma_sorted_update(cs, j as int, c2);
            } else {
                assert(n =~= cs.insert(j as int, c2));
                lemma_sorted_insert(cs, j as int, c2);
            }
            lemma_child_in_at(n, j as int);
            let fin = *self;
            assert forall|p: Seq<Seq<char>>|
                #[trigger] fin.count_at(p) == old_self.count_after(big, p) by {
                if p.len() > 0 {
                    let q = p.drop_first();
                    if p[0] == k {
                        assert(p =~= seq![k] + q);
                        assert(fin.node_at(p) == c2.node_at(q));
                        assert(c2.count_at(q) == c1.count_after(bd, q));
                        if q.len() == 0 {
                            assert(big.take(1) =~= p);
                            assert(c0.node_at(q) == Some(c0));
                            if found {
                                assert(c0.node_at(q) == old_self.node_at(seq![k] + q));
                            }
                        } else {
                            lemma_prefix_cons(p, big);
                            assert(c1.node_at(q) == c0.node_at(q));
                            if found {
                                assert(c0.node_at(q) == old_self.node_at(seq![k] + q));
                            } else {
                                assert(child_in(c0.children@, q[0]) is None);
                            }
                            assert(c1.count_at(q) == old_self.count_at(p));
                        }
                    } else {
                        lemma_child_in_other(cs, n, j as int, c2, found, p[0]);
                        if p.len() <= big.len() {
                            assert(big.take(p.len() as int)[0] == k);
                        }
                    }
                }
            }
            assert forall|p: Seq<Seq<char>>| #[trigger] fin.node_at(p) is Some implies sorted_children(
                fin.node_at(p)->0.children@,
            ) by {
                if p.len() > 0 {
                    let q = p.drop_first();
                    if p[0] == k {
                        assert(c2.node_at(q) is Some);
                    } else {
                        lemma_child_in_other(cs, n, j as int, c2, found, p[0]);
                        assert(old_self.node_at(p) is Some);
                    }
                }
            }
        }
    }

    /// Inserts one sequence of tokens: every node along its path gains one in
    /// count, and the nodes missing from that path are created.
    pub fn add_sentence(&mut self, sentence: Vec<T>)
        requires
            old(self).wf(),
            old(self).can_insert(texts(sentence@)),
        ensures
            final(self).wf(),
            final(self).element == old(self).element,
            final(self).count == old(self).count,
            forall|p: Seq<Seq<char>>|
                #[trigger] final(self).count_at(p) == old(self).count_after(texts(sentence@), p),
            sentence@.len() == 0 ==> *final(self) == *old(self),
    {
        assert(texts(sentence@).skip(0) =~= texts(sentence@));
        self.insert_path(&sentence, 0);
    }

    /// Appends the rendering of this subtrie, below the indentation `prefix`.
    pub fn print_tree_recursive(&self, prefix: &String, is_last: bool, out: &mut String)
        ensures
            final(out)@ == old(out)@ + render_node(*self, prefix@, is_last),
        decreases self,
    {
        let ghost start = out@;
        if let Some(element) = &self.element {
            push_chars(out, &chars_of(prefix.as_str()));
            if is_last {
                push_char(out, '└');
            } else {
                push_char(out, '├');
            }
            push_char(out, '─');
            push_char(out, ' ');
            push_chars(out, &element.to_chars());
            push_char(out, '\n');
        }
        let ghost line = out@.skip(start.len() as int);
        proof {
            assert(out@ =~= start + line);
            assert(line =~= node_line(*self, prefix@, is_last));
        }
        let mut child_prefix = prefix.clone();
        if is_last {
            push_char(&mut child_prefix, ' ');
        } else {
            push_char(&mut child_prefix, '│');
        }
        push_char(&mut child_prefix, ' ');
        push_char(&mut child_prefix, ' ');
        push_char(&mut child_prefix, ' ');
        assert(child_prefix@ =~= prefix@ + continuation(is_last));
        let n = self.children.len();
        let mut idx: usize = 0;
        while idx < n
            invariant
                n == self.children@.len(),
                idx <= n,
                child_prefix@ == prefix@ + continuation(is_last),
                out@ == start + line + render_children(*self, idx as int, child_prefix@),
            decreases n - idx,
        {
            let ghost before = out@;
            self.children[idx].print_tree_recursive(&child_prefix, idx + 1 == n, out);
            assert(out@ =~= start + line + render_children(*self, idx + 1, child_prefix@));
            idx = idx + 1;
        }
    }

    /// The rendering of the whole trie: one line per node but the root.
    pub fn print_tree(&self) -> (r: String)
        ensures
            r@ == tree_text(*self),
    {
        let mut r = String::new();
        self.print_tree_recursive(&String::new(), true, &mut r);
        assert(r@ =~= tree_text(*self));
        r
    }

    /// The child whose token has the same text as `token`.
    pub fn get_child(&self, token: &T) -> (r: Option<&Node<T>>)
        requires
            sorted_children(self.children@),
        ensures
            r is Some <==> child_in(self.children@, token.text()) is Some,
            r is Some ==> *r->0 == child_in(self.children@, token.text())->0,
    {
        let key = token.to_chars();
        let (j, found) = self.locate(&key);
        if found {
            proof {
                lemma_child_in_at(self.children@, j as int);
            }
            Some(&self.children[j])
        } else {
            proof {
                assert forall|i: int| 0 <= i < self.children@.len() implies label(
                    #[trigger] self.children@[i],
                ) != key@ by {
                    if i < j {
                        lemma_text_lt_irreflexive(key@);
                    } else {
                        if i > j {
                            lemma_text_lt_transitive(
                                key@,
                                label(self.children@[j as int]),
                                label(self.children@[i]),
                            );
                        }
                        lemma_text_lt_irreflexive(key@);
                    }
                }
            }
            None
        }
    }
}

} // verus!
